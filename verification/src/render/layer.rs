//! A simple ordered stack of tile layers for compositing.

use crate::scalar::Real32;
use crate::tile::TileCoord;
use vstd::prelude::*;

verus! {

/// A tile ready to be rendered.
#[derive(Debug, Clone, Copy, PartialEq, Eq, Structural)]
pub struct RenderTile {
    pub coord: TileCoord,
    /// Index into the texture atlas or bind group array.
    pub texture_index: usize,
    /// Opacity for blending.
    pub opacity: Real32,
}

/// A layer of tiles to render.
#[derive(Debug)]
pub struct TileRenderLayer {
    pub name: String,
    pub tiles: Vec<RenderTile>,
    pub visible: bool,
    pub opacity: Real32,
}

impl TileRenderLayer {
    /// An empty, visible, opaque layer.
    pub fn new(name: &str) -> (l: TileRenderLayer)
        ensures
            l.name@ == name@,
            l.tiles@.len() == 0,
            l.visible,
            l.opacity == Real32::one(),
    {
        TileRenderLayer {
            name: name.to_owned(),
            tiles: Vec::new(),
            visible: true,
            opacity: Real32::one(),
        }
    }
}

/// Ordered stack of tile layers, bottom to top.
#[derive(Debug)]
pub struct LayerStack {
    pub layers: Vec<TileRenderLayer>,
}

/// The layer is not called `name`.
pub open spec fn named_otherwise(name: Seq<char>) -> spec_fn(TileRenderLayer) -> bool {
    |l: TileRenderLayer| l.name@ != name
}

/// Position of the first layer called `name`.
pub open spec fn stack_index(layers: Seq<TileRenderLayer>, name: Seq<char>) -> Option<int>
    decreases layers.len(),
{
    if layers.len() == 0 {
        None
    } else {
        match stack_index(layers.drop_last(), name) {
            Some(i) => Some(i),
            None => if layers.last().name@ == name {
                Some(layers.len() - 1)
            } else {
                None
            },
        }
    }
}

/// The first layer called `name` is the one at `stack_index`; there is none where that is `None`.
pub proof fn law_stack_index(layers: Seq<TileRenderLayer>, name: Seq<char>)
    ensures
        match stack_index(layers, name) {
            Some(i) => 0 <= i < layers.len() && layers[i].name@ == name && forall|j: int|
                0 <= j < i ==> (#[trigger] layers[j]).name@ != name,
            None => forall|j: int| 0 <= j < layers.len() ==> (#[trigger] layers[j]).name@ != name,
        },
    decreases layers.len(),
{
    if layers.len() > 0 {
        let init = layers.drop_last();
        law_stack_index(init, name);
        match stack_index(init, name) {
            Some(i) => {
                assert(layers[i] == init[i]);
                assert forall|j: int| 0 <= j < i implies (#[trigger] layers[j]).name@ != name by {
                    assert(layers[j] == init[j]);
                }
            },
            None => {
                assert forall|j: int| 0 <= j < layers.len() - 1 implies (
                #[trigger] layers[j]).name@ != name by {
                    assert(layers[j] == init[j]);
                }
            },
        }
    }
}

impl LayerStack {
    pub fn new() -> (s: LayerStack)
        ensures
            s.layers@.len() == 0,
    {
        LayerStack { layers: Vec::new() }
    }

    /// Put a layer on top.
    pub fn add_layer(&mut self, layer: TileRenderLayer)
        ensures
            final(self).layers@ == old(self).layers@.push(layer),
    {
        self.layers.push(layer);
    }

    /// Remove every layer called `name`.
    pub fn remove_layer(&mut self, name: &str)
        ensures
            final(self).layers@ == old(self).layers@.filter(named_otherwise(name@)),
    {
        let wanted: String = name.to_owned();
        let ghost stack = self.layers@;
        let ghost keep = named_otherwise(name@);
        let mut rest: Vec<TileRenderLayer> = Vec::new();
        std::mem::swap(&mut rest, &mut self.layers);
        let mut kept: Vec<TileRenderLayer> = Vec::new();
        let ghost mut done: int = 0;
        assert(stack.skip(0) =~= stack);
        assert(stack.take(0).filter(keep) =~= Seq::<TileRenderLayer>::empty()) by {
            reveal(Seq::filter);
        }
        while rest.len() > 0
            invariant
                wanted@ == name@,
                keep == named_otherwise(name@),
                0 <= done <= stack.len(),
                rest@ == stack.skip(done),
                kept@ == stack.take(done).filter(keep),
            decreases rest@.len(),
        {
            let layer = rest.remove(0);
            proof {
                assert(layer == stack[done]);
                assert(stack.take(done + 1) =~= stack.take(done).push(layer));
                stack.take(done).lemma_filter_push(layer, keep);
                assert(rest@ =~= stack.skip(done + 1));
                done = done + 1;
            }
            if layer.name == wanted {
            } else {
                kept.push(layer);
            }
        }
        assert(stack.take(done) =~= stack);
        self.layers = kept;
    }

    fn find(&self, name: &str) -> (r: Option<usize>)
        ensures
            match r {
                Some(i) => stack_index(self.layers@, name@) == Some(i as int) && i
                    < self.layers@.len(),
                None => stack_index(self.layers@, name@) is None,
            },
    {
        let wanted: String = name.to_owned();
        let mut i: usize = 0;
        while i < self.layers.len()
            invariant
                i <= self.layers@.len(),
                wanted@ == name@,
                forall|j: int| 0 <= j < i ==> (#[trigger] self.layers@[j]).name@ != name@,
            decreases self.layers@.len() - i,
        {
            if self.layers[i].name == wanted {
                proof {
                    law_stack_index(self.layers@, name@);
                }
                return Some(i);
            }
            i = i + 1;
        }
        proof {
            law_stack_index(self.layers@, name@);
        }
        None
    }

    /// The first layer called `name`.
    pub fn get_layer(&self, name: &str) -> (r: Option<&TileRenderLayer>)
        ensures
            match stack_index(self.layers@, name@) {
                Some(i) => r == Some(&self.layers@[i]),
                None => r is None,
            },
    {
        match self.find(name) {
            Some(i) => Some(&self.layers[i]),
            None => None,
        }
    }

    /// The first layer called `name`, for changes in place.
    pub fn get_layer_mut(&mut self, name: &str) -> (r: Option<&mut TileRenderLayer>)
        ensures
            r is Some == (stack_index(old(self).layers@, name@) is Some),
            r is None ==> *final(self) == *old(self),
            r is Some ==> ({
                let i = stack_index(old(self).layers@, name@).unwrap();
                &&& *r.unwrap() == old(self).layers@[i]
                &&& final(self).layers@ == old(self).layers@.update(i, *final(r.unwrap()))
            }),
    {
        match self.find(name) {
            Some(i) => Some(&mut self.layers[i]),
            None => None,
        }
    }

    /// The visible layers, bottom to top.
    pub fn visible_layers(&self) -> (r: Vec<&TileRenderLayer>)
        ensures
            r@.map_values(|l: &TileRenderLayer| *l) == self.layers@.filter(
                |l: TileRenderLayer| l.visible,
            ),
    {
        let ghost stack = self.layers@;
        let ghost keep = |l: TileRenderLayer| l.visible;
        let ghost strip = |l: &TileRenderLayer| *l;
        let mut r: Vec<&TileRenderLayer> = Vec::new();
        let mut i: usize = 0;
        assert(r@.map_values(strip) =~= stack.take(0).filter(keep)) by {
            reveal(Seq::filter);
        }
        while i < self.layers.len()
            invariant
                i <= self.layers@.len(),
                stack == self.layers@,
                keep == (|l: TileRenderLayer| l.visible),
                strip == (|l: &TileRenderLayer| *l),
                r@.map_values(strip) == stack.take(i as int).filter(keep),
            decreases self.layers@.len() - i,
        {
            let ghost before = r@;
            proof {
                assert(stack.take(i + 1) =~= stack.take(i as int).push(stack[i as int]));
                stack.take(i as int).lemma_filter_push(stack[i as int], keep);
            }
            if self.layers[i].visible {
                r.push(&self.layers[i]);
                assert(r@.map_values(strip) =~= before.map_values(strip).push(stack[i as int]));
            }
            i = i + 1;
        }
        assert(stack.take(i as int) =~= stack);
        r
    }

    pub fn layer_count(&self) -> (n: usize)
        ensures
            n == self.layers@.len(),
    {
        self.layers.len()
    }
}

impl Default for LayerStack {
    fn default() -> (s: LayerStack)
        ensures
            s.layers@.len() == 0,
    {
        LayerStack::new()
    }
}

/// Taking out the layers of a name leaves exactly the others, in their order.
pub proof fn law_stack_remove(layers: Seq<TileRenderLayer>, name: Seq<char>) -> (at: Seq<int>)
    ensures
        at.len() == layers.filter(named_otherwise(name)).len(),
        forall|k: int|
            0 <= k < at.len() ==> 0 <= #[trigger] at[k] < layers.len() && layers.filter(
                named_otherwise(name),
            )[k] == layers[at[k]] && layers[at[k]].name@ != name,
        forall|a: int, b: int| 0 <= a < b < at.len() ==> #[trigger] at[a] < #[trigger] at[b],
        forall|i: int|
            0 <= i < layers.len() && (#[trigger] layers[i]).name@ != name ==> at.contains(i),
    decreases layers.len(),
{
    reveal(Seq::filter);
    let keep = named_otherwise(name);
    if layers.len() == 0 {
        Seq::empty()
    } else {
        let init = layers.drop_last();
        let rest = law_stack_remove(init, name);
        if layers.last().name@ != name {
            let at = rest.push(layers.len() - 1);
            assert forall|k: int| 0 <= k < at.len() implies 0 <= #[trigger] at[k] < layers.len()
                && layers.filter(keep)[k] == layers[at[k]] && layers[at[k]].name@ != name by {
                if k < rest.len() {
                    assert(at[k] == rest[k]);
                    assert(init[rest[k]] == layers[rest[k]]);
                }
            }
            assert forall|i: int|
                0 <= i < layers.len() && (#[trigger] layers[i]).name@ != name implies at.contains(
                i,
            ) by {
                if i < init.len() {
                    assert(init[i] == layers[i]);
                    let k = rest.index_of(i);
                    assert(at[k] == i);
                } else {
                    assert(at[rest.len() as int] == i);
                }
            }
            at
        } else {
            assert forall|k: int| 0 <= k < rest.len() implies 0 <= #[trigger] rest[k] < layers.len()
                && layers.filter(keep)[k] == layers[rest[k]] && layers[rest[k]].name@ != name by {
                assert(init[rest[k]] == layers[rest[k]]);
            }
            assert forall|i: int|
                0 <= i < layers.len() && (#[trigger] layers[i]).name@ != name implies rest.contains(
                i,
            ) by {
                assert(init[i] == layers[i]);
            }
            rest
        }
    }
}

} // verus!
