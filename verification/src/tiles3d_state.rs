//! State of a 3D Tiles layer: which contents are uploaded, and what an upload takes.
//!
//! Fetching and decoding are the platform's.

use crate::named::NamedMap;
use crate::scalar::Real64;
use crate::sequences::{gather, lemma_gather_sources};
use vstd::prelude::*;

verus! {

/// A texture as decoded: its size in pixels and the number of bytes that are there.
#[derive(Debug, Clone, Copy, PartialEq, Eq, Structural)]
pub struct TextureInfo {
    pub width: u32,
    pub height: u32,
    pub len: usize,
}

/// A position that others are relative to.
#[derive(Debug, Clone, Copy, PartialEq, Eq, Structural)]
pub struct Center {
    pub x: Real64,
    pub y: Real64,
    pub z: Real64,
}

/// A decoded mesh: how many of each attribute there are.
#[derive(Debug, Clone, Copy, PartialEq, Eq, Structural)]
pub struct DecodedMesh {
    pub positions: usize,
    pub normals: usize,
    pub tex_coords: usize,
    pub indices: usize,
    pub texture: Option<TextureInfo>,
    /// Center that the positions are relative to.
    pub rtc_center: Option<Center>,
}

/// An uploaded mesh.
#[derive(Debug, Clone, Copy, PartialEq, Eq, Structural)]
pub struct ModelUpload {
    /// Position in the decoded content.
    pub mesh: usize,
    pub vertices: usize,
    /// Vertices that have their own normal; the others point up.
    pub own_normals: usize,
    /// Vertices that have their own texture coordinate; the others take the origin.
    pub own_tex_coords: usize,
    pub indices: usize,
    /// The decoded texture is used; otherwise a white one.
    pub textured: bool,
    pub rtc_center: Option<Center>,
}

/// An uploaded content.
pub struct GpuTileContent {
    pub models: Vec<ModelUpload>,
}

/// The smaller of two counts.
pub open spec fn lesser(a: usize, b: usize) -> usize {
    if a < b {
        a
    } else {
        b
    }
}

/// The texture has a size, and four bytes for every pixel are there.
pub open spec fn is_complete(t: TextureInfo) -> bool {
    t.width > 0 && t.height > 0 && t.len == t.width * t.height * 4
}

/// What the mesh at position `i` is uploaded as, unless it has nothing to draw.
pub open spec fn upload_at(meshes: Seq<DecodedMesh>) -> spec_fn(int) -> Option<ModelUpload> {
    |i: int|
        {
            let m = meshes[i];
            if m.positions == 0 || m.indices == 0 {
                None
            } else {
                Some(
                    ModelUpload {
                        mesh: i as usize,
                        vertices: m.positions,
                        own_normals: lesser(m.normals, m.positions),
                        own_tex_coords: lesser(m.tex_coords, m.positions),
                        indices: m.indices,
                        textured: m.texture matches Some(t) && is_complete(t),
                        rtc_center: m.rtc_center,
                    },
                )
            }
        }
}

/// What a content is uploaded as.
pub open spec fn uploads(meshes: Seq<DecodedMesh>) -> Seq<ModelUpload> {
    gather(meshes.len(), upload_at(meshes))
}

fn has_all_pixels(t: &TextureInfo) -> (b: bool)
    ensures
        b == is_complete(*t),
{
    if t.width == 0 || t.height == 0 {
        return false;
    }
    let w: u128 = t.width as u128;
    let h: u128 = t.height as u128;
    assert(0 <= w * h <= 0xffff_ffff * 0xffff_ffff) by (nonlinear_arith)
        requires
            0 <= w <= 0xffff_ffff,
            0 <= h <= 0xffff_ffff,
    ;
    t.len as u128 == w * h * 4
}

/// Uploaded contents by URI.
pub struct Tiles3dGpuState {
    pub gpu_tiles: NamedMap<GpuTileContent>,
    /// URIs that have been uploaded.
    pub loaded_uris: NamedMap<bool>,
    /// URIs being fetched.
    pub pending_uris: NamedMap<bool>,
    /// Upper limit for concurrent fetches.
    pub max_concurrent: usize,
}

/// The models of an uploaded content.
pub open spec fn models_at(m: Map<Seq<char>, GpuTileContent>, uri: Seq<char>) -> Seq<ModelUpload> {
    if m.contains_key(uri) {
        m[uri].models@
    } else {
        Seq::empty()
    }
}

/// The models of the first `n` contents, one after the other, each with the position of its
/// content.
pub open spec fn collected(
    m: Map<Seq<char>, GpuTileContent>,
    render_set: Seq<String>,
    n: nat,
) -> Seq<(usize, ModelUpload)>
    decreases n,
{
    if n == 0 {
        Seq::empty()
    } else {
        collected(m, render_set, (n - 1) as nat) + models_at(m, render_set[n - 1]@).map_values(
            |u: ModelUpload| ((n - 1) as usize, u),
        )
    }
}

/// The map without the first `n` names.
pub open spec fn without_names<V>(m: Map<Seq<char>, V>, names: Seq<String>, n: nat) -> Map<
    Seq<char>,
    V,
>
    decreases n,
{
    if n == 0 {
        m
    } else {
        without_names(m, names, (n - 1) as nat).remove(names[n - 1]@)
    }
}

impl Tiles3dGpuState {
    /// The loaded URIs are those with an uploaded content, and every content has a model.
    pub open spec fn wf(&self) -> bool {
        &&& self.loaded_uris@.dom() == self.gpu_tiles@.dom()
        &&& forall|uri: Seq<char>| #[trigger]
            self.gpu_tiles@.contains_key(uri) ==> self.gpu_tiles@[uri].models@.len() > 0
    }

    pub fn new() -> (s: Tiles3dGpuState)
        ensures
            s.wf(),
            s.gpu_tiles@ == Map::<Seq<char>, GpuTileContent>::empty(),
            s.loaded_uris@ == Map::<Seq<char>, bool>::empty(),
            s.pending_uris@ == Map::<Seq<char>, bool>::empty(),
            s.max_concurrent == 6,
    {
        let s = Tiles3dGpuState {
            gpu_tiles: NamedMap::new(),
            loaded_uris: NamedMap::new(),
            pending_uris: NamedMap::new(),
            max_concurrent: 6,
        };
        assert(s.loaded_uris@.dom() =~= s.gpu_tiles@.dom());
        s
    }

    /// Plan the upload of a decoded content, and take note of it. Meshes without vertices or
    /// triangles are left out; a content without any other mesh is not taken.
    pub fn upload_decoded_tile(&mut self, content_uri: &str, meshes: &[DecodedMesh]) -> (r: Vec<
        ModelUpload,
    >)
        requires
            old(self).wf(),
        ensures
            final(self).wf(),
            r@ == uploads(meshes@),
            r@.len() == 0 ==> *final(self) == *old(self),
            r@.len() > 0 ==> ({
                &&& final(self).gpu_tiles@.contains_key(content_uri@)
                &&& final(self).gpu_tiles@[content_uri@].models@ == r@
                &&& final(self).gpu_tiles@.remove(content_uri@) == old(self).gpu_tiles@.remove(
                    content_uri@,
                )
                &&& final(self).loaded_uris@ == old(self).loaded_uris@.insert(content_uri@, true)
                &&& final(self).pending_uris == old(self).pending_uris
                &&& final(self).max_concurrent == old(self).max_concurrent
            }),
    {
        let ghost rule = upload_at(meshes@);
        let mut models: Vec<ModelUpload> = Vec::new();
        let mut r: Vec<ModelUpload> = Vec::new();
        let mut i: usize = 0;
        while i < meshes.len()
            invariant
                i <= meshes@.len(),
                rule == upload_at(meshes@),
                r@ == gather(i as nat, rule),
                models@ == r@,
            decreases meshes@.len() - i,
        {
            let m = meshes[i];
            if m.positions > 0 && m.indices > 0 {
                let upload = ModelUpload {
                    mesh: i,
                    vertices: m.positions,
                    own_normals: if m.normals < m.positions {
                        m.normals
                    } else {
                        m.positions
                    },
                    own_tex_coords: if m.tex_coords < m.positions {
                        m.tex_coords
                    } else {
                        m.positions
                    },
                    indices: m.indices,
                    textured: match m.texture {
                        Some(t) => has_all_pixels(&t),
                        None => false,
                    },
                    rtc_center: m.rtc_center,
                };
                r.push(upload);
                models.push(upload);
            }
            assert(r@ =~= gather((i + 1) as nat, rule));
            i = i + 1;
        }
        if r.len() > 0 {
            self.gpu_tiles.insert(content_uri.to_owned(), GpuTileContent { models });
            self.loaded_uris.insert(content_uri.to_owned(), true);
            proof {
                assert(self.gpu_tiles@.remove(content_uri@) =~= old(self).gpu_tiles@.remove(
                    content_uri@,
                ));
                assert(self.loaded_uris@.dom() =~= self.gpu_tiles@.dom());
            }
        }
        r
    }

    /// The models of the contents in the render set, in order, each with the position of its
    /// content.
    pub fn collect_render_models(&self, render_set: &[String]) -> (r: Vec<(usize, ModelUpload)>)
        ensures
            r@ == collected(self.gpu_tiles@, render_set@, render_set@.len()),
    {
        let ghost all = self.gpu_tiles@;
        let mut r: Vec<(usize, ModelUpload)> = Vec::new();
        let mut i: usize = 0;
        while i < render_set.len()
            invariant
                i <= render_set@.len(),
                all == self.gpu_tiles@,
                r@ == collected(all, render_set@, i as nat),
            decreases render_set@.len() - i,
        {
            let ghost before = r@;
            let ghost here = models_at(all, render_set@[i as int]@);
            let ghost tagged = here.map_values(|u: ModelUpload| (i, u));
            match self.gpu_tiles.get(&render_set[i]) {
                Some(content) => {
                    let mut k: usize = 0;
                    while k < content.models.len()
                        invariant
                            k <= content.models@.len(),
                            here == content.models@,
                            tagged == here.map_values(|u: ModelUpload| (i, u)),
                            r@ == before + tagged.take(k as int),
                        decreases content.models@.len() - k,
                    {
                        r.push((i, content.models[k]));
                        assert(r@ =~= before + tagged.take(k + 1));
                        k = k + 1;
                    }
                    assert(r@ =~= before + tagged);
                },
                None => {
                    assert(r@ =~= before + tagged);
                },
            }
            i = i + 1;
        }
        r
    }

    /// Forget contents that are no longer needed.
    pub fn unload_tiles(&mut self, uris: &[String])
        requires
            old(self).wf(),
        ensures
            final(self).wf(),
            final(self).gpu_tiles@ == without_names(old(self).gpu_tiles@, uris@, uris@.len()),
            final(self).loaded_uris@ == without_names(old(self).loaded_uris@, uris@, uris@.len()),
            final(self).pending_uris == old(self).pending_uris,
            final(self).max_concurrent == old(self).max_concurrent,
    {
        let mut i: usize = 0;
        while i < uris.len()
            invariant
                i <= uris@.len(),
                self.wf(),
                self.gpu_tiles@ == without_names(old(self).gpu_tiles@, uris@, i as nat),
                self.loaded_uris@ == without_names(old(self).loaded_uris@, uris@, i as nat),
                self.pending_uris == old(self).pending_uris,
                self.max_concurrent == old(self).max_concurrent,
            decreases uris@.len() - i,
        {
            self.gpu_tiles.remove(&uris[i]);
            self.loaded_uris.remove(&uris[i]);
            assert(self.loaded_uris@.dom() =~= self.gpu_tiles@.dom());
            i = i + 1;
        }
    }
}

impl Default for Tiles3dGpuState {
    fn default() -> (s: Tiles3dGpuState)
        ensures
            s.wf(),
            s.gpu_tiles@ == Map::<Seq<char>, GpuTileContent>::empty(),
            s.loaded_uris@ == Map::<Seq<char>, bool>::empty(),
            s.pending_uris@ == Map::<Seq<char>, bool>::empty(),
            s.max_concurrent == 6,
    {
        Tiles3dGpuState::new()
    }
}

/// Unloading takes exactly the named contents.
pub proof fn law_unload<V>(m: Map<Seq<char>, V>, names: Seq<String>, n: nat, uri: Seq<char>)
    requires
        n <= names.len(),
    ensures
        without_names(m, names, n).contains_key(uri) == (m.contains_key(uri) && forall|i: int|
            0 <= i < n ==> (#[trigger] names[i])@ != uri),
        without_names(m, names, n).contains_key(uri) ==> without_names(m, names, n)[uri]
            == m[uri],
    decreases n,
{
    if n > 0 {
        let before = without_names(m, names, (n - 1) as nat);
        law_unload(m, names, (n - 1) as nat, uri);
        if before.contains_key(uri) && names[n - 1]@ != uri {
            assert forall|i: int| 0 <= i < n implies (#[trigger] names[i])@ != uri by {
                if i == n - 1 {
                    assert(names[n - 1]@ != uri);
                }
            }
        }
        if names[n - 1]@ == uri {
            assert(!(names[n - 1]@ != uri));
        }
    }
}

/// Uploaded meshes all have vertices and triangles, keep their order, and use a texture only
/// where all of it is there.
pub proof fn law_uploads(meshes: Seq<DecodedMesh>, k: int)
    requires
        0 <= k < uploads(meshes).len(),
        meshes.len() <= usize::MAX,
    ensures
        ({
            let u = uploads(meshes)[k];
            &&& u.mesh < meshes.len()
            &&& u.vertices > 0 && u.vertices == meshes[u.mesh as int].positions
            &&& u.indices > 0 && u.indices == meshes[u.mesh as int].indices
            &&& u.own_normals <= u.vertices
            &&& u.own_tex_coords <= u.vertices
            &&& u.textured ==> meshes[u.mesh as int].texture is Some
            &&& k > 0 ==> uploads(meshes)[k - 1].mesh < u.mesh
        }),
{
    let rule = upload_at(meshes);
    let src = lemma_gather_sources(meshes.len(), rule);
    assert(rule(src[k]) == Some(uploads(meshes)[k]));
    if k > 0 {
        assert(rule(src[k - 1]) == Some(uploads(meshes)[k - 1]));
        assert(src[k - 1] < src[k]);
    }
}

/// A mesh with vertices and indices is uploaded: with as many of its own normals and texture
/// coordinates as it has vertices for, with its texture if that has a size and four bytes for
/// every pixel, and with its center.
pub proof fn law_upload_of_mesh(meshes: Seq<DecodedMesh>, i: int)
    requires
        0 <= i < meshes.len() <= usize::MAX,
    ensures
        ({
            let m = meshes[i];
            let up = upload_at(meshes)(i);
            &&& up is Some <==> m.positions > 0 && m.indices > 0
            &&& up matches Some(u) ==> {
                &&& uploads(meshes).contains(u)
                &&& u.mesh == i
                &&& u.vertices == m.positions
                &&& u.indices == m.indices
                &&& u.own_normals <= m.normals && u.own_normals <= m.positions
                &&& u.own_normals == m.normals || u.own_normals == m.positions
                &&& u.own_tex_coords <= m.tex_coords && u.own_tex_coords <= m.positions
                &&& u.own_tex_coords == m.tex_coords || u.own_tex_coords == m.positions
                &&& m.texture is None ==> !u.textured
                &&& m.texture matches Some(t) ==> (u.textured <==> t.width > 0 && t.height > 0
                    && t.len == t.width * t.height * 4)
                &&& u.rtc_center == m.rtc_center
            }
        }),
{
    let rule = upload_at(meshes);
    match rule(i) {
        Some(u) => {
            crate::sequences::lemma_gather_contains(meshes.len(), rule, u);
        },
        None => {},
    }
}

/// The models to draw are those of the contents that are uploaded, each with the position of
/// its content in the list.
pub proof fn law_collected(
    m: Map<Seq<char>, GpuTileContent>,
    render_set: Seq<String>,
    n: nat,
    i: usize,
    u: ModelUpload,
)
    requires
        n <= render_set.len() <= usize::MAX,
    ensures
        collected(m, render_set, n).contains((i, u)) <==> i < n && m.contains_key(
            render_set[i as int]@,
        ) && m[render_set[i as int]@].models@.contains(u),
    decreases n,
{
    if n > 0 {
        let k = (n - 1) as nat;
        law_collected(m, render_set, k, i, u);
        let before = collected(m, render_set, k);
        let own = models_at(m, render_set[k as int]@);
        let added = own.map_values(|u: ModelUpload| (k as usize, u));
        assert(collected(m, render_set, n) == before + added);
        if (before + added).contains((i, u)) {
            let at = choose|at: int|
                0 <= at < (before + added).len() && (before + added)[at] == (i, u);
            if at < before.len() {
                assert(before[at] == (i, u));
            } else {
                assert(added[at - before.len()] == (i, u));
                assert(own[at - before.len()] == u);
            }
        }
        if before.contains((i, u)) {
            let at = choose|at: int| 0 <= at < before.len() && before[at] == (i, u);
            assert((before + added)[at] == (i, u));
        }
        if i == k && own.contains(u) {
            let at = choose|at: int| 0 <= at < own.len() && own[at] == u;
            assert((before + added)[before.len() + at] == (i, u));
        }
    }
}

/// The models of a content that comes first are drawn first.
pub proof fn law_collected_order(
    m: Map<Seq<char>, GpuTileContent>,
    render_set: Seq<String>,
    n: nat,
    a: int,
    b: int,
)
    requires
        n <= render_set.len() <= usize::MAX,
        0 <= a <= b < collected(m, render_set, n).len(),
    ensures
        collected(m, render_set, n)[a].0 <= collected(m, render_set, n)[b].0 < n,
    decreases n,
{
    if n > 0 {
        let k = (n - 1) as nat;
        let before = collected(m, render_set, k);
        if b < before.len() {
            law_collected_order(m, render_set, k, a, b);
        } else if a < before.len() {
            law_collected_order(m, render_set, k, a, a);
        }
    }
}

} // verus!
