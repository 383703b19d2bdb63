//! Step-by-step verification chain: each stage is checked on its own, in order of dependency,
//! and the chain stops at the first failure.
//!
//! Steps that need real arithmetic are the platform's; those on tile addresses, meshes and load
//! requests are here, and are proved to pass.

use crate::collections::TileSet;
use crate::pipeline::tile_mesh::{build_tile_mesh, quad_vertices};
use crate::pipeline::visible_tiles::{
    compute_load_requests, distance_keys, law_load_requests, load_request, missing, LoadRequest,
};
use crate::ordering::law_stably_ordered;
use crate::render::tile::quad_vertex;
use crate::scalar::{Real32, Real64};
use crate::sequences::gather;
use crate::tile::{children_of, law_children, parent_of, TileCoord};
use vstd::prelude::*;

verus! {

/// Result of a single step.
pub struct StepResult {
    pub passed: bool,
    pub details: String,
    /// Measured values by name, each name once.
    pub metrics: Vec<(String, Real64)>,
}

/// The value measured under `key`.
pub open spec fn metric_of(metrics: Seq<(String, Real64)>, key: Seq<char>) -> Option<Real64>
    decreases metrics.len(),
{
    if metrics.len() == 0 {
        None
    } else if metrics.last().0@ == key {
        Some(metrics.last().1)
    } else {
        metric_of(metrics.drop_last(), key)
    }
}

/// Every name is there once.
pub open spec fn distinct_metrics(metrics: Seq<(String, Real64)>) -> bool {
    forall|i: int, j: int|
        0 <= i < j < metrics.len() ==> (#[trigger] metrics[i]).0@ != (#[trigger] metrics[j]).0@
}

impl StepResult {
    pub fn pass() -> (r: StepResult)
        ensures
            r.passed,
            r.details@ == Seq::<char>::empty(),
            r.metrics@.len() == 0,
    {
        StepResult { passed: true, details: String::new(), metrics: Vec::new() }
    }

    pub fn pass_with(details: &str) -> (r: StepResult)
        ensures
            r.passed,
            r.details@ == details@,
            r.metrics@.len() == 0,
    {
        StepResult { passed: true, details: details.to_owned(), metrics: Vec::new() }
    }

    pub fn fail(details: &str) -> (r: StepResult)
        ensures
            !r.passed,
            r.details@ == details@,
            r.metrics@.len() == 0,
    {
        StepResult { passed: false, details: details.to_owned(), metrics: Vec::new() }
    }

    /// The result with a measured value; an earlier one of that name is replaced.
    pub fn with_metric(self, key: &str, value: Real64) -> (r: StepResult)
        requires
            distinct_metrics(self.metrics@),
        ensures
            r.passed == self.passed,
            r.details == self.details,
            distinct_metrics(r.metrics@),
            forall|k: Seq<char>| #[trigger]
                metric_of(r.metrics@, k) == (if k == key@ {
                    Some(value)
                } else {
                    metric_of(self.metrics@, k)
                }),
    {
        let StepResult { passed, details, mut metrics } = self;
        let name: String = key.to_owned();
        let ghost before = metrics@;
        let mut i: usize = 0;
        while i < metrics.len()
            invariant
                i <= metrics@.len(),
                before == metrics@,
                before == self.metrics@,
                passed == self.passed,
                details == self.details,
                distinct_metrics(before),
                name@ == key@,
                forall|j: int| 0 <= j < i ==> (#[trigger] before[j]).0@ != key@,
            decreases metrics@.len() - i,
        {
            if metrics[i].0 == name {
                metrics.set(i, (name, value));
                proof {
                    lemma_metric_set(before, i as int, (name, value));
                }
                return StepResult { passed, details, metrics };
            }
            i = i + 1;
        }
        metrics.push((name, value));
        assert(metrics@.drop_last() =~= before);
        StepResult { passed, details, metrics }
    }

    /// The value measured under `key`.
    pub fn metric(&self, key: &str) -> (v: Option<Real64>)
        ensures
            v == metric_of(self.metrics@, key@),
    {
        let name: String = key.to_owned();
        let ghost all = self.metrics@;
        let mut n: usize = self.metrics.len();
        assert(all.take(n as int) =~= all);
        while n > 0
            invariant
                n <= self.metrics@.len(),
                all == self.metrics@,
                name@ == key@,
                metric_of(all, key@) == metric_of(all.take(n as int), key@),
            decreases n,
        {
            let i: usize = n - 1;
            assert(all.take(n as int).drop_last() =~= all.take(i as int));
            if self.metrics[i].0 == name {
                return Some(self.metrics[i].1);
            }
            n = i;
        }
        None
    }
}

proof fn lemma_metric_set(metrics: Seq<(String, Real64)>, i: int, entry: (String, Real64))
    requires
        0 <= i < metrics.len(),
        distinct_metrics(metrics),
        metrics[i].0@ == entry.0@,
    ensures
        distinct_metrics(metrics.update(i, entry)),
        forall|k: Seq<char>| #[trigger]
            metric_of(metrics.update(i, entry), k) == (if k == entry.0@ {
                Some(entry.1)
            } else {
                metric_of(metrics, k)
            }),
    decreases metrics.len(),
{
    let after = metrics.update(i, entry);
    assert forall|k: Seq<char>| #[trigger]
        metric_of(after, k) == (if k == entry.0@ {
            Some(entry.1)
        } else {
            metric_of(metrics, k)
        }) by {
        if i == metrics.len() - 1 {
            assert(after.drop_last() =~= metrics.drop_last());
        } else {
            assert(after.drop_last() =~= metrics.drop_last().update(i, entry));
            lemma_metric_set(metrics.drop_last(), i, entry);
            assert(metric_of(metrics.drop_last().update(i, entry), k) == (if k == entry.0@ {
                Some(entry.1)
            } else {
                metric_of(metrics.drop_last(), k)
            }));
        }
    }
}

/// Result of running the full chain.
#[derive(Debug)]
pub enum ChainResult {
    AllPassed { steps: usize },
    Failed { step: usize, name: String },
}

impl ChainResult {
    pub fn is_ok(&self) -> (b: bool)
        ensures
            b == (self is AllPassed),
    {
        match self {
            ChainResult::AllPassed { .. } => true,
            ChainResult::Failed { .. } => false,
        }
    }
}

/// Position of the first step that did not pass.
pub open spec fn first_failure(passed: Seq<bool>) -> Option<int>
    decreases passed.len(),
{
    if passed.len() == 0 {
        None
    } else if !passed[0] {
        Some(0)
    } else {
        match first_failure(passed.drop_first()) {
            Some(i) => Some(i + 1),
            None => None,
        }
    }
}

/// What a chain of steps with these names and outcomes results in: the first failure, or
/// success.
pub open spec fn concludes(names: Seq<String>, passed: Seq<bool>, r: ChainResult) -> bool {
    match first_failure(passed) {
        Some(i) => r matches ChainResult::Failed { step, name } && step == i && name@
            == names[i]@,
        None => r matches ChainResult::AllPassed { steps } && steps == names.len(),
    }
}

/// What a chain results in whose steps had the given outcomes, as far as they were run.
pub fn conclude(names: &[String], passed: &[bool]) -> (r: ChainResult)
    requires
        passed@.len() <= names@.len(),
    ensures
        concludes(names@, passed@, r),
{
    let mut i: usize = 0;
    assert(passed@.skip(0) =~= passed@);
    while i < passed.len()
        invariant
            i <= passed@.len() <= names@.len(),
            first_failure(passed@) == (match first_failure(passed@.skip(i as int)) {
                Some(k) => Some(k + i),
                None => None::<int>,
            }),
        decreases passed@.len() - i,
    {
        assert(passed@.skip(i as int)[0] == passed@[i as int]);
        assert(passed@.skip(i as int).drop_first() =~= passed@.skip(i + 1));
        if !passed[i] {
            return ChainResult::Failed { step: i, name: names[i].clone() };
        }
        i = i + 1;
    }
    ChainResult::AllPassed { steps: names.len() }
}

/// A chain of steps that run one after the other.
pub struct VerifyChain<F: Fn() -> StepResult> {
    pub names: Vec<String>,
    pub steps: Vec<F>,
}

/// The step can pass, or not.
pub open spec fn may_yield<F: Fn() -> StepResult>(step: F, passed: bool) -> bool {
    exists|r: StepResult| #[trigger] call_ensures(step, (), r) && r.passed == passed
}

/// The first `passed.len()` steps can have had these outcomes.
pub open spec fn can_yield<F: Fn() -> StepResult>(steps: Seq<F>, passed: Seq<bool>) -> bool {
    &&& passed.len() <= steps.len()
    &&& forall|i: int|
        0 <= i < passed.len() ==> may_yield(#[trigger] steps[i], passed[i])
}

/// Every step before step `i` can pass, so that step `i` can come to be run.
pub open spec fn is_reachable<F: Fn() -> StepResult>(steps: Seq<F>, i: int) -> bool {
    forall|k: int| 0 <= k < i ==> may_yield(#[trigger] steps[k], true)
}

/// Every step that can come to be run may be run. Nothing is asked of a step behind one that
/// always fails.
pub open spec fn runnable<F: Fn() -> StepResult>(steps: Seq<F>) -> bool {
    forall|i: int|
        0 <= i < steps.len() && is_reachable(steps, i) ==> call_requires(#[trigger] steps[i], ())
}

impl<F: Fn() -> StepResult> VerifyChain<F> {
    /// Every step has a name.
    pub open spec fn wf(&self) -> bool {
        self.names@.len() == self.steps@.len()
    }

    pub fn new() -> (c: VerifyChain<F>)
        ensures
            c.wf(),
            c.names@.len() == 0,
    {
        VerifyChain { names: Vec::new(), steps: Vec::new() }
    }

    /// Add a step.
    pub fn add(&mut self, name: &str, f: F)
        requires
            old(self).wf(),
        ensures
            final(self).wf(),
            final(self).steps@ == old(self).steps@.push(f),
            final(self).names@.len() == old(self).names@.len() + 1,
            final(self).names@.drop_last() == old(self).names@,
            final(self).names@.last()@ == name@,
    {
        self.names.push(name.to_owned());
        self.steps.push(f);
        assert(self.names@.drop_last() =~= old(self).names@);
    }

    /// Run the steps in order, up to the first one that fails. The steps that ran have some
    /// outcomes that they can have; all but the last of those passed, and the result is what
    /// they amount to. Without a failure all steps ran.
    pub fn run(&self) -> (r: ChainResult)
        requires
            self.wf(),
            runnable(self.steps@),
        ensures
            exists|passed: Seq<bool>|
                #![trigger can_yield(self.steps@, passed)]
                {
                    &&& can_yield(self.steps@, passed)
                    &&& concludes(self.names@, passed, r)
                    &&& r is AllPassed ==> passed.len() == self.steps@.len()
                    &&& r matches ChainResult::Failed { step, .. } ==> passed.len() == step + 1
                },
    {
        let mut passed: Vec<bool> = Vec::new();
        let mut i: usize = 0;
        while i < self.steps.len()
            invariant
                i <= self.steps@.len(),
                self.wf(),
                runnable(self.steps@),
                passed@.len() == i,
                can_yield(self.steps@, passed@),
                forall|k: int| 0 <= k < i ==> #[trigger] passed@[k],
            decreases self.steps@.len() - i,
        {
            assert forall|k: int| 0 <= k < i implies may_yield(#[trigger] self.steps@[k], true) by {
                assert(passed@[k]);
            }
            assert(is_reachable(self.steps@, i as int));
            let f = &self.steps[i];
            let ghost before = passed@;
            let result = f();
            passed.push(result.passed);
            assert(may_yield(self.steps@[i as int], result.passed));
            assert forall|k: int| 0 <= k < passed@.len() implies may_yield(
                #[trigger] self.steps@[k],
                passed@[k],
            ) by {
                if k < i {
                    assert(before[k] == passed@[k]);
                }
            }
            if !result.passed {
                let r = conclude(self.names.as_slice(), passed.as_slice());
                proof {
                    lemma_last_fails(passed@);
                    assert(can_yield(self.steps@, passed@));
                }
                return r;
            }
            i = i + 1;
        }
        proof {
            lemma_no_failure(passed@);
            assert(can_yield(self.steps@, passed@));
        }
        conclude(self.names.as_slice(), passed.as_slice())
    }
}

proof fn lemma_no_failure(passed: Seq<bool>)
    requires
        forall|k: int| 0 <= k < passed.len() ==> #[trigger] passed[k],
    ensures
        first_failure(passed) is None,
    decreases passed.len(),
{
    if passed.len() > 0 {
        assert forall|k: int| 0 <= k < passed.drop_first().len() implies #[trigger] passed.drop_first()[k] by {
            assert(passed[k + 1]);
        }
        lemma_no_failure(passed.drop_first());
    }
}

proof fn lemma_last_fails(passed: Seq<bool>)
    requires
        passed.len() > 0,
        !passed.last(),
        forall|k: int| 0 <= k < passed.len() - 1 ==> #[trigger] passed[k],
    ensures
        first_failure(passed) == Some(passed.len() - 1),
    decreases passed.len(),
{
    if passed.len() > 1 {
        let rest = passed.drop_first();
        assert forall|k: int| 0 <= k < rest.len() - 1 implies #[trigger] rest[k] by {
            assert(passed[k + 1]);
        }
        assert(passed[0]);
        lemma_last_fails(rest);
    }
}

/// A step that always fails ends the chain: the steps behind it are never reached, whatever
/// they are.
pub proof fn law_unreached<F: Fn() -> StepResult>(
    steps: Seq<F>,
    names: Seq<String>,
    passed: Seq<bool>,
    r: ChainResult,
    i: int,
)
    requires
        0 <= i < steps.len(),
        !may_yield(steps[i], true),
        can_yield(steps, passed),
        concludes(names, passed, r),
        r is AllPassed ==> passed.len() == steps.len(),
        r matches ChainResult::Failed { step, .. } ==> passed.len() == step + 1,
    ensures
        r matches ChainResult::Failed { step, .. } && step <= i,
        passed.len() <= i + 1,
        forall|j: int| i < j < steps.len() ==> !#[trigger] is_reachable(steps, j),
{
    law_first_failure(passed);
    if i < passed.len() {
        assert(may_yield(steps[i], passed[i]));
    }
    match first_failure(passed) {
        Some(k) => {
            if k > i {
                assert(passed[i]);
            }
        },
        None => {
            assert(passed[i]);
        },
    }
}

/// The reported step is the first one that failed: all steps before it passed. Success means
/// that every step passed.
pub proof fn law_first_failure(passed: Seq<bool>)
    ensures
        match first_failure(passed) {
            Some(i) => 0 <= i < passed.len() && !passed[i] && forall|k: int|
                0 <= k < i ==> #[trigger] passed[k],
            None => forall|k: int| 0 <= k < passed.len() ==> #[trigger] passed[k],
        },
    decreases passed.len(),
{
    if passed.len() > 0 && passed[0] {
        let rest = passed.drop_first();
        law_first_failure(rest);
        match first_failure(rest) {
            Some(i) => {
                assert forall|k: int| 0 <= k < i + 1 implies #[trigger] passed[k] by {
                    if k > 0 {
                        assert(rest[k - 1]);
                    }
                }
                assert(passed[i + 1] == rest[i]);
            },
            None => {
                assert forall|k: int| 0 <= k < passed.len() implies #[trigger] passed[k] by {
                    if k > 0 {
                        assert(rest[k - 1]);
                    }
                }
            },
        }
    }
}

// ---------------------------------------------------------------------------
// The standard chain: from math primitives up to tile geometry
// ---------------------------------------------------------------------------
/// Number of steps of the standard chain.
pub const PHASE1_STEPS: usize = 9;

/// Number of its steps that need real arithmetic and are the platform's.
pub const PHASE1_HOST_STEPS: usize = 5;

/// Names of the steps, in order of dependency.
pub open spec fn phase1_label(i: int) -> Seq<char> {
    if i == 0 {
        "GeoCoord normalize clamps correctly"@
    } else if i == 1 {
        "Mercator roundtrip (6 world cities)"@
    } else if i == 2 {
        "TileCoord::from_geo containment (19 zoom levels)"@
    } else if i == 3 {
        "TileCoord parent/child consistency"@
    } else if i == 4 {
        "Mercator projection known values"@
    } else if i == 5 {
        "Mercator roundtrip 1000 points (< 1e-8 error)"@
    } else if i == 6 {
        "build_tile_mesh: zoom 0 RTE centered at origin"@
    } else if i == 7 {
        "build_tile_mesh: zoom 1 tiles all same RTE size"@
    } else {
        "compute_load_requests: excludes cached tiles"@
    }
}

/// Name of step `i`.
pub fn phase1_name(i: usize) -> (s: String)
    requires
        i < PHASE1_STEPS,
    ensures
        s@ == phase1_label(i as int),
{
    if i == 0 {
        "GeoCoord normalize clamps correctly".to_owned()
    } else if i == 1 {
        "Mercator roundtrip (6 world cities)".to_owned()
    } else if i == 2 {
        "TileCoord::from_geo containment (19 zoom levels)".to_owned()
    } else if i == 3 {
        "TileCoord parent/child consistency".to_owned()
    } else if i == 4 {
        "Mercator projection known values".to_owned()
    } else if i == 5 {
        "Mercator roundtrip 1000 points (< 1e-8 error)".to_owned()
    } else if i == 6 {
        "build_tile_mesh: zoom 0 RTE centered at origin".to_owned()
    } else if i == 7 {
        "build_tile_mesh: zoom 1 tiles all same RTE size".to_owned()
    } else {
        "compute_load_requests: excludes cached tiles".to_owned()
    }
}

/// Where the platform's step `k` stands in the chain.
pub open spec fn host_position(k: int) -> int {
    if k < 3 {
        k
    } else {
        k + 1
    }
}

/// Whether `t` is among the children of its parent.
fn is_child(t: &TileCoord) -> (b: bool)
    requires
        t.z > 0,
    ensures
        b == children_of(parent_of(*t)).contains(*t),
{
    let parent = TileCoord { z: t.z - 1, x: t.x / 2, y: t.y / 2 };
    let children = parent.children();
    assert(parent == parent_of(*t));
    let mut i: usize = 0;
    while i < children.len()
        invariant
            i <= children@.len(),
            children@ == children_of(parent_of(*t)),
            forall|j: int| 0 <= j < i ==> #[trigger] children@[j] != *t,
        decreases children@.len() - i,
    {
        if children[i] == *t {
            return true;
        }
        i = i + 1;
    }
    assert(!children@.contains(*t));
    false
}

/// Sampled tiles of the levels 1 to 10 are children of their parents.
pub fn check_parent_child() -> (r: StepResult)
    ensures
        r.passed,
        r.details@ == "0 parent/child mismatches"@,
        metric_of(r.metrics@, "failures"@) == Some(Real64::zero()),
{
    let mut z: u8 = 1;
    let mut consistent: bool = true;
    while z <= 10
        invariant
            1 <= z <= 11,
            consistent,
        decreases 11 - z,
    {
        let n: u32 = crate::tile::level_extent(z);
        let stride: u32 = if n / 4 > 1 {
            n / 4
        } else {
            1
        };
        let mut x: u32 = 0;
        while x < n
            invariant
                1 <= z <= 10,
                1 <= stride,
                x <= n,
                consistent,
            decreases n - x,
        {
            let mut y: u32 = 0;
            while y < n
                invariant
                    1 <= z <= 10,
                    1 <= stride,
                    y <= n,
                    consistent,
                decreases n - y,
            {
                proof {
                    law_children(TileCoord { z, x, y }, 0);
                }
                if !is_child(&TileCoord { z, x, y }) {
                    consistent = false;
                }
                if n - y <= stride {
                    y = n;
                } else {
                    y = y + stride;
                }
            }
            if n - x <= stride {
                x = n;
            } else {
                x = x + stride;
            }
        }
        z = z + 1;
    }
    if !consistent {
        return StepResult::fail("parent/child mismatches");
    }
    StepResult::pass_with("0 parent/child mismatches").with_metric("failures", Real64::zero())
}

/// The quad of the world tile reaches half the world from its center on every side: one part in
/// two of an extent of one.
pub fn check_mesh_centered() -> (r: StepResult)
    ensures
        r.passed,
        r.details@ == Seq::<char>::empty(),
        r.metrics@.len() == 0,
{
    let mut tiles: Vec<TileCoord> = Vec::new();
    tiles.push(TileCoord { z: 0, x: 0, y: 0 });
    let (vertices, indices) = build_tile_mesh(tiles.as_slice());
    if vertices.len() != 4 {
        return StepResult::fail("expected 4 verts");
    }
    if indices.len() != 6 {
        return StepResult::fail("expected 6 indices");
    }
    proof {
        vstd::arithmetic::power2::lemma2_to64();
        assert(vertices@[0] == quad_vertex(tiles@[0], 0));
        assert(vertices@[3] == quad_vertex(tiles@[0], 3));
    }
    let first = vertices[0];
    let last = vertices[3];
    if first.extent != 1 || last.extent != 1 || first.dx != -1 || first.dy != -1 || last.dx != 1
        || last.dy != 1 {
        return StepResult::fail("expected (-0.5,-0.5) to (0.5,0.5)");
    }
    StepResult::pass()
}

/// The quads of the four tiles of level 1 all reach a quarter of the world from their centers.
pub fn check_mesh_sizes() -> (r: StepResult)
    ensures
        r.passed,
        r.details@ == "16 vertices, 4 tiles"@,
        r.metrics@.len() == 0,
{
    let mut tiles: Vec<TileCoord> = Vec::new();
    tiles.push(TileCoord { z: 1, x: 0, y: 0 });
    tiles.push(TileCoord { z: 1, x: 1, y: 0 });
    tiles.push(TileCoord { z: 1, x: 0, y: 1 });
    tiles.push(TileCoord { z: 1, x: 1, y: 1 });
    let (vertices, _) = build_tile_mesh(tiles.as_slice());
    proof {
        vstd::arithmetic::power2::lemma2_to64();
    }
    let mut i: usize = 0;
    while i < vertices.len()
        invariant
            i <= vertices@.len(),
            vertices@.len() == 16,
            tiles@.len() == 4,
            forall|k: int| 0 <= k < 4 ==> (#[trigger] tiles@[k]).z == 1,
            vertices@ == quad_vertices(tiles@),
            vstd::arithmetic::power2::pow2(1) == 2,
        decreases vertices@.len() - i,
    {
        let v = vertices[i];
        assert(v == quad_vertex(tiles@[i as int / 4], i as int % 4));
        let wide: i32 = if i % 2 == 0 {
            -1
        } else {
            1
        };
        if v.extent != 2 || v.dx != wide {
            return StepResult::fail("expected -0.25 to 0.25");
        }
        i = i + 1;
    }
    StepResult::pass_with("16 vertices, 4 tiles")
}

/// A cached tile is not requested, the others are.
pub fn check_load_requests() -> (r: StepResult)
    ensures
        r.passed,
        r.details@ == Seq::<char>::empty(),
        r.metrics@.len() == 0,
{
    let a = TileCoord { z: 3, x: 0, y: 0 };
    let b = TileCoord { z: 3, x: 1, y: 0 };
    let c = TileCoord { z: 3, x: 2, y: 0 };
    let mut visible: Vec<TileCoord> = Vec::new();
    visible.push(a);
    visible.push(b);
    visible.push(c);
    let mut distances: Vec<Real32> = Vec::new();
    distances.push(Real32::zero());
    distances.push(Real32::zero());
    distances.push(Real32::zero());
    let mut cached = TileSet::new();
    cached.insert(b);
    let requests = compute_load_requests(visible.as_slice(), &cached, distances.as_slice());
    proof {
        let rule = load_request(visible@, distances@, cached@);
        let all = missing(visible@, distances@, cached@);
        law_load_requests(visible@, distances@, cached@, requests@);
        assert(rule(0) is Some && rule(1) is None && rule(2) is Some);
        reveal_with_fuel(gather, 4);
        assert(all.len() == 2);
        law_stably_ordered(all, distance_keys(all), requests@);
    }
    if requests.len() != 2 {
        return StepResult::fail("expected 2 requests");
    }
    let mut i: usize = 0;
    while i < requests.len()
        invariant
            i <= requests@.len(),
            forall|q: LoadRequest| #[trigger] requests@.contains(q) ==> q.coord != b,
        decreases requests@.len() - i,
    {
        assert(requests@.contains(requests@[i as int]));
        if requests[i].coord == b {
            return StepResult::fail("cached tile should not be in requests");
        }
        i = i + 1;
    }
    StepResult::pass()
}

/// The standard chain: the platform's steps between the library's own.
pub struct Phase1Chain<F: Fn() -> StepResult> {
    /// The platform's steps, in order.
    pub host: Vec<F>,
}

/// The standard chain with the platform's steps: normalizing coordinates, the Mercator roundtrip
/// of six cities, tiles containing their coordinates, known projected values, and the roundtrip
/// of a thousand points.
pub fn phase1_chain<F: Fn() -> StepResult>(host: Vec<F>) -> (c: Phase1Chain<F>)
    ensures
        c.host == host,
{
    Phase1Chain { host }
}

/// What the standard chain results in when the platform's steps have these outcomes: it fails
/// with the first of them that does, for its own steps never fail.
pub open spec fn phase1_concludes(passed: Seq<bool>, r: ChainResult) -> bool {
    match first_failure(passed) {
        Some(k) => r matches ChainResult::Failed { step, name } && step == host_position(k) && name@
            == phase1_label(step as int),
        None => r matches ChainResult::AllPassed { steps } && steps == PHASE1_STEPS,
    }
}

impl<F: Fn() -> StepResult> Phase1Chain<F> {
    /// Run the steps in order, up to the first one that fails.
    pub fn run(&self) -> (r: ChainResult)
        requires
            self.host@.len() == PHASE1_HOST_STEPS,
            runnable(self.host@),
        ensures
            exists|passed: Seq<bool>|
                #![trigger can_yield(self.host@, passed)]
                {
                    &&& can_yield(self.host@, passed)
                    &&& phase1_concludes(passed, r)
                    &&& r is AllPassed ==> passed.len() == PHASE1_HOST_STEPS
                    &&& r is Failed ==> first_failure(passed) == Some(passed.len() - 1)
                },
    {
        let mut passed: Vec<bool> = Vec::new();
        let mut i: usize = 0;
        while i < PHASE1_STEPS
            invariant
                i <= PHASE1_STEPS,
                self.host@.len() == PHASE1_HOST_STEPS,
                runnable(self.host@),
                can_yield(self.host@, passed@),
                forall|k: int| 0 <= k < passed@.len() ==> #[trigger] passed@[k],
                passed@.len() == (if i <= 3 {
                    i as int
                } else if i <= 6 {
                    i - 1
                } else {
                    5
                }),
            decreases PHASE1_STEPS - i,
        {
            let result: StepResult = if i == 3 {
                check_parent_child()
            } else if i == 6 {
                check_mesh_centered()
            } else if i == 7 {
                check_mesh_sizes()
            } else if i == 8 {
                check_load_requests()
            } else {
                let slot: usize = if i < 3 {
                    i
                } else {
                    i - 1
                };
                assert forall|k: int| 0 <= k < slot implies may_yield(
                    #[trigger] self.host@[k],
                    true,
                ) by {
                    assert(passed@[k]);
                }
                assert(is_reachable(self.host@, slot as int));
                let f = &self.host[slot];
                let ghost before = passed@;
                let outcome = f();
                passed.push(outcome.passed);
                assert(may_yield(self.host@[slot as int], outcome.passed));
                assert forall|k: int| 0 <= k < passed@.len() implies may_yield(
                    #[trigger] self.host@[k],
                    passed@[k],
                ) by {
                    if k < slot {
                        assert(before[k] == passed@[k]);
                    }
                }
                outcome
            };
            if !result.passed {
                proof {
                    lemma_last_fails(passed@);
                    assert(can_yield(self.host@, passed@));
                }
                return ChainResult::Failed { step: i, name: phase1_name(i) };
            }
            i = i + 1;
        }
        proof {
            lemma_no_failure(passed@);
            assert(can_yield(self.host@, passed@));
        }
        ChainResult::AllPassed { steps: PHASE1_STEPS }
    }
}

/// A value is found under the name that it was measured under, and under no other.
pub proof fn law_metric(metrics: Seq<(String, Real64)>, key: Seq<char>)
    requires
        distinct_metrics(metrics),
    ensures
        metric_of(metrics, key) is None <==> forall|i: int|
            0 <= i < metrics.len() ==> (#[trigger] metrics[i]).0@ != key,
        forall|i: int|
            0 <= i < metrics.len() && (#[trigger] metrics[i]).0@ == key ==> metric_of(metrics, key)
                == Some(metrics[i].1),
    decreases metrics.len(),
{
    if metrics.len() > 0 {
        let init = metrics.drop_last();
        assert forall|i: int, j: int| 0 <= i < j < init.len() implies (#[trigger] init[i]).0@ != (
        #[trigger] init[j]).0@ by {
            assert(init[i] == metrics[i] && init[j] == metrics[j]);
        }
        law_metric(init, key);
        assert forall|i: int|
            0 <= i < metrics.len() && (#[trigger] metrics[i]).0@ == key implies metric_of(
            metrics,
            key,
        ) == Some(metrics[i].1) by {
            if i < init.len() {
                assert(init[i] == metrics[i]);
                assert(metrics.last() == metrics[metrics.len() - 1]);
            }
        }
        if metrics.last().0@ == key {
            assert(metrics[metrics.len() - 1].0@ == key);
        } else {
            if forall|i: int| 0 <= i < metrics.len() ==> (#[trigger] metrics[i]).0@ != key {
                assert forall|i: int| 0 <= i < init.len() implies (#[trigger] init[i]).0@ != key by {
                    assert(init[i] == metrics[i]);
                }
            }
            if metric_of(init, key) is None {
                assert forall|i: int| 0 <= i < metrics.len() implies (#[trigger] metrics[i]).0@
                    != key by {
                    if i < init.len() {
                        assert(init[i] == metrics[i]);
                    }
                }
            }
        }
    }
}

/// A chain succeeds, counting its steps, exactly where no step failed; otherwise it tells the
/// first step that did, by position and by name.
pub proof fn law_concludes(names: Seq<String>, passed: Seq<bool>, r: ChainResult)
    requires
        concludes(names, passed, r),
    ensures
        r is AllPassed <==> forall|k: int| 0 <= k < passed.len() ==> #[trigger] passed[k],
        r matches ChainResult::AllPassed { steps } ==> steps == names.len(),
        r matches ChainResult::Failed { step, name } ==> {
            &&& step < passed.len()
            &&& !passed[step as int]
            &&& forall|k: int| 0 <= k < step ==> #[trigger] passed[k]
            &&& name@ == names[step as int]@
        },
{
    law_first_failure(passed);
}

/// The standard chain has nine steps. The platform's five stand, in order, at the first three
/// places and at the fifth and sixth.
pub proof fn law_phase1_places(passed: Seq<bool>, r: ChainResult)
    requires
        passed.len() <= 5,
        phase1_concludes(passed, r),
    ensures
        r matches ChainResult::AllPassed { steps } ==> steps == 9 && forall|k: int|
            0 <= k < passed.len() ==> #[trigger] passed[k],
        r matches ChainResult::Failed { step, .. } ==> step < 9 && step != 3 && step <= 5,
        r matches ChainResult::Failed { step, .. } ==> {
            let k = if step < 3 {
                step as int
            } else {
                step - 1
            };
            &&& k < passed.len()
            &&& !passed[k]
            &&& forall|j: int| 0 <= j < k ==> #[trigger] passed[j]
        },
{
    law_first_failure(passed);
}

/// What the steps of the standard chain are called.
pub proof fn law_phase1_names()
    ensures
        phase1_label(0) == "GeoCoord normalize clamps correctly"@,
        phase1_label(1) == "Mercator roundtrip (6 world cities)"@,
        phase1_label(2) == "TileCoord::from_geo containment (19 zoom levels)"@,
        phase1_label(3) == "TileCoord parent/child consistency"@,
        phase1_label(4) == "Mercator projection known values"@,
        phase1_label(5) == "Mercator roundtrip 1000 points (< 1e-8 error)"@,
        phase1_label(6) == "build_tile_mesh: zoom 0 RTE centered at origin"@,
        phase1_label(7) == "build_tile_mesh: zoom 1 tiles all same RTE size"@,
        phase1_label(8) == "compute_load_requests: excludes cached tiles"@,
{
}

} // verus!
