//! Zoom and pan animation, camera transitions, double clicks and tile fade timing.

use crate::collections::TileMap;
use crate::engine::CameraLimits;
use crate::scalar::{clamped_between, Frac, Real64};
use crate::tile::TileCoord;
use vstd::prelude::*;

verus! {

/// Time in which a newly loaded tile fades in.
pub const FADE_DURATION: i64 = 500_000;

/// Time window of a double click.
pub const DOUBLE_CLICK_TIME: i64 = 300_000;

/// Distance within which two clicks make a double click: ten pixels.
pub const DOUBLE_CLICK_DIST: i64 = 10_240;

/// Time after a change of the touch count in which gestures are suppressed.
pub const TOUCH_GRACE_PERIOD: i64 = 80_000;

/// Time window of drag samples.
pub const DRAG_SAMPLE_WINDOW: i64 = 100_000;

/// Shortest time span from which a velocity is estimated.
pub const MIN_DRAG_SPAN: i64 = 1_000;

/// Extra time for which finished fades are kept.
pub const FADE_LINGER: i64 = 100_000;

/// A position on the screen, in units of 1/1024 pixel.
#[derive(Debug, Clone, Copy, PartialEq, Eq, Structural)]
pub struct ScreenPoint {
    pub x: i32,
    pub y: i32,
}

/// Square of the distance between two positions.
pub open spec fn squared_gap(a: ScreenPoint, b: ScreenPoint) -> int {
    (a.x - b.x) * (a.x - b.x) + (a.y - b.y) * (a.y - b.y)
}

/// Square of the distance between two positions.
pub fn gap_squared(a: ScreenPoint, b: ScreenPoint) -> (d: i128)
    ensures
        d == squared_gap(a, b),
        0 <= d <= 0x2_0000_0000_0000_0000,
{
    let dx: i128 = a.x as i128 - b.x as i128;
    let dy: i128 = a.y as i128 - b.y as i128;
    assert(0 <= dx * dx <= 0x1_0000_0000_0000_0000) by (nonlinear_arith)
        requires
            -0x1_0000_0000 <= dx <= 0x1_0000_0000,
    ;
    assert(0 <= dy * dy <= 0x1_0000_0000_0000_0000) by (nonlinear_arith)
        requires
            -0x1_0000_0000 <= dy <= 0x1_0000_0000,
    ;
    dx * dx + dy * dy
}

/// Interaction parameters that can be tuned at run time.
#[derive(Debug, Clone, Copy, PartialEq, Eq, Structural)]
pub struct InteractionConfig {
    pub fade_duration: i64,
    pub double_click_time: i64,
    pub double_click_dist: i64,
    pub pan_amount: Real64,
    pub zoom_step: Real64,
    pub keyboard_rotate: Real64,
    pub pitch_sensitivity: Real64,
    pub rotate_sensitivity: Real64,
    pub touch_grace_period: i64,
    pub inertia_friction: Real64,
    pub inertia_min_speed: Real64,
    pub zoom_anim_speed: Real64,
    pub drag_sample_window: i64,
}

/// The default parameters.
pub open spec fn default_interaction() -> InteractionConfig {
    InteractionConfig {
        fade_duration: FADE_DURATION,
        double_click_time: DOUBLE_CLICK_TIME,
        double_click_dist: DOUBLE_CLICK_DIST,
        pan_amount: Real64 { bits: 0x4049_0000_0000_0000 },
        zoom_step: Real64 { bits: 0x3fe0_0000_0000_0000 },
        keyboard_rotate: Real64 { bits: 0x4024_0000_0000_0000 },
        pitch_sensitivity: Real64 { bits: 0x3fd3_3333_3333_3333 },
        rotate_sensitivity: Real64 { bits: 0x3fd3_3333_3333_3333 },
        touch_grace_period: TOUCH_GRACE_PERIOD,
        inertia_friction: Real64 { bits: 0x4012_0000_0000_0000 },
        inertia_min_speed: Real64 { bits: 0x3ff0_0000_0000_0000 },
        zoom_anim_speed: Real64 { bits: 0x4030_0000_0000_0000 },
        drag_sample_window: DRAG_SAMPLE_WINDOW,
    }
}

impl Default for InteractionConfig {
    fn default() -> (c: InteractionConfig)
        ensures
            c == default_interaction(),
    {
        InteractionConfig {
            fade_duration: FADE_DURATION,
            double_click_time: DOUBLE_CLICK_TIME,
            double_click_dist: DOUBLE_CLICK_DIST,
            pan_amount: Real64 { bits: 0x4049_0000_0000_0000 },
            zoom_step: Real64 { bits: 0x3fe0_0000_0000_0000 },
            keyboard_rotate: Real64 { bits: 0x4024_0000_0000_0000 },
            pitch_sensitivity: Real64 { bits: 0x3fd3_3333_3333_3333 },
            rotate_sensitivity: Real64 { bits: 0x3fd3_3333_3333_3333 },
            touch_grace_period: TOUCH_GRACE_PERIOD,
            inertia_friction: Real64 { bits: 0x4012_0000_0000_0000 },
            inertia_min_speed: Real64 { bits: 0x3ff0_0000_0000_0000 },
            zoom_anim_speed: Real64 { bits: 0x4030_0000_0000_0000 },
            drag_sample_window: DRAG_SAMPLE_WINDOW,
        }
    }
}

/// Easing of a camera transition.
#[derive(Debug, Clone, Copy, PartialEq, Eq, Structural)]
pub enum EasingMode {
    /// Smooth start and end.
    FlyTo,
    /// Constant speed.
    EaseTo,
}

/// The smooth step curve `3t^2 - 2t^3` at `t = e / d`, as a fraction over `d^3`.
pub open spec fn smooth_step(e: int, d: int) -> int {
    e * e * (3 * d - 2 * e)
}

proof fn lemma_smooth_bounds(e: int, d: int)
    requires
        0 <= e <= d,
        1 <= d <= 0x100_0000_0000,
    ensures
        0 <= e * e <= d * d,
        0 <= smooth_step(e, d) <= d * d * d,
        d * d * d <= 0x100_0000_0000_0000_0000_0000_0000_0000,
        d * d <= 0x1_0000_0000_0000_0000_0000,
        d * d * d >= 1,
{
    assert(0 <= e * e <= d * d) by (nonlinear_arith)
        requires
            0 <= e <= d,
    ;
    assert(1 <= d * d <= 0x1_0000_0000_0000_0000_0000) by (nonlinear_arith)
        requires
            1 <= d <= 0x100_0000_0000,
    ;
    let q = d * d;
    assert(1 <= q * d <= 0x100_0000_0000_0000_0000_0000_0000_0000) by (nonlinear_arith)
        requires
            1 <= d <= 0x100_0000_0000,
            1 <= q <= 0x1_0000_0000_0000_0000_0000,
    ;
    assert(0 <= e * e * (3 * d - 2 * e)) by (nonlinear_arith)
        requires
            0 <= e * e,
            3 * d - 2 * e >= 0,
    ;
    // d^3 - e^2 (3d - 2e) = (d - e)^2 (d + 2e)
    assert(d * d * d - e * e * (3 * d - 2 * e) == (d - e) * (d - e) * (d + 2 * e)) by (nonlinear_arith);
    assert((d - e) * (d - e) * (d + 2 * e) >= 0) by (nonlinear_arith)
        requires
            d >= e,
            e >= 0,
    ;
}

/// The smooth step curve at `e / d`.
pub fn smoothstep(e: i64, d: i64) -> (f: Frac)
    requires
        0 <= e <= d,
        1 <= d <= 0x100_0000_0000,
    ensures
        f.num == smooth_step(e as int, d as int),
        f.den == d * d * d,
        0 <= f.num <= f.den,
        f.den >= 1,
{
    proof {
        lemma_smooth_bounds(e as int, d as int);
        assert(e * e * (3 * d - 2 * e) == smooth_step(e as int, d as int));
    }
    let a: i128 = e as i128;
    let b: i128 = d as i128;
    Frac { num: a * a * (3 * b - 2 * a), den: b * b * b }
}

/// The curve rises from 0 to 1 without ever turning back.
pub proof fn law_smoothstep(e1: int, e2: int, d: int)
    requires
        0 <= e1 <= e2 <= d,
        1 <= d,
    ensures
        smooth_step(0, d) == 0,
        smooth_step(d, d) == d * d * d,
        smooth_step(e1, d) <= smooth_step(e2, d),
{
    assert(0 * 0 * (3 * d - 2 * 0) == 0) by (nonlinear_arith);
    assert(d * d * (3 * d - 2 * d) == d * d * d) by (nonlinear_arith);
    let s = e2 - e1;
    // f(e2) - f(e1) = s (3d (e1 + e2) - 2 (e1^2 + e1 e2 + e2^2))
    let g = 3 * d * (e1 + e2) - 2 * (e1 * e1 + e1 * e2 + e2 * e2);
    assert(e2 * e2 * (3 * d - 2 * e2) - e1 * e1 * (3 * d - 2 * e1) == s * g) by (nonlinear_arith)
        requires
            s == e2 - e1,
            g == 3 * d * (e1 + e2) - 2 * (e1 * e1 + e1 * e2 + e2 * e2),
    ;
    assert(g >= 0) by (nonlinear_arith)
        requires
            0 <= e1 <= e2 <= d,
            g == 3 * d * (e1 + e2) - 2 * (e1 * e1 + e1 * e2 + e2 * e2),
    ;
    assert(s * g >= 0) by (nonlinear_arith)
        requires
            s >= 0,
            g >= 0,
    ;
}

/// A camera transition in progress.
#[derive(Debug, Clone, Copy, PartialEq, Eq, Structural)]
pub struct CameraAnimation {
    pub start_lat: Real64,
    pub start_lon: Real64,
    pub target_lat: Real64,
    pub target_lon: Real64,
    pub start_zoom: Real64,
    pub target_zoom: Real64,
    pub start_bearing: Real64,
    pub target_bearing: Real64,
    pub start_pitch: Real64,
    pub target_pitch: Real64,
    pub duration: i64,
    pub elapsed: i64,
    pub easing: EasingMode,
}

impl CameraAnimation {
    /// The elapsed part of the duration, between nothing and all of it.
    pub open spec fn covered(self) -> int {
        if self.elapsed < 0 {
            0
        } else if self.elapsed > self.duration {
            self.duration as int
        } else {
            self.elapsed as int
        }
    }

    /// Interpolation factor between start and target.
    pub fn progress(&self) -> (t: Frac)
        requires
            1 <= self.duration <= 0x100_0000_0000,
        ensures
            self.easing is EaseTo ==> t.num == self.covered() && t.den == self.duration,
            self.easing is FlyTo ==> t.num == smooth_step(self.covered(), self.duration as int)
                && t.den == self.duration * self.duration * self.duration,
            0 <= t.num <= t.den,
            t.den >= 1,
    {
        let covered: i64 = if self.elapsed < 0 {
            0
        } else if self.elapsed > self.duration {
            self.duration
        } else {
            self.elapsed
        };
        match self.easing {
            EasingMode::EaseTo => Frac { num: covered as i128, den: self.duration as i128 },
            EasingMode::FlyTo => smoothstep(covered, self.duration),
        }
    }

    /// Whether the transition has finished.
    pub fn is_done(&self) -> (b: bool)
        ensures
            b == (self.elapsed >= self.duration),
    {
        self.elapsed >= self.duration
    }
}

/// A drag position with its time.
#[derive(Debug, Clone, Copy, PartialEq, Eq, Structural)]
pub struct DragSample {
    pub pos: ScreenPoint,
    pub time: i64,
}

/// What a drag leaves behind when it ends.
#[derive(Debug, Clone, Copy, PartialEq, Eq, Structural)]
pub enum Release {
    /// No velocity.
    Still,
    /// A velocity of `(dx, dy)` per `dt`.
    Fling { dx: i64, dy: i64, dt: i64 },
}

/// How smooth zoom proceeds in a frame.
#[derive(Debug, Clone, Copy, PartialEq, Eq, Structural)]
pub enum ZoomStep {
    /// Decay towards the goal, at the anchor if there is one.
    Glide { goal: Real64, anchor: Option<ScreenPoint> },
    /// Close enough: take the goal.
    Snap { goal: Real64 },
    /// Nothing to do.
    Hold,
}

/// What a frame has to animate.
#[derive(Debug, Clone, Copy, PartialEq, Eq, Structural)]
pub enum TickStep {
    /// A camera transition is running at `progress`; it overrides everything else.
    /// `finished` tells that this was its last frame.
    Camera { anim: CameraAnimation, progress: Frac, finished: bool },
    /// Smooth zoom, and whether inertia keeps panning.
    Free { zoom: ZoomStep, coast: bool },
}

/// Zoom differences above this still animate: 0.001.
pub open spec fn zoom_epsilon() -> Real64 {
    Real64 { bits: 0x3f50_624d_d2f1_a9fc }
}

/// Zoom differences above this are still corrected: 1e-9.
pub open spec fn zoom_residue() -> Real64 {
    Real64 { bits: 0x3e11_2e0b_e826_d695 }
}

/// Animation state shared by all platforms.
pub struct AnimationController {
    pub config: InteractionConfig,
    /// Zoom level that smooth zoom moves towards.
    pub zoom_target: Real64,
    /// Screen position that smooth zoom keeps in place; the center without one.
    pub zoom_anchor: Option<ScreenPoint>,
    /// Pan velocity in pixels per second.
    pub pan_velocity: (Real64, Real64),
    /// Recent drag positions, oldest first.
    pub drag_samples: Vec<DragSample>,
    /// Time of the last click that can start a double click.
    pub last_click_time: Option<i64>,
    /// Its position.
    pub last_click_pos: Option<ScreenPoint>,
    /// When each fading tile was loaded.
    pub tile_fade_start: TileMap<i64>,
    /// Camera transition in progress.
    pub camera_anim: Option<CameraAnimation>,
    /// Last known pointer position.
    pub last_mouse_pos: Option<ScreenPoint>,
}

/// No velocity.
pub open spec fn still() -> (Real64, Real64) {
    (Real64 { bits: 0 }, Real64 { bits: 0 })
}

/// The sample lies within the window that ends now.
pub open spec fn in_window(now: i64, window: i64) -> spec_fn(DragSample) -> bool {
    |s: DragSample| now - s.time < window
}

/// The samples within the window.
pub open spec fn recent(samples: Seq<DragSample>, now: i64, window: i64) -> Seq<DragSample> {
    samples.filter(in_window(now, window))
}

/// What the given samples leave behind.
pub open spec fn release_of(samples: Seq<DragSample>) -> Release {
    if samples.len() < 2 {
        Release::Still
    } else {
        let first = samples[0];
        let last = samples[samples.len() - 1];
        if last.time - first.time < MIN_DRAG_SPAN {
            Release::Still
        } else {
            Release::Fling {
                dx: (last.pos.x - first.pos.x) as i64,
                dy: (last.pos.y - first.pos.y) as i64,
                dt: (last.time - first.time) as i64,
            }
        }
    }
}

/// The entries younger than `limit`.
pub open spec fn younger(m: Map<TileCoord, i64>, now: i64, limit: int) -> Map<TileCoord, i64> {
    Map::new(|c: TileCoord| m.contains_key(c) && now - m[c] < limit, |c: TileCoord| m[c])
}

/// Copy the entries younger than `limit`.
pub fn keep_younger(m: &TileMap<i64>, now: i64, limit: i128) -> (r: TileMap<i64>)
    ensures
        r@ == younger(m@, now, limit as int),
{
    let n: usize = m.len();
    let mut r: TileMap<i64> = TileMap::new();
    let mut i: usize = 0;
    while i < n
        invariant
            n == m.listing().len(),
            i <= n,
            crate::collections::lists_map(m.listing(), m@),
            forall|c: TileCoord| #[trigger]
                r@.contains_key(c) <==> exists|j: int|
                    0 <= j < i && (#[trigger] m.listing()[j]).0 == c && now - m.listing()[j].1
                        < limit,
            forall|c: TileCoord| #[trigger] r@.contains_key(c) ==> r@[c] == m@[c],
        decreases n - i,
    {
        let (c, t) = m.entry_at(i);
        let ghost before = r@;
        if now as i128 - (t as i128) < limit {
            r.insert(c, t);
        }
        assert forall|d: TileCoord| #[trigger] r@.contains_key(d) <==> exists|j: int|
            0 <= j < i + 1 && (#[trigger] m.listing()[j]).0 == d && now - m.listing()[j].1
                < limit by {
            assert(m.listing()[i as int] == (c, t));
            if d != c {
                assert(before.contains_key(d) == r@.contains_key(d));
            } else if r@.contains_key(d) && before.contains_key(d) {
                let j = choose|j: int|
                    0 <= j < i && (#[trigger] m.listing()[j]).0 == d && now - m.listing()[j].1
                        < limit;
                assert(0 <= j < i + 1);
            }
        }
        i = i + 1;
    }
    assert(r@ =~= younger(m@, now, limit as int)) by {
        assert forall|c: TileCoord| #[trigger] r@.contains_key(c) <==> younger(
            m@,
            now,
            limit as int,
        ).contains_key(c) by {
            if m@.contains_key(c) {
                let j = choose|j: int| 0 <= j < m.listing().len() && (#[trigger] m.listing()[j]).0 == c;
                assert(m@[c] == m.listing()[j].1);
            }
        }
    }
    r
}

/// A frame of length `dt` turns `before` into `after` and has `step` to animate. A running
/// camera transition moves on and ends when its time is up. Without one, smooth zoom glides,
/// snaps or holds, and inertia below the minimum speed stops.
pub open spec fn ticked(
    before: AnimationController,
    limits: CameraLimits,
    dt: i64,
    zoom_gap: Real64,
    pan_speed: Real64,
    step: TickStep,
    after: AnimationController,
) -> bool {
    match before.camera_anim {
        Some(a) => {
            let moved = CameraAnimation { elapsed: (a.elapsed + dt) as i64, ..a };
            let finished = a.elapsed + dt >= a.duration;
            &&& step matches TickStep::Camera { anim, progress, finished: done }
            &&& anim == moved
            &&& done == finished
            &&& moved.easing is EaseTo ==> progress.num == moved.covered() && progress.den
                == a.duration
            &&& moved.easing is FlyTo ==> progress.num == smooth_step(
                moved.covered(),
                a.duration as int,
            ) && progress.den == a.duration * a.duration * a.duration
            &&& after == (AnimationController {
                camera_anim: if finished {
                    None
                } else {
                    Some(moved)
                },
                ..before
            })
        },
        None => {
            let goal = clamped_between(before.zoom_target, limits.min_zoom, limits.max_zoom);
            let coast = before.config.inertia_min_speed.below(pan_speed);
            &&& step == (TickStep::Free {
                zoom: if zoom_epsilon().below(zoom_gap) {
                    ZoomStep::Glide { goal, anchor: before.zoom_anchor }
                } else if zoom_residue().below(zoom_gap) {
                    ZoomStep::Snap { goal }
                } else {
                    ZoomStep::Hold
                },
                coast,
            })
            &&& after == (AnimationController {
                pan_velocity: if coast {
                    before.pan_velocity
                } else {
                    still()
                },
                ..before
            })
        },
    }
}

/// The camera transition, if there is one, is short enough to compute with.
pub open spec fn tickable(a: AnimationController, dt: i64) -> bool {
    &&& 0 <= dt <= 0x100_0000_0000
    &&& a.camera_anim matches Some(c) ==> 1 <= c.duration <= 0x100_0000_0000 && 0 <= c.elapsed
        <= 0x100_0000_0000
}

/// The zoom limits are numbers, the lower one not above the upper one.
pub open spec fn limits_ordered(limits: CameraLimits) -> bool {
    !limits.min_zoom.is_nan_spec() && !limits.max_zoom.is_nan_spec() && !limits.max_zoom.below(
        limits.min_zoom,
    )
}

impl AnimationController {
    pub fn new(initial_zoom: Real64) -> (a: AnimationController)
        ensures
            a.config == default_interaction(),
            a.zoom_target == initial_zoom,
            a.zoom_anchor is None,
            a.pan_velocity == still(),
            a.drag_samples@.len() == 0,
            a.last_click_time is None,
            a.last_click_pos is None,
            a.tile_fade_start@ == Map::<TileCoord, i64>::empty(),
            a.tile_fade_start.listing().len() == 0,
            a.camera_anim is None,
            a.last_mouse_pos is None,
    {
        AnimationController {
            config: InteractionConfig::default(),
            zoom_target: initial_zoom,
            zoom_anchor: None,
            pan_velocity: (Real64::zero(), Real64::zero()),
            drag_samples: Vec::new(),
            last_click_time: None,
            last_click_pos: None,
            tile_fade_start: TileMap::new(),
            camera_anim: None,
            last_mouse_pos: None,
        }
    }

    /// Whether something is still animating. `zoom_gap` is the distance between the zoom
    /// target and the current zoom, `pan_speed` the magnitude of the pan velocity.
    pub fn is_animating(&self, zoom_gap: Real64, pan_speed: Real64) -> (b: bool)
        ensures
            b == {
                ||| zoom_epsilon().below(zoom_gap)
                ||| self.config.inertia_min_speed.below(pan_speed)
                ||| self.tile_fade_start.listing().len() > 0
                ||| self.camera_anim matches Some(a) && a.elapsed < a.duration
            },
    {
        let camera_active: bool = match self.camera_anim {
            Some(a) => !a.is_done(),
            None => false,
        };
        Real64 { bits: 0x3f50_624d_d2f1_a9fc }.less(zoom_gap) || self.config.inertia_min_speed.less(
            pan_speed,
        ) || self.tile_fade_start.len() > 0 || camera_active
    }

    /// The zoom level that smooth zoom can reach.
    pub fn zoom_goal(&self, limits: &CameraLimits) -> (g: Real64)
        requires
            limits_ordered(*limits),
        ensures
            g == clamped_between(self.zoom_target, limits.min_zoom, limits.max_zoom),
    {
        self.zoom_target.clamp_to(limits.min_zoom, limits.max_zoom)
    }

    /// Advance by `dt`. `zoom_gap` is the distance between the zoom goal and the current zoom,
    /// `pan_speed` the magnitude of the pan velocity. A running camera transition moves on and
    /// ends when its time is up; [`AnimationController::settle_zoom`] then takes the zoom it
    /// ends at. Otherwise the result says how zoom and inertia proceed; inertia below the
    /// minimum speed is stopped.
    pub fn tick_with_mode(
        &mut self,
        limits: &CameraLimits,
        dt: i64,
        zoom_gap: Real64,
        pan_speed: Real64,
    ) -> (step: TickStep)
        requires
            limits_ordered(*limits),
            tickable(*old(self), dt),
        ensures
            ticked(*old(self), *limits, dt, zoom_gap, pan_speed, step, *final(self)),
    {
        match self.camera_anim {
            Some(a) => {
                let mut moved = a;
                moved.elapsed = a.elapsed + dt;
                let progress = moved.progress();
                let finished: bool = moved.is_done();
                if finished {
                    self.camera_anim = None;
                } else {
                    self.camera_anim = Some(moved);
                }
                TickStep::Camera { anim: moved, progress, finished }
            },
            None => {
                let goal = self.zoom_goal(limits);
                let zoom = if (Real64 { bits: 0x3f50_624d_d2f1_a9fc }).less(zoom_gap) {
                    ZoomStep::Glide { goal, anchor: self.zoom_anchor }
                } else if (Real64 { bits: 0x3e11_2e0b_e826_d695 }).less(zoom_gap) {
                    ZoomStep::Snap { goal }
                } else {
                    ZoomStep::Hold
                };
                let coast: bool = self.config.inertia_min_speed.less(pan_speed);
                if !coast {
                    self.pan_velocity = (Real64::zero(), Real64::zero());
                }
                TickStep::Free { zoom, coast }
            },
        }
    }

    /// Take the current zoom as the target, so that smooth zoom has nothing left to do.
    pub fn settle_zoom(&mut self, zoom: Real64)
        ensures
            *final(self) == (AnimationController { zoom_target: zoom, ..*old(self) }),
    {
        self.zoom_target = zoom;
    }

    /// Forget drag samples outside the window.
    fn drop_old_samples(&mut self, now: i64)
        ensures
            final(self).drag_samples@ == recent(
                old(self).drag_samples@,
                now,
                old(self).config.drag_sample_window,
            ),
            *final(self) == (AnimationController {
                drag_samples: final(self).drag_samples,
                ..*old(self)
            }),
    {
        let ghost all = self.drag_samples@;
        let window: i64 = self.config.drag_sample_window;
        let ghost keep = in_window(now, window);
        let mut kept: Vec<DragSample> = Vec::new();
        let mut i: usize = 0;
        assert(all.take(0).filter(keep) =~= Seq::<DragSample>::empty()) by {
            reveal(Seq::filter);
        }
        while i < self.drag_samples.len()
            invariant
                i <= self.drag_samples@.len(),
                all == self.drag_samples@,
                *self == *old(self),
                keep == in_window(now, window),
                kept@ == all.take(i as int).filter(keep),
            decreases self.drag_samples@.len() - i,
        {
            let s = self.drag_samples[i];
            proof {
                assert(all.take(i + 1) =~= all.take(i as int).push(s));
                all.take(i as int).lemma_filter_push(s, keep);
            }
            if now as i128 - (s.time as i128) < window as i128 {
                kept.push(s);
            }
            i = i + 1;
        }
        assert(all.take(i as int) =~= all);
        self.drag_samples = kept;
    }

    /// Record a drag position.
    pub fn record_drag(&mut self, pos: ScreenPoint, time: i64)
        ensures
            final(self).drag_samples@ == recent(
                old(self).drag_samples@,
                time,
                old(self).config.drag_sample_window,
            ).push(DragSample { pos, time }),
            *final(self) == (AnimationController {
                drag_samples: final(self).drag_samples,
                ..*old(self)
            }),
    {
        self.drop_old_samples(time);
        self.drag_samples.push(DragSample { pos, time });
    }

    /// End a drag: estimate the velocity from the recent samples. Without one the pan velocity
    /// is zero; with one the samples are used up and the caller sets the pan velocity.
    pub fn compute_release_velocity(&mut self, time: i64) -> (r: Release)
        requires
            forall|i: int|
                0 <= i < old(self).drag_samples@.len() ==> -0x4000_0000_0000_0000 <= (
                #[trigger] old(self).drag_samples@[i]).time <= 0x3fff_ffff_ffff_ffff,
        ensures
            ({
                let kept = recent(
                    old(self).drag_samples@,
                    time,
                    old(self).config.drag_sample_window,
                );
                &&& r == release_of(kept)
                &&& final(self).drag_samples@ == (if r is Still {
                    kept
                } else {
                    Seq::empty()
                })
                &&& *final(self) == (AnimationController {
                    drag_samples: final(self).drag_samples,
                    pan_velocity: if r is Still {
                        still()
                    } else {
                        old(self).pan_velocity
                    },
                    ..*old(self)
                })
            }),
    {
        let ghost all = self.drag_samples@;
        let ghost keep = in_window(time, self.config.drag_sample_window);
        self.drop_old_samples(time);
        let n: usize = self.drag_samples.len();
        if n < 2 {
            self.pan_velocity = (Real64::zero(), Real64::zero());
            return Release::Still;
        }
        proof {
            assert(all.filter(keep).contains(self.drag_samples@[0]));
            assert(all.filter(keep).contains(self.drag_samples@[n - 1]));
            all.lemma_filter_contains_rev(keep, self.drag_samples@[0]);
            all.lemma_filter_contains_rev(keep, self.drag_samples@[n - 1]);
        }
        let first = self.drag_samples[0];
        let last = self.drag_samples[n - 1];
        let dt: i64 = last.time - first.time;
        if dt < MIN_DRAG_SPAN {
            self.pan_velocity = (Real64::zero(), Real64::zero());
            return Release::Still;
        }
        self.drag_samples.clear();
        Release::Fling {
            dx: last.pos.x as i64 - first.pos.x as i64,
            dy: last.pos.y as i64 - first.pos.y as i64,
            dt,
        }
    }

    /// Start of a drag: stop inertia and forget earlier samples.
    pub fn begin_drag(&mut self)
        ensures
            final(self).drag_samples@.len() == 0,
            *final(self) == (AnimationController {
                pan_velocity: still(),
                drag_samples: final(self).drag_samples,
                ..*old(self)
            }),
    {
        self.pan_velocity = (Real64::zero(), Real64::zero());
        self.drag_samples.clear();
    }

    /// The click at `pos` and `time` follows the remembered one closely enough to make a
    /// double click.
    pub open spec fn makes_double(&self, pos: ScreenPoint, time: i64) -> bool {
        &&& self.last_click_time matches Some(t) && time - t < self.config.double_click_time
        &&& self.last_click_pos matches Some(p) && self.config.double_click_dist > 0 && squared_gap(
            pos,
            p,
        ) < self.config.double_click_dist * self.config.double_click_dist
    }

    /// Whether a click completes a double click. A completed one is forgotten, so that a
    /// further click does not complete another.
    pub fn check_double_click(&mut self, pos: ScreenPoint, time: i64) -> (double: bool)
        requires
            old(self).config.double_click_dist <= 0x7fff_ffff_ffff,
        ensures
            double == old(self).makes_double(pos, time),
            *final(self) == (AnimationController {
                last_click_time: if double {
                    None
                } else {
                    Some(time)
                },
                last_click_pos: if double {
                    None
                } else {
                    Some(pos)
                },
                ..*old(self)
            }),
    {
        let soon: bool = match self.last_click_time {
            Some(t) => time as i128 - (t as i128) < self.config.double_click_time as i128,
            None => false,
        };
        let limit: i128 = self.config.double_click_dist as i128;
        let close: bool = match self.last_click_pos {
            Some(p) => if limit > 0 {
                assert(limit * limit <= 0x7fff_ffff_ffff * 0x7fff_ffff_ffff) by (nonlinear_arith)
                    requires
                        0 < limit <= 0x7fff_ffff_ffff,
                ;
                gap_squared(pos, p) < limit * limit
            } else {
                false
            },
            None => false,
        };
        let double: bool = soon && close;
        if double {
            self.last_click_time = None;
            self.last_click_pos = None;
        } else {
            self.last_click_time = Some(time);
            self.last_click_pos = Some(pos);
        }
        double
    }

    /// Start a camera transition; inertia stops.
    pub fn start_camera_animation(&mut self, anim: CameraAnimation)
        ensures
            *final(self) == (AnimationController {
                pan_velocity: still(),
                camera_anim: Some(anim),
                ..*old(self)
            }),
    {
        self.pan_velocity = (Real64::zero(), Real64::zero());
        self.camera_anim = Some(anim);
    }

    /// Cancel a running camera transition.
    pub fn stop_animation(&mut self)
        ensures
            *final(self) == (AnimationController { camera_anim: None, ..*old(self) }),
    {
        self.camera_anim = None;
    }

    /// A tile's texture became available.
    pub fn register_tile_loaded(&mut self, coord: TileCoord, time: i64)
        ensures
            final(self).tile_fade_start@ == old(self).tile_fade_start@.insert(coord, time),
            *final(self) == (AnimationController {
                tile_fade_start: final(self).tile_fade_start,
                ..*old(self)
            }),
    {
        self.tile_fade_start.insert(coord, time);
    }

    /// Time since a tile was loaded, if it is still tracked.
    pub fn tile_fade_elapsed(&self, coord: &TileCoord, now: i64) -> (e: Option<i128>)
        ensures
            e == fade_elapsed(self.tile_fade_start@, *coord, now),
    {
        match self.tile_fade_start.get(coord) {
            Some(start) => Some(now as i128 - start as i128),
            None => None,
        }
    }

    /// Forget fades that have long finished.
    pub fn gc_fades(&mut self, now: i64)
        ensures
            final(self).tile_fade_start@ == younger(
                old(self).tile_fade_start@,
                now,
                old(self).config.fade_duration + FADE_LINGER,
            ),
            *final(self) == (AnimationController {
                tile_fade_start: final(self).tile_fade_start,
                ..*old(self)
            }),
    {
        let limit: i128 = self.config.fade_duration as i128 + FADE_LINGER as i128;
        let kept = keep_younger(&self.tile_fade_start, now, limit);
        self.tile_fade_start = kept;
    }
}

/// Time since a tile was loaded, if it is tracked.
pub open spec fn fade_elapsed(starts: Map<TileCoord, i64>, c: TileCoord, now: i64) -> Option<i128> {
    if starts.contains_key(c) {
        Some((now - starts[c]) as i128)
    } else {
        None
    }
}

/// A double click is used up: the click right after it never completes another one.
pub proof fn law_no_triple_click(
    first: AnimationController,
    after: AnimationController,
    pos: ScreenPoint,
    time: i64,
    next_pos: ScreenPoint,
    next_time: i64,
)
    requires
        first.makes_double(pos, time),
        after == (AnimationController { last_click_time: None, last_click_pos: None, ..first }),
    ensures
        !after.makes_double(next_pos, next_time),
{
}

/// Two clicks make a double click exactly when the second comes soon enough and close enough.
pub proof fn law_double_click(
    idle: AnimationController,
    clicked: AnimationController,
    p1: ScreenPoint,
    t1: i64,
    p2: ScreenPoint,
    t2: i64,
)
    requires
        idle.config.double_click_dist > 0,
        clicked == (AnimationController {
            last_click_time: Some(t1),
            last_click_pos: Some(p1),
            ..idle
        }),
    ensures
        clicked.makes_double(p2, t2) <==> t2 - t1 < idle.config.double_click_time && squared_gap(
            p2,
            p1,
        ) < idle.config.double_click_dist * idle.config.double_click_dist,
{
}

/// After garbage collection no fade older than the fade time plus the linger is left, and every
/// younger one is kept as it was; collecting again at the same time changes nothing.
pub proof fn law_gc(m: Map<TileCoord, i64>, now: i64, limit: int, c: TileCoord)
    ensures
        younger(m, now, limit).contains_key(c) <==> m.contains_key(c) && now - m[c] < limit,
        younger(m, now, limit).contains_key(c) ==> younger(m, now, limit)[c] == m[c],
        younger(younger(m, now, limit), now, limit) == younger(m, now, limit),
{
    assert(younger(younger(m, now, limit), now, limit) =~= younger(m, now, limit));
}

/// The smooth curve is `3t^2 - 2t^3`, and its second half mirrors the first.
pub proof fn law_smooth_curve(e: int, d: int)
    ensures
        smooth_step(e, d) == 3 * (e * e * d) - 2 * (e * e * e),
        smooth_step(e, d) + smooth_step(d - e, d) == d * d * d,
{
    let q = e * e;
    assert(q * (3 * d - 2 * e) == 3 * (q * d) - 2 * (q * e)) by (nonlinear_arith);
    // d^3 - e^2 (3d - 2e) = (d - e)^2 (d + 2e)
    assert(d * d * d - e * e * (3 * d - 2 * e) == (d - e) * (d - e) * (d + 2 * e)) by (nonlinear_arith);
    assert(3 * d - 2 * (d - e) == d + 2 * e);
}

/// Distances follow from the offsets along both axes, wherever the points lie.
pub proof fn law_squared_gap(a: ScreenPoint, b: ScreenPoint, dx: int, dy: int)
    requires
        b.x == a.x + dx,
        b.y == a.y + dy,
    ensures
        squared_gap(a, b) == dx * dx + dy * dy,
        squared_gap(b, a) == dx * dx + dy * dy,
{
    assert((-dx) * (-dx) == dx * dx) by (nonlinear_arith);
    assert((-dy) * (-dy) == dy * dy) by (nonlinear_arith);
}

/// A drag flings by the way from its first recent sample to its last, in the time between them.
/// A single sample, and samples within less than a millisecond, leave no velocity.
pub proof fn law_release(samples: Seq<DragSample>)
    requires
        samples.len() > 0 ==> -0x4000_0000_0000_0000 <= samples.first().time <= 0x3fff_ffff_ffff_ffff
            && -0x4000_0000_0000_0000 <= samples.last().time <= 0x3fff_ffff_ffff_ffff,
    ensures
        samples.len() < 2 ==> release_of(samples) is Still,
        samples.len() >= 2 ==> match release_of(samples) {
            Release::Still => samples.last().time < samples.first().time + 1_000,
            Release::Fling { dx, dy, dt } => {
                &&& samples.first().pos.x + dx == samples.last().pos.x
                &&& samples.first().pos.y + dy == samples.last().pos.y
                &&& samples.first().time + dt == samples.last().time
                &&& dt >= 1_000
            },
        },
{
}

/// A sample counts as long as it is younger than the window; the others are forgotten, and
/// those that stay keep their order.
pub proof fn law_recent(samples: Seq<DragSample>, now: i64, window: i64, s: DragSample)
    ensures
        recent(samples, now, window).contains(s) <==> samples.contains(s) && now < s.time + window,
        now < s.time + window ==> recent(samples.push(s), now, window) == recent(
            samples,
            now,
            window,
        ).push(s),
        now >= s.time + window ==> recent(samples.push(s), now, window) == recent(
            samples,
            now,
            window,
        ),
{
    let keep = in_window(now, window);
    samples.lemma_filter_push(s, keep);
    if samples.filter(keep).contains(s) {
        samples.lemma_filter_contains_rev(keep, s);
        let k = choose|k: int| 0 <= k < samples.filter(keep).len() && samples.filter(keep)[k] == s;
        samples.lemma_filter_pred(keep, k);
    }
    if samples.contains(s) && now < s.time + window {
        let i = choose|i: int| 0 <= i < samples.len() && samples[i] == s;
        samples.lemma_filter_contains(keep, i);
    }
}

/// A frame moves a running transition on by its length. The transition is over when its whole
/// time has passed, and then stands at its target; until then its progress is the share of the
/// time that has passed, smoothed where it flies.
pub proof fn law_tick_transition(
    before: AnimationController,
    limits: CameraLimits,
    dt: i64,
    zoom_gap: Real64,
    pan_speed: Real64,
    step: TickStep,
    after: AnimationController,
    a: CameraAnimation,
)
    requires
        before.camera_anim == Some(a),
        tickable(before, dt),
        ticked(before, limits, dt, zoom_gap, pan_speed, step, after),
    ensures
        step matches TickStep::Camera { anim, progress, finished } && {
            let d = a.duration as int;
            let e = if a.elapsed + dt >= d {
                d
            } else {
                a.elapsed + dt
            };
            &&& anim.elapsed == a.elapsed + dt
            &&& anim == (CameraAnimation { elapsed: anim.elapsed, ..a })
            &&& finished <==> a.elapsed + dt >= d
            &&& finished ==> progress.num == progress.den
            &&& a.easing is EaseTo ==> progress.num == e && progress.den == d
            &&& a.easing is FlyTo ==> progress.num == 3 * (e * e * d) - 2 * (e * e * e)
                && progress.den == d * d * d
            &&& finished ==> after.camera_anim is None
            &&& !finished ==> after.camera_anim == Some(anim)
        },
        after == (AnimationController { camera_anim: after.camera_anim, ..before }),
{
    let d = a.duration as int;
    let e = if a.elapsed + dt >= d {
        d
    } else {
        a.elapsed + dt
    };
    law_smooth_curve(e, d);
    law_smoothstep(0, e, d);
}

/// Without a transition, zoom glides to the target within the limits while it is more than a
/// thousandth away, snaps to it from nearer, and holds where it has arrived; panning coasts only
/// while it is faster than the least speed, and otherwise stands still.
pub proof fn law_tick_free(
    before: AnimationController,
    limits: CameraLimits,
    dt: i64,
    zoom_gap: Real64,
    pan_speed: Real64,
    step: TickStep,
    after: AnimationController,
)
    requires
        before.camera_anim is None,
        limits_ordered(limits),
        !before.zoom_target.is_nan_spec(),
        ticked(before, limits, dt, zoom_gap, pan_speed, step, after),
    ensures
        step matches TickStep::Free { zoom, coast } && {
            let near = Real64 { bits: 0x3f50_624d_d2f1_a9fc };
            let there = Real64 { bits: 0x3e11_2e0b_e826_d695 };
            let bounded = |goal: Real64|
                {
                    &&& limits.min_zoom.rank() <= goal.rank() <= limits.max_zoom.rank()
                    &&& limits.min_zoom.rank() <= before.zoom_target.rank()
                        <= limits.max_zoom.rank() ==> goal == before.zoom_target
                };
            &&& near.below(zoom_gap) ==> (zoom matches ZoomStep::Glide { goal, anchor } && anchor
                == before.zoom_anchor && bounded(goal))
            &&& !near.below(zoom_gap) && there.below(zoom_gap) ==> (zoom matches ZoomStep::Snap {
                goal,
            } && bounded(goal))
            &&& !near.below(zoom_gap) && !there.below(zoom_gap) ==> zoom is Hold
            &&& coast <==> before.config.inertia_min_speed.below(pan_speed)
            &&& coast ==> after.pan_velocity == before.pan_velocity
            &&& !coast ==> after.pan_velocity.0.bits == 0 && after.pan_velocity.1.bits == 0
        },
        after == (AnimationController { pan_velocity: after.pan_velocity, ..before }),
{
}

/// The time since a tile was loaded and the time it was loaded at make up the present.
pub proof fn law_fade_elapsed(starts: Map<TileCoord, i64>, c: TileCoord, now: i64)
    ensures
        match fade_elapsed(starts, c, now) {
            Some(e) => starts.contains_key(c) && starts[c] + e == now,
            None => !starts.contains_key(c),
        },
{
}

/// Unless tuned, tiles fade for half a second, two clicks within 0.3 seconds and ten pixels make
/// a double click, gestures pause for 80 milliseconds, and drags are measured over a tenth of a
/// second.
pub proof fn law_default_times(c: InteractionConfig)
    requires
        c == default_interaction(),
    ensures
        c.fade_duration == 500_000,
        c.double_click_time == 300_000,
        c.double_click_dist == 10 * 1024,
        c.touch_grace_period == 80_000,
        c.drag_sample_window == 100_000,
        c.pan_amount.bits == 0x4049_0000_0000_0000,
        c.zoom_step.bits == 0x3fe0_0000_0000_0000,
        c.keyboard_rotate.bits == 0x4024_0000_0000_0000,
        c.pitch_sensitivity.bits == 0x3fd3_3333_3333_3333,
        c.rotate_sensitivity.bits == 0x3fd3_3333_3333_3333,
        c.inertia_friction.bits == 0x4012_0000_0000_0000,
        c.inertia_min_speed.bits == 0x3ff0_0000_0000_0000,
        c.zoom_anim_speed.bits == 0x4030_0000_0000_0000,
        FADE_LINGER == 100_000,
{
}

} // verus!
