//! Multi-touch gestures with a grace period for finger transitions.
//!
//! When the number of fingers changes, gestures are suppressed for a moment, so that the
//! passing state of a two-finger gesture with one finger down causes no jitter.

use crate::interaction::animation::{
    gap_squared, law_squared_gap, squared_gap, ScreenPoint, TOUCH_GRACE_PERIOD,
};
use vstd::prelude::*;

verus! {

/// An active touch point.
#[derive(Debug, Clone, Copy, PartialEq, Eq, Structural)]
pub struct Touch {
    pub id: i32,
    pub pos: ScreenPoint,
}

/// The positions of two fingers.
#[derive(Debug, Clone, Copy, PartialEq, Eq, Structural)]
pub struct FingerPair {
    pub a: ScreenPoint,
    pub b: ScreenPoint,
}

/// A two-finger gesture: where the fingers were and are, and which parts of the movement
/// count.
#[derive(Debug, Clone, Copy, PartialEq, Eq, Structural)]
pub struct MultiTouchAction {
    pub before: Option<FingerPair>,
    pub now: FingerPair,
    /// The change of distance zooms.
    pub zoom: bool,
    /// The change of direction rotates.
    pub rotate: bool,
    /// Twice the vertical movement of the midpoint, where it pitches.
    pub pitch: Option<i64>,
}

/// What touch moves amount to.
#[derive(Debug, Clone, Copy, PartialEq, Eq, Structural)]
pub enum GestureAction {
    /// One finger drags the map.
    Pan { from: ScreenPoint, to: ScreenPoint },
    /// Two fingers zoom, rotate and pitch.
    MultiTouch { action: MultiTouchAction },
}

/// Fingers on the screen.
pub struct TouchGestureState {
    /// Active touch points in order of arrival.
    pub touches: Vec<Touch>,
    /// Finger positions that the next two-finger movement is measured from.
    pub prev_pair: Option<FingerPair>,
    /// When the number of touches last changed.
    pub count_change_time: i64,
    /// The number of touches before that.
    pub prev_count: usize,
}

/// Positions are less than 131072 pixels from the origin.
pub open spec fn on_screen(p: ScreenPoint) -> bool {
    -0x800_0000 < p.x < 0x800_0000 && -0x800_0000 < p.y < 0x800_0000
}

/// Every touch has its own id.
pub open spec fn distinct_ids(touches: Seq<Touch>) -> bool {
    forall|i: int, j: int|
        0 <= i < j < touches.len() ==> (#[trigger] touches[i]).id != (#[trigger] touches[j]).id
}

/// Position of the touch `id` in the list.
pub open spec fn touch_index(touches: Seq<Touch>, id: i32) -> Option<int>
    decreases touches.len(),
{
    if touches.len() == 0 {
        None
    } else if touches.last().id == id {
        Some(touches.len() - 1)
    } else {
        touch_index(touches.drop_last(), id)
    }
}

proof fn lemma_touch_index(touches: Seq<Touch>, id: i32)
    ensures
        match touch_index(touches, id) {
            Some(i) => 0 <= i < touches.len() && touches[i].id == id,
            None => forall|i: int| 0 <= i < touches.len() ==> (#[trigger] touches[i]).id != id,
        },
    decreases touches.len(),
{
    if touches.len() > 0 && touches.last().id != id {
        let init = touches.drop_last();
        lemma_touch_index(init, id);
        if touch_index(init, id) is None {
            assert forall|i: int| 0 <= i < touches.len() implies (#[trigger] touches[i]).id
                != id by {
                if i < init.len() {
                    assert(init[i] == touches[i]);
                }
            }
        }
    }
}

/// The touches with `id` put at `pos`: moved if it is there, else added.
pub open spec fn placed(touches: Seq<Touch>, id: i32, pos: ScreenPoint) -> Seq<Touch> {
    match touch_index(touches, id) {
        Some(i) => touches.update(i, Touch { id, pos }),
        None => touches.push(Touch { id, pos }),
    }
}

/// The touches without `id`.
pub open spec fn lifted(touches: Seq<Touch>, id: i32) -> Seq<Touch> {
    match touch_index(touches, id) {
        Some(i) => touches.remove(i),
        None => touches,
    }
}

/// The touches after the first `n` moves; moves of unknown ids are ignored.
pub open spec fn moved(touches: Seq<Touch>, changes: Seq<Touch>, n: nat) -> Seq<Touch>
    decreases n,
{
    if n == 0 {
        touches
    } else {
        let before = moved(touches, changes, (n - 1) as nat);
        match touch_index(before, changes[n - 1].id) {
            Some(i) => before.update(i, changes[n - 1]),
            None => before,
        }
    }
}

/// The finger positions when exactly two fingers are down.
pub open spec fn pair_of(touches: Seq<Touch>) -> Option<FingerPair> {
    if touches.len() == 2 {
        Some(FingerPair { a: touches[0].pos, b: touches[1].pos })
    } else {
        None
    }
}

/// Direction from the first finger to the second; fingers on one spot point right.
pub open spec fn direction(p: FingerPair) -> (int, int) {
    let dx = p.b.x - p.a.x;
    let dy = p.b.y - p.a.y;
    if dx == 0 && dy == 0 {
        (1, 0)
    } else {
        (dx as int, dy as int)
    }
}

/// The two directions are less than 30 degrees apart: the cosine of the angle between them
/// is positive and its square exceeds three quarters.
pub open spec fn slight_turn(p: FingerPair, q: FingerPair) -> bool {
    let (ax, ay) = direction(p);
    let (bx, by) = direction(q);
    let dot = ax * bx + ay * by;
    dot > 0 && 4 * (dot * dot) > 3 * ((ax * ax + ay * ay) * (bx * bx + by * by))
}

/// Twice the vertical movement of the midpoint.
pub open spec fn doubled_rise(p: FingerPair, q: FingerPair) -> int {
    (q.a.y + q.b.y) - (p.a.y + p.b.y)
}

/// What the movement of two fingers amounts to: zoom when they were more than a pixel apart,
/// rotation when they turned slightly, and pitch when their midpoint moved vertically by more
/// than half a pixel.
pub open spec fn pair_action(before: Option<FingerPair>, now: FingerPair) -> MultiTouchAction {
    MultiTouchAction {
        before,
        now,
        zoom: before matches Some(p) && squared_gap(p.a, p.b) > 1024 * 1024,
        rotate: before matches Some(p) && slight_turn(p, now),
        pitch: match before {
            Some(p) => {
                let d = doubled_rise(p, now);
                if d > 1024 || d < -1024 {
                    Some(d as i64)
                } else {
                    None
                }
            },
            None => None,
        },
    }
}

impl TouchGestureState {
    /// Ids are distinct and positions on the screen.
    pub open spec fn wf(&self) -> bool {
        &&& distinct_ids(self.touches@)
        &&& forall|i: int|
            0 <= i < self.touches@.len() ==> on_screen((#[trigger] self.touches@[i]).pos)
        &&& self.prev_pair matches Some(p) ==> on_screen(p.a) && on_screen(p.b)
    }

    pub fn new() -> (s: TouchGestureState)
        ensures
            s.wf(),
            s.touches@.len() == 0,
            s.prev_pair is None,
            s.count_change_time == 0,
            s.prev_count == 0,
    {
        TouchGestureState {
            touches: Vec::new(),
            prev_pair: None,
            count_change_time: 0,
            prev_count: 0,
        }
    }

    /// The number of touches changed just before `now`.
    pub open spec fn in_grace(&self, now: i64) -> bool {
        now - self.count_change_time < TOUCH_GRACE_PERIOD
    }

    /// Whether the grace period after a change of the touch count is running.
    pub fn in_grace_period(&self, now: i64) -> (b: bool)
        ensures
            b == self.in_grace(now),
    {
        now as i128 - (self.count_change_time as i128) < TOUCH_GRACE_PERIOD as i128
    }

    /// Number of active touches.
    pub fn touch_count(&self) -> (n: usize)
        ensures
            n == self.touches@.len(),
    {
        self.touches.len()
    }

    fn find(&self, id: i32) -> (r: Option<usize>)
        requires
            distinct_ids(self.touches@),
        ensures
            match r {
                Some(i) => i < self.touches@.len() && touch_index(self.touches@, id) == Some(
                    i as int,
                ),
                None => touch_index(self.touches@, id) is None,
            },
    {
        let mut i: usize = 0;
        while i < self.touches.len()
            invariant
                i <= self.touches@.len(),
                distinct_ids(self.touches@),
                forall|j: int| 0 <= j < i ==> (#[trigger] self.touches@[j]).id != id,
            decreases self.touches@.len() - i,
        {
            if self.touches[i].id == id {
                proof {
                    lemma_touch_index(self.touches@, id);
                }
                return Some(i);
            }
            i = i + 1;
        }
        proof {
            lemma_touch_index(self.touches@, id);
        }
        None
    }

    fn current_pair(&self) -> (p: Option<FingerPair>)
        ensures
            p == pair_of(self.touches@),
    {
        if self.touches.len() == 2 {
            Some(FingerPair { a: self.touches[0].pos, b: self.touches[1].pos })
        } else {
            None
        }
    }

    /// A finger touches down.
    pub fn touch_start(&mut self, id: i32, pos: ScreenPoint, now: i64)
        requires
            old(self).wf(),
            on_screen(pos),
        ensures
            final(self).wf(),
            final(self).touches@ == placed(old(self).touches@, id, pos),
            final(self).prev_pair == pair_of(final(self).touches@),
            touch_index(old(self).touches@, id) is Some ==> final(self).count_change_time == old(
                self,
            ).count_change_time && final(self).prev_count == old(self).prev_count,
            touch_index(old(self).touches@, id) is None ==> final(self).count_change_time == now
                && final(self).prev_count == old(self).touches@.len(),
    {
        let old_count: usize = self.touches.len();
        let ghost before = self.touches@;
        proof {
            lemma_touch_index(before, id);
        }
        match self.find(id) {
            Some(i) => {
                self.touches.set(i, Touch { id, pos });
            },
            None => {
                self.touches.push(Touch { id, pos });
                self.count_change_time = now;
                self.prev_count = old_count;
            },
        }
        self.prev_pair = self.current_pair();
    }

    /// A finger is lifted.
    pub fn touch_end(&mut self, id: i32, now: i64)
        requires
            old(self).wf(),
        ensures
            final(self).wf(),
            final(self).touches@ == lifted(old(self).touches@, id),
            final(self).prev_pair == pair_of(final(self).touches@),
            touch_index(old(self).touches@, id) is None ==> final(self).count_change_time == old(
                self,
            ).count_change_time && final(self).prev_count == old(self).prev_count,
            touch_index(old(self).touches@, id) is Some ==> final(self).count_change_time == now
                && final(self).prev_count == old(self).touches@.len(),
    {
        let old_count: usize = self.touches.len();
        let ghost before = self.touches@;
        match self.find(id) {
            Some(i) => {
                self.touches.remove(i);
                self.count_change_time = now;
                self.prev_count = old_count;
                proof {
                    lemma_remove_keeps(before, i as int);
                }
            },
            None => {},
        }
        self.prev_pair = self.current_pair();
    }

    /// Apply moves.
    fn apply_moves(&mut self, changes: &[Touch])
        requires
            old(self).wf(),
            forall|i: int| 0 <= i < changes@.len() ==> on_screen((#[trigger] changes@[i]).pos),
        ensures
            final(self).wf(),
            final(self).touches@ == moved(old(self).touches@, changes@, changes@.len()),
            final(self).touches@.len() == old(self).touches@.len(),
            *final(self) == (TouchGestureState { touches: final(self).touches, ..*old(self) }),
    {
        let ghost start = self.touches@;
        let mut k: usize = 0;
        while k < changes.len()
            invariant
                k <= changes@.len(),
                self.wf(),
                forall|i: int| 0 <= i < changes@.len() ==> on_screen((#[trigger] changes@[i]).pos),
                start == old(self).touches@,
                self.touches@ == moved(start, changes@, k as nat),
                self.touches@.len() == start.len(),
                *self == (TouchGestureState { touches: self.touches, ..*old(self) }),
            decreases changes@.len() - k,
        {
            let c = changes[k];
            proof {
                lemma_touch_index(self.touches@, c.id);
            }
            match self.find(c.id) {
                Some(i) => {
                    self.touches.set(i, c);
                },
                None => {},
            }
            k = k + 1;
        }
    }

    /// What the moves amount to, given the touches after them.
    pub open spec fn action_for(&self, changes: Seq<Touch>, now: i64) -> Option<GestureAction> {
        let after = moved(self.touches@, changes, changes.len());
        if self.in_grace(now) && self.prev_count > 0 {
            None
        } else if after.len() == 1 {
            if self.prev_count > 1 && now - self.count_change_time < 2 * TOUCH_GRACE_PERIOD {
                None
            } else if changes.len() > 0 {
                match touch_index(self.touches@, changes[0].id) {
                    Some(i) => Some(
                        GestureAction::Pan { from: self.touches@[i].pos, to: changes[0].pos },
                    ),
                    None => None,
                }
            } else {
                None
            }
        } else if after.len() == 2 {
            Some(
                GestureAction::MultiTouch {
                    action: pair_action(self.prev_pair, pair_of(after).unwrap()),
                },
            )
        } else {
            None
        }
    }

    /// Process touch moves. Nothing comes of them in the grace period, unless no finger was
    /// down before it.
    pub fn process_moves(&mut self, changes: &[Touch], now: i64) -> (r: Option<GestureAction>)
        requires
            old(self).wf(),
            forall|i: int| 0 <= i < changes@.len() ==> on_screen((#[trigger] changes@[i]).pos),
        ensures
            final(self).wf(),
            r == old(self).action_for(changes@, now),
            final(self).touches@ == moved(old(self).touches@, changes@, changes@.len()),
            final(self).prev_pair == (if (old(self).in_grace(now) && old(self).prev_count > 0) || old(
                self,
            ).touches@.len() == 2 {
                pair_of(final(self).touches@)
            } else {
                old(self).prev_pair
            }),
            final(self).count_change_time == old(self).count_change_time,
            final(self).prev_count == old(self).prev_count,
    {
        let start: Option<ScreenPoint> = if changes.len() > 0 {
            match self.find(changes[0].id) {
                Some(i) => Some(self.touches[i].pos),
                None => None,
            }
        } else {
            None
        };
        self.apply_moves(changes);
        if self.in_grace_period(now) && self.prev_count > 0 {
            self.prev_pair = self.current_pair();
            return None;
        }
        let count: usize = self.touches.len();
        if count == 1 {
            if self.prev_count > 1 && now as i128 - (self.count_change_time as i128) < 2 * (
            TOUCH_GRACE_PERIOD as i128) {
                return None;
            }
            match start {
                Some(from) => Some(GestureAction::Pan { from, to: changes[0].pos }),
                None => None,
            }
        } else if count == 2 {
            let pair = FingerPair { a: self.touches[0].pos, b: self.touches[1].pos };
            let action = compute_pair_action(self.prev_pair, pair);
            self.prev_pair = Some(pair);
            Some(GestureAction::MultiTouch { action })
        } else {
            None
        }
    }
}

proof fn lemma_remove_keeps(touches: Seq<Touch>, i: int)
    requires
        distinct_ids(touches),
        0 <= i < touches.len(),
        forall|j: int| 0 <= j < touches.len() ==> on_screen((#[trigger] touches[j]).pos),
    ensures
        distinct_ids(touches.remove(i)),
        forall|j: int|
            0 <= j < touches.remove(i).len() ==> on_screen((#[trigger] touches.remove(i)[j]).pos),
{
    let r = touches.remove(i);
    assert forall|a: int, b: int| 0 <= a < b < r.len() implies (#[trigger] r[a]).id != (
    #[trigger] r[b]).id by {
        let a2 = if a < i { a } else { a + 1 };
        let b2 = if b < i { b } else { b + 1 };
        assert(r[a] == touches[a2] && r[b] == touches[b2]);
    }
    assert forall|j: int| 0 <= j < r.len() implies on_screen((#[trigger] r[j]).pos) by {
        let j2 = if j < i { j } else { j + 1 };
        assert(r[j] == touches[j2]);
    }
}

/// Direction from the first finger to the second.
fn compute_direction(p: FingerPair) -> (d: (i128, i128))
    requires
        on_screen(p.a),
        on_screen(p.b),
    ensures
        (d.0 as int, d.1 as int) == direction(p),
        -0x1000_0000 <= d.0 <= 0x1000_0000,
        -0x1000_0000 <= d.1 <= 0x1000_0000,
{
    let dx: i128 = p.b.x as i128 - p.a.x as i128;
    let dy: i128 = p.b.y as i128 - p.a.y as i128;
    if dx == 0 && dy == 0 {
        (1, 0)
    } else {
        (dx, dy)
    }
}

fn is_slight_turn(p: FingerPair, q: FingerPair) -> (b: bool)
    requires
        on_screen(p.a),
        on_screen(p.b),
        on_screen(q.a),
        on_screen(q.b),
    ensures
        b == slight_turn(p, q),
{
    let (ax, ay) = compute_direction(p);
    let (bx, by) = compute_direction(q);
    proof {
        lemma_product_bound(ax as int, bx as int);
        lemma_product_bound(ay as int, by as int);
        lemma_product_bound(ax as int, ax as int);
        lemma_product_bound(ay as int, ay as int);
        lemma_product_bound(bx as int, bx as int);
        lemma_product_bound(by as int, by as int);
    }
    let dot: i128 = ax * bx + ay * by;
    let aa: i128 = ax * ax + ay * ay;
    let bb: i128 = bx * bx + by * by;
    assert(-0x40_0000_0000_0000_0000_0000_0000_0000 <= dot * dot
        <= 0x40_0000_0000_0000_0000_0000_0000_0000) by (nonlinear_arith)
        requires
            -0x200_0000_0000_0000 <= dot <= 0x200_0000_0000_0000,
    ;
    assert(-0x40_0000_0000_0000_0000_0000_0000_0000 <= aa * bb
        <= 0x40_0000_0000_0000_0000_0000_0000_0000) by (nonlinear_arith)
        requires
            -0x200_0000_0000_0000 <= aa <= 0x200_0000_0000_0000,
            -0x200_0000_0000_0000 <= bb <= 0x200_0000_0000_0000,
    ;
    dot > 0 && 4 * (dot * dot) > 3 * (aa * bb)
}

proof fn lemma_product_bound(a: int, b: int)
    requires
        -0x1000_0000 <= a <= 0x1000_0000,
        -0x1000_0000 <= b <= 0x1000_0000,
    ensures
        -0x100_0000_0000_0000 <= a * b <= 0x100_0000_0000_0000,
{
    assert(-0x100_0000_0000_0000 <= a * b <= 0x100_0000_0000_0000) by (nonlinear_arith)
        requires
            -0x1000_0000 <= a <= 0x1000_0000,
            -0x1000_0000 <= b <= 0x1000_0000,
    ;
}

fn compute_pair_action(before: Option<FingerPair>, now: FingerPair) -> (r: MultiTouchAction)
    requires
        before matches Some(p) ==> on_screen(p.a) && on_screen(p.b),
        on_screen(now.a),
        on_screen(now.b),
    ensures
        r == pair_action(before, now),
{
    match before {
        Some(p) => {
            let rise: i64 = (now.a.y as i64 + now.b.y as i64) - (p.a.y as i64 + p.b.y as i64);
            MultiTouchAction {
                before,
                now,
                zoom: gap_squared(p.a, p.b) > 1024 * 1024,
                rotate: is_slight_turn(p, now),
                pitch: if rise > 1024 || rise < -1024 {
                    Some(rise)
                } else {
                    None
                },
            }
        },
        None => MultiTouchAction { before, now, zoom: false, rotate: false, pitch: None },
    }
}

/// Lifting the finger that touched down last leaves the others as they were.
pub proof fn law_touch_lift(touches: Seq<Touch>, id: i32, pos: ScreenPoint)
    requires
        touch_index(touches, id) is None,
    ensures
        lifted(placed(touches, id, pos), id) == touches,
        touch_index(placed(touches, id, pos), id) == Some(touches.len() as int),
{
    let t = touches.push(Touch { id, pos });
    assert(t.last().id == id);
    assert(t.remove(touches.len() as int) =~= touches);
}

/// Moves change neither which fingers are down nor their order.
pub proof fn law_moves_keep_fingers(touches: Seq<Touch>, changes: Seq<Touch>, n: nat)
    requires
        n <= changes.len(),
    ensures
        moved(touches, changes, n).len() == touches.len(),
        forall|i: int|
            0 <= i < touches.len() ==> (#[trigger] moved(touches, changes, n)[i]).id
                == touches[i].id,
    decreases n,
{
    if n > 0 {
        law_moves_keep_fingers(touches, changes, (n - 1) as nat);
        lemma_touch_index(moved(touches, changes, (n - 1) as nat), changes[n - 1].id);
    }
}

/// Fingers that move together keep their distance and direction: the movement can pitch, but
/// turns by nothing and counts as a slight turn.
pub proof fn law_parallel_move(p: FingerPair, dx: i32, dy: i32, q: FingerPair)
    requires
        q.a.x == p.a.x + dx,
        q.a.y == p.a.y + dy,
        q.b.x == p.b.x + dx,
        q.b.y == p.b.y + dy,
    ensures
        direction(p) == direction(q),
        squared_gap(p.a, p.b) == squared_gap(q.a, q.b),
        slight_turn(p, q),
        doubled_rise(p, q) == 2 * dy,
{
    let (x, y) = direction(p);
    let dot = x * x + y * y;
    assert(dot > 0) by (nonlinear_arith)
        requires
            x != 0 || y != 0,
            dot == x * x + y * y,
    ;
    assert(4 * (dot * dot) > 3 * (dot * dot)) by (nonlinear_arith)
        requires
            dot > 0,
    ;
}

/// A finger that touches down is where it touched, known or new; the others stay where they
/// are, and a new one comes last.
pub proof fn law_placed(touches: Seq<Touch>, id: i32, pos: ScreenPoint)
    requires
        distinct_ids(touches),
    ensures
        ({
            let after = placed(touches, id, pos);
            let known = exists|i: int| 0 <= i < touches.len() && (#[trigger] touches[i]).id == id;
            &&& after.len() == (if known {
                touches.len()
            } else {
                touches.len() + 1
            })
            &&& forall|i: int|
                0 <= i < touches.len() ==> (#[trigger] after[i]).id == touches[i].id && after[i].pos
                    == (if touches[i].id == id {
                    pos
                } else {
                    touches[i].pos
                })
            &&& !known ==> after.last().id == id && after.last().pos == pos
        }),
{
    lemma_touch_index(touches, id);
}

/// A lifted finger is gone; the others are still there, where they were.
pub proof fn law_lifted(touches: Seq<Touch>, id: i32, t: Touch)
    requires
        distinct_ids(touches),
    ensures
        lifted(touches, id).contains(t) <==> touches.contains(t) && t.id != id,
        lifted(touches, id).len() <= touches.len() <= lifted(touches, id).len() + 1,
{
    lemma_touch_index(touches, id);
    let after = lifted(touches, id);
    match touch_index(touches, id) {
        Some(i) => {
            if after.contains(t) {
                let k = choose|k: int| 0 <= k < after.len() && after[k] == t;
                let j = if k < i {
                    k
                } else {
                    k + 1
                };
                assert(touches[j] == t);
                assert(touches[i].id == id);
                if t.id == id {
                    assert(touches[j].id == touches[i].id);
                }
            }
            if touches.contains(t) && t.id != id {
                let j = choose|j: int| 0 <= j < touches.len() && touches[j] == t;
                let k = if j < i {
                    j
                } else {
                    j - 1
                };
                assert(after[k] == t);
            }
        },
        None => {
            if touches.contains(t) {
                let j = choose|j: int| 0 <= j < touches.len() && touches[j] == t;
            }
        },
    }
}

/// After moves, each finger is where the last move of it put it, and where it was if none did.
pub proof fn law_moved(touches: Seq<Touch>, changes: Seq<Touch>, n: nat, i: int)
    requires
        distinct_ids(touches),
        n <= changes.len(),
        0 <= i < touches.len(),
    ensures
        moved(touches, changes, n).len() == touches.len(),
        moved(touches, changes, n)[i].id == touches[i].id,
        (forall|k: int| 0 <= k < n ==> (#[trigger] changes[k]).id != touches[i].id) ==> moved(
            touches,
            changes,
            n,
        )[i].pos == touches[i].pos,
        forall|k: int|
            0 <= k < n && (#[trigger] changes[k]).id == touches[i].id && (forall|j: int|
                k < j < n ==> (#[trigger] changes[j]).id != touches[i].id) ==> moved(
                touches,
                changes,
                n,
            )[i].pos == changes[k].pos,
    decreases n,
{
    if n > 0 {
        let m = (n - 1) as nat;
        let before = moved(touches, changes, m);
        law_moved(touches, changes, m, i);
        law_moves_keep_fingers(touches, changes, m);
        lemma_touch_index(before, changes[n - 1].id);
        match touch_index(before, changes[n - 1].id) {
            Some(at) => {
                assert(before[at].id == touches[at].id);
                if at != i {
                    if at < i {
                        assert(touches[at].id != touches[i].id);
                    } else {
                        assert(touches[i].id != touches[at].id);
                    }
                }
            },
            None => {
                assert(before[i].id != changes[n - 1].id);
            },
        }
    }
}

/// One finger pans the map along with it: from where it was to where the moves put it. It does
/// so once the grace period is over, which lasts twice as long after more fingers were down.
pub proof fn law_pan(s: TouchGestureState, changes: Seq<Touch>, now: i64)
    requires
        s.wf(),
    ensures
        s.action_for(changes, now) matches Some(GestureAction::Pan { from, to }) ==> {
            &&& s.touches@.len() == 1
            &&& changes.len() > 0
            &&& changes[0].id == s.touches@[0].id
            &&& from == s.touches@[0].pos
            &&& to == changes[0].pos
            &&& (forall|k: int| 0 < k < changes.len() ==> (#[trigger] changes[k]).id != changes[0].id)
                ==> to == moved(s.touches@, changes, changes.len())[0].pos
        },
        s.touches@.len() == 1 && changes.len() > 0 && changes[0].id == s.touches@[0].id && (
        s.prev_count == 0 || now >= s.count_change_time + 80_000) && (s.prev_count <= 1 || now
            >= s.count_change_time + 160_000) ==> s.action_for(changes, now) matches Some(
            GestureAction::Pan { .. },
        ),
        s.touches@.len() == 1 && s.prev_count > 1 && now < s.count_change_time + 160_000
            ==> s.action_for(changes, now) is None,
{
    law_moves_keep_fingers(s.touches@, changes, changes.len());
    if changes.len() > 0 {
        lemma_touch_index(s.touches@, changes[0].id);
    }
    if s.touches@.len() == 1 {
        law_moved(s.touches@, changes, changes.len(), 0);
        if changes.len() > 0 {
            assert(s.touches@[0].id == changes[0].id ==> touch_index(s.touches@, changes[0].id)
                is Some);
        }
    }
}

/// Nothing comes of moves within 80 milliseconds of a change of the number of fingers, unless
/// none was down before, nor of moves of more than two fingers.
pub proof fn law_no_gesture(s: TouchGestureState, changes: Seq<Touch>, now: i64)
    requires
        (s.prev_count > 0 && now < s.count_change_time + 80_000) || s.touches@.len() == 0
            || s.touches@.len() > 2,
    ensures
        s.action_for(changes, now) is None,
{
    law_moves_keep_fingers(s.touches@, changes, changes.len());
}

/// Two fingers are measured from where they were last to where they are now, in order of
/// arrival. They zoom where they were more than a pixel apart, rotate where their direction
/// turned by less than 30 degrees, and pitch by the vertical way of their midpoint where that is
/// more than half a pixel.
pub proof fn law_two_fingers(s: TouchGestureState, changes: Seq<Touch>, now: i64)
    requires
        s.wf(),
        s.touches@.len() == 2,
        s.prev_count == 0 || now >= s.count_change_time + 80_000,
        forall|i: int| 0 <= i < changes.len() ==> on_screen((#[trigger] changes[i]).pos),
    ensures
        s.action_for(changes, now) matches Some(GestureAction::MultiTouch { action }) && {
            let after = moved(s.touches@, changes, changes.len());
            &&& action.now.a == after[0].pos
            &&& action.now.b == after[1].pos
            &&& action.before == s.prev_pair
            &&& s.prev_pair is None ==> !action.zoom && !action.rotate && action.pitch is None
            &&& s.prev_pair matches Some(p) ==> {
                let ax = p.b.x - p.a.x;
                let ay = p.b.y - p.a.y;
                let bx = after[1].pos.x - after[0].pos.x;
                let by = after[1].pos.y - after[0].pos.y;
                let dot = ax * bx + ay * by;
                let rise = (after[0].pos.y + after[1].pos.y) - (p.a.y + p.b.y);
                &&& action.zoom <==> ax * ax + ay * ay > 1024 * 1024
                &&& (ax != 0 || ay != 0) && (bx != 0 || by != 0) ==> (action.rotate <==> dot > 0 && 4
                    * (dot * dot) > 3 * ((ax * ax + ay * ay) * (bx * bx + by * by)))
                &&& rise > 1024 || rise < -1024 ==> action.pitch == Some(rise as i64)
                &&& -1024 <= rise <= 1024 ==> action.pitch is None
            }
        },
{
    law_moves_keep_fingers(s.touches@, changes, changes.len());
    match s.prev_pair {
        Some(p) => {
            law_squared_gap(p.a, p.b, p.b.x - p.a.x, p.b.y - p.a.y);
        },
        None => {},
    }
}

} // verus!
