//! Filling the holes of a rasterized height grid from neighbouring cells.

use crate::sequences::gather;
use vstd::prelude::*;

verus! {

/// One cell to fill, with the neighbours whose average it takes.
#[derive(Debug, Clone, Copy, PartialEq, Eq, Structural)]
pub struct GapFill {
    pub cell: usize,
    pub above: Option<usize>,
    pub below: Option<usize>,
    pub left: Option<usize>,
    pub right: Option<usize>,
}

/// The cell in row `row` and column `col` is inside the grid and filled.
pub open spec fn is_filled(filled: Seq<bool>, gs: int, row: int, col: int) -> bool {
    0 <= row < gs && 0 <= col < gs && filled[row * gs + col]
}

/// The cell's number where it is filled.
pub open spec fn filled_cell(filled: Seq<bool>, gs: int, row: int, col: int) -> Option<usize> {
    if is_filled(filled, gs, row, col) {
        Some((row * gs + col) as usize)
    } else {
        None
    }
}

/// One of the four neighbours is filled.
pub open spec fn has_filled_neighbour(filled: Seq<bool>, gs: int, row: int, col: int) -> bool {
    ||| is_filled(filled, gs, row - 1, col)
    ||| is_filled(filled, gs, row + 1, col)
    ||| is_filled(filled, gs, row, col - 1)
    ||| is_filled(filled, gs, row, col + 1)
}

/// What a pass does with cell `i`.
pub open spec fn fill_of(filled: Seq<bool>, gs: int) -> spec_fn(int) -> Option<GapFill> {
    |i: int|
        {
            let row = i / gs;
            let col = i % gs;
            if !filled[i] && has_filled_neighbour(filled, gs, row, col) {
                Some(
                    GapFill {
                        cell: i as usize,
                        above: filled_cell(filled, gs, row - 1, col),
                        below: filled_cell(filled, gs, row + 1, col),
                        left: filled_cell(filled, gs, row, col - 1),
                        right: filled_cell(filled, gs, row, col + 1),
                    },
                )
            } else {
                None
            }
        }
}

/// The cells that one pass fills, row by row.
pub open spec fn pass_fills(filled: Seq<bool>, gs: int) -> Seq<GapFill> {
    gather(filled.len(), fill_of(filled, gs))
}

/// Which cells are filled after one pass.
pub open spec fn after_pass(filled: Seq<bool>, gs: int) -> Seq<bool> {
    Seq::new(
        filled.len(),
        |i: int| filled[i] || has_filled_neighbour(filled, gs, i / gs, i % gs),
    )
}

/// Which cells are filled after `k` passes.
pub open spec fn after_passes(filled: Seq<bool>, gs: int, k: nat) -> Seq<bool>
    decreases k,
{
    if k == 0 {
        filled
    } else {
        after_pass(after_passes(filled, gs, (k - 1) as nat), gs)
    }
}

/// All fills of `passes` passes, pass by pass.
pub open spec fn fill_plan(filled: Seq<bool>, gs: int, passes: nat) -> Seq<GapFill>
    decreases passes,
{
    if passes == 0 {
        Seq::empty()
    } else {
        pass_fills(filled, gs) + fill_plan(after_pass(filled, gs), gs, (passes - 1) as nat)
    }
}

/// The number of the cell in row `row` and column `col` tells both.
pub proof fn lemma_cell(row: int, col: int, gs: int)
    requires
        0 <= row < gs,
        0 <= col < gs,
    ensures
        0 <= row * gs + col < gs * gs,
        (row * gs + col) / gs == row,
        (row * gs + col) % gs == col,
{
    assert(0 <= row * gs + col < gs * gs) by (nonlinear_arith)
        requires
            0 <= row < gs,
            0 <= col < gs,
    ;
    vstd::arithmetic::div_mod::lemma_fundamental_div_mod_converse(row * gs + col, gs, row, col);
}

/// Every cell number has a row and a column.
pub proof fn lemma_row_col(i: int, gs: int)
    requires
        0 <= i < gs * gs,
        gs >= 0,
    ensures
        gs > 0,
        0 <= i / gs < gs,
        0 <= i % gs < gs,
        (i / gs) * gs + i % gs == i,
{
    assert(gs > 0) by (nonlinear_arith)
        requires
            0 <= i < gs * gs,
            gs >= 0,
    ;
    vstd::arithmetic::div_mod::lemma_fundamental_div_mod(i, gs);
    assert(0 <= i / gs < gs) by (nonlinear_arith)
        requires
            gs > 0,
            0 <= i < gs * gs,
    ;
    assert((i / gs) * gs == gs * (i / gs)) by (nonlinear_arith);
}

/// The number of a cell where it is inside the grid and filled.
fn look(filled: &Vec<bool>, gs: usize, row: usize, col: usize) -> (r: Option<usize>)
    requires
        filled@.len() == gs * gs,
        row <= gs,
        col <= gs,
    ensures
        r == filled_cell(filled@, gs as int, row as int, col as int),
{
    if row < gs && col < gs {
        let total: usize = filled.len();
        proof {
            assert(total == gs * gs);
            lemma_cell(row as int, col as int, gs as int);
            assert(0 <= row * gs <= gs * gs) by (nonlinear_arith)
                requires
                    0 <= row < gs,
            ;
        }
        let i: usize = row * gs + col;
        if filled[i] {
            Some(i)
        } else {
            None
        }
    } else {
        None
    }
}

/// Plan how unfilled cells take the average of their filled neighbours, pass after pass, until
/// nothing changes or as many passes as the grid has rows are done.
pub fn fill_gaps(filled: &[bool], gs: usize) -> (plan: Vec<GapFill>)
    requires
        filled@.len() == gs * gs,
    ensures
        plan@ == fill_plan(filled@, gs as int, gs as nat),
{
    let mut current: Vec<bool> = Vec::new();
    let mut c: usize = 0;
    while c < filled.len()
        invariant
            c <= filled@.len(),
            current@ == filled@.take(c as int),
        decreases filled@.len() - c,
    {
        current.push(filled[c]);
        assert(current@ =~= filled@.take(c + 1));
        c = c + 1;
    }
    assert(current@ =~= filled@);
    let mut plan: Vec<GapFill> = Vec::new();
    let mut pass: usize = 0;
    assert(plan@ + fill_plan(current@, gs as int, gs as nat) =~= fill_plan(
        filled@,
        gs as int,
        gs as nat,
    ));
    while pass < gs
        invariant_except_break
            pass <= gs,
            current@.len() == gs * gs,
            fill_plan(filled@, gs as int, gs as nat) == plan@ + fill_plan(
                current@,
                gs as int,
                (gs - pass) as nat,
            ),
        ensures
            plan@ == fill_plan(filled@, gs as int, gs as nat),
        decreases gs - pass,
    {
        let ghost start = plan@;
        let ghost prev = current@;
        let next = run_pass(&current, gs, &mut plan);
        let ghost fills = pass_fills(prev, gs as int);
        let changed: bool = next.1;
        current = next.0;
        proof {
            let rest = fill_plan(current@, gs as int, (gs - pass - 1) as nat);
            assert(start + (fills + rest) =~= (start + fills) + rest);
        }
        if !changed {
            proof {
                lemma_settled(prev, gs as int, (gs - pass) as nat);
                assert(plan@ =~= fill_plan(filled@, gs as int, gs as nat));
            }
            break ;
        }
        pass = pass + 1;
        proof {
            if pass == gs {
                assert(plan@ =~= fill_plan(filled@, gs as int, gs as nat));
            }
        }
    }
    plan
}

/// A pass that fills nothing leaves nothing for later passes.
proof fn lemma_settled(filled: Seq<bool>, gs: int, passes: nat)
    requires
        pass_fills(filled, gs).len() == 0,
        gs >= 0,
        filled.len() == gs * gs,
    ensures
        fill_plan(filled, gs, passes) == Seq::<GapFill>::empty(),
        after_pass(filled, gs) == filled,
    decreases passes,
{
    assert(after_pass(filled, gs) =~= filled) by {
        assert forall|i: int| 0 <= i < filled.len() implies after_pass(filled, gs)[i]
            == filled[i] by {
            if !filled[i] && has_filled_neighbour(filled, gs, i / gs, i % gs) {
                let f = fill_of(filled, gs)(i).unwrap();
                crate::sequences::lemma_gather_contains(filled.len(), fill_of(filled, gs), f);
                assert(fill_of(filled, gs)(i) == Some(f));
                assert(pass_fills(filled, gs).contains(f));
            }
        }
    }
    if passes > 0 {
        lemma_settled(filled, gs, (passes - 1) as nat);
        assert(fill_plan(filled, gs, passes) =~= Seq::<GapFill>::empty());
    }
}

/// One pass: append its fills to the plan; returns the new state and whether it changed.
fn run_pass(prev: &Vec<bool>, gs: usize, plan: &mut Vec<GapFill>) -> (r: (Vec<bool>, bool))
    requires
        prev@.len() == gs * gs,
    ensures
        final(plan)@ == old(plan)@ + pass_fills(prev@, gs as int),
        r.0@ == after_pass(prev@, gs as int),
        r.1 == (pass_fills(prev@, gs as int).len() > 0),
{
    let ghost start = plan@;
    let ghost rule = fill_of(prev@, gs as int);
    let ghost target = after_pass(prev@, gs as int);
    let mut next: Vec<bool> = Vec::new();
    let mut changed = false;
    let mut i: usize = 0;
    let mut row: usize = 0;
    let mut col: usize = 0;
    while i < prev.len()
        invariant
            i <= prev@.len(),
            prev@.len() == gs * gs,
            i < prev@.len() ==> row < gs && col < gs && row * gs + col == i,
            rule == fill_of(prev@, gs as int),
            target == after_pass(prev@, gs as int),
            plan@ == start + gather(i as nat, rule),
            next@ == target.take(i as int),
            changed == (gather(i as nat, rule).len() > 0),
        decreases prev@.len() - i,
    {
        proof {
            lemma_cell(row as int, col as int, gs as int);
        }
        let known: bool = prev[i];
        let above: Option<usize> = if row > 0 {
            look(prev, gs, row - 1, col)
        } else {
            None
        };
        let below: Option<usize> = look(prev, gs, row + 1, col);
        let left: Option<usize> = if col > 0 {
            look(prev, gs, row, col - 1)
        } else {
            None
        };
        let right: Option<usize> = look(prev, gs, row, col + 1);
        let near: bool = above.is_some() || below.is_some() || left.is_some() || right.is_some();
        assert(near == has_filled_neighbour(prev@, gs as int, row as int, col as int));
        if !known && near {
            plan.push(GapFill { cell: i, above, below, left, right });
            changed = true;
        }
        next.push(known || near);
        proof {
            assert(plan@ =~= start + gather((i + 1) as nat, rule));
            assert(next@ =~= target.take(i + 1));
            if i + 1 < prev@.len() {
                lemma_row_col(i + 1, gs as int);
            }
        }
        i = i + 1;
        if col + 1 < gs {
            col = col + 1;
        } else {
            proof {
                assert((row + 1) * gs == row * gs + gs) by (nonlinear_arith);
                if i < prev@.len() {
                    assert(row + 1 < gs) by (nonlinear_arith)
                        requires
                            (row + 1) * gs < gs * gs,
                            gs >= 0,
                    ;
                }
            }
            col = 0;
            row = row + 1;
        }
    }
    assert(next@ =~= target);
    (next, changed)
}

/// Some initially filled cell is at most `k` steps away.
pub open spec fn within_reach(filled: Seq<bool>, gs: int, row: int, col: int, k: int) -> bool {
    exists|r: int, c: int| #[trigger]
        is_filled(filled, gs, r, c) && steps_between(row, col, r, c) <= k
}

/// Number of horizontal and vertical steps between two cells.
pub open spec fn steps_between(row: int, col: int, r: int, c: int) -> int {
    (if row >= r {
        row - r
    } else {
        r - row
    }) + (if col >= c {
        col - c
    } else {
        c - col
    })
}

/// After `k` passes exactly the cells within `k` steps of an initially filled one are filled.
pub proof fn law_fill_reach(filled: Seq<bool>, gs: int, k: nat, row: int, col: int)
    requires
        gs >= 0,
        filled.len() == gs * gs,
        0 <= row < gs,
        0 <= col < gs,
    ensures
        after_passes(filled, gs, k).len() == filled.len(),
        is_filled(after_passes(filled, gs, k), gs, row, col) <==> within_reach(
            filled,
            gs,
            row,
            col,
            k as int,
        ),
    decreases k,
{
    if k == 0 {
        if is_filled(filled, gs, row, col) {
            assert(steps_between(row, col, row, col) == 0);
        }
    } else {
        let prev = after_passes(filled, gs, (k - 1) as nat);
        let j = (k - 1) as nat;
        law_fill_reach(filled, gs, j, row, col);
        lemma_cell(row, col, gs);
        let i = row * gs + col;
        assert(after_passes(filled, gs, k)[i] == (prev[i] || has_filled_neighbour(
            prev,
            gs,
            row,
            col,
        )));
        if row > 0 {
            law_fill_reach(filled, gs, j, row - 1, col);
        }
        if row + 1 < gs {
            law_fill_reach(filled, gs, j, row + 1, col);
        }
        if col > 0 {
            law_fill_reach(filled, gs, j, row, col - 1);
        }
        if col + 1 < gs {
            law_fill_reach(filled, gs, j, row, col + 1);
        }
        if is_filled(after_passes(filled, gs, k), gs, row, col) {
            if prev[i] {
                let (r, c) = choose|r: int, c: int| #[trigger]
                    is_filled(filled, gs, r, c) && steps_between(row, col, r, c) <= j;
                assert(is_filled(filled, gs, r, c));
            } else if is_filled(prev, gs, row - 1, col) {
                let (r, c) = choose|r: int, c: int| #[trigger]
                    is_filled(filled, gs, r, c) && steps_between(row - 1, col, r, c) <= j;
                assert(is_filled(filled, gs, r, c) && steps_between(row, col, r, c) <= k);
            } else if is_filled(prev, gs, row + 1, col) {
                let (r, c) = choose|r: int, c: int| #[trigger]
                    is_filled(filled, gs, r, c) && steps_between(row + 1, col, r, c) <= j;
                assert(is_filled(filled, gs, r, c) && steps_between(row, col, r, c) <= k);
            } else if is_filled(prev, gs, row, col - 1) {
                let (r, c) = choose|r: int, c: int| #[trigger]
                    is_filled(filled, gs, r, c) && steps_between(row, col - 1, r, c) <= j;
                assert(is_filled(filled, gs, r, c) && steps_between(row, col, r, c) <= k);
            } else {
                let (r, c) = choose|r: int, c: int| #[trigger]
                    is_filled(filled, gs, r, c) && steps_between(row, col + 1, r, c) <= j;
                assert(is_filled(filled, gs, r, c) && steps_between(row, col, r, c) <= k);
            }
        }
        if within_reach(filled, gs, row, col, k as int) {
            let (r, c) = choose|r: int, c: int| #[trigger]
                is_filled(filled, gs, r, c) && steps_between(row, col, r, c) <= k;
            if steps_between(row, col, r, c) <= j {
                assert(within_reach(filled, gs, row, col, j as int));
            } else if row > r {
                assert(steps_between(row - 1, col, r, c) <= j);
                assert(within_reach(filled, gs, row - 1, col, j as int));
            } else if row < r {
                assert(steps_between(row + 1, col, r, c) <= j);
                assert(within_reach(filled, gs, row + 1, col, j as int));
            } else if col > c {
                assert(steps_between(row, col - 1, r, c) <= j);
                assert(within_reach(filled, gs, row, col - 1, j as int));
            } else {
                assert(steps_between(row, col + 1, r, c) <= j);
                assert(within_reach(filled, gs, row, col + 1, j as int));
            }
        }
    }
}

/// The plan never touches a cell that was filled from the start.
pub proof fn law_fill_keeps(filled: Seq<bool>, gs: int, passes: nat, f: GapFill)
    requires
        gs >= 0,
        filled.len() == gs * gs,
        filled.len() <= usize::MAX,
        fill_plan(filled, gs, passes).contains(f),
    ensures
        f.cell < filled.len(),
        !filled[f.cell as int],
    decreases passes,
{
    if passes > 0 {
        let head = pass_fills(filled, gs);
        let rest = fill_plan(after_pass(filled, gs), gs, (passes - 1) as nat);
        let k = choose|k: int|
            0 <= k < fill_plan(filled, gs, passes).len() && fill_plan(filled, gs, passes)[k] == f;
        if k < head.len() {
            assert(head[k] == f);
            assert(head.contains(f));
            crate::sequences::lemma_gather_contains(filled.len(), fill_of(filled, gs), f);
        } else {
            assert(rest[k - head.len()] == f);
            assert(rest.contains(f));
            law_fill_keeps(after_pass(filled, gs), gs, (passes - 1) as nat, f);
            assert(!after_pass(filled, gs)[f.cell as int]);
        }
    }
}

/// The neighbours that a fill averages.
pub open spec fn averaged_cells(f: GapFill) -> Seq<usize> {
    gather(
        4,
        |k: int|
            if k == 0 {
                f.above
            } else if k == 1 {
                f.below
            } else if k == 2 {
                f.left
            } else {
                f.right
            },
    )
}

/// The values that a fill averages.
pub open spec fn averaged<T>(values: Seq<T>, f: GapFill) -> Seq<T> {
    averaged_cells(f).map_values(|k: usize| values[k as int])
}

/// The values of a grid once the fills are carried out in order.
pub open spec fn after_fills<T>(
    values: Seq<T>,
    fills: Seq<GapFill>,
    average: spec_fn(Seq<T>) -> T,
) -> Seq<T>
    decreases fills.len(),
{
    if fills.len() == 0 {
        values
    } else {
        let before = after_fills(values, fills.drop_last(), average);
        let f = fills.last();
        before.update(f.cell as int, average(averaged(before, f)))
    }
}

/// All values are `v`.
pub open spec fn all_equal<T>(s: Seq<T>, v: T) -> bool {
    forall|i: int| 0 <= i < s.len() ==> #[trigger] s[i] == v
}

/// The average of equal values is that value.
pub open spec fn is_average<T>(average: spec_fn(Seq<T>) -> T) -> bool {
    forall|s: Seq<T>, v: T| s.len() > 0 && #[trigger] all_equal(s, v) ==> average(s) == v
}

/// Every filled cell at most `d` steps away holds `v`.
pub open spec fn holds_around<T>(
    values: Seq<T>,
    filled: Seq<bool>,
    gs: int,
    row: int,
    col: int,
    d: int,
    v: T,
) -> bool {
    forall|r: int, c: int| #[trigger]
        is_filled(filled, gs, r, c) && steps_between(row, col, r, c) <= d ==> values[r * gs + c]
            == v
}

/// The filled cell in row `r` and column `c` is nearer than any other.
pub open spec fn is_only_nearest(
    filled: Seq<bool>,
    gs: int,
    row: int,
    col: int,
    r: int,
    c: int,
) -> bool {
    &&& is_filled(filled, gs, r, c)
    &&& forall|a: int, b: int| #[trigger]
        is_filled(filled, gs, a, b) && (a != r || b != c) ==> steps_between(row, col, r, c)
            < steps_between(row, col, a, b)
}

proof fn lemma_fills_join<T>(
    values: Seq<T>,
    a: Seq<GapFill>,
    b: Seq<GapFill>,
    average: spec_fn(Seq<T>) -> T,
)
    ensures
        after_fills(values, a + b, average) == after_fills(
            after_fills(values, a, average),
            b,
            average,
        ),
    decreases b.len(),
{
    if b.len() == 0 {
        assert(a + b =~= a);
    } else {
        lemma_fills_join(values, a, b.drop_last(), average);
        assert((a + b).drop_last() =~= a + b.drop_last());
        assert((a + b).last() == b.last());
    }
}

/// The neighbours that a fill averages are those that are there.
proof fn lemma_averaged_cells(f: GapFill)
    ensures
        averaged_cells(f).len() > 0 <==> f.above is Some || f.below is Some || f.left is Some
            || f.right is Some,
        forall|k: int|
            0 <= k < averaged_cells(f).len() ==> {
                let n = Some(#[trigger] averaged_cells(f)[k]);
                f.above == n || f.below == n || f.left == n || f.right == n
            },
{
    reveal_with_fuel(gather, 5);
}

/// A pass reads only cells that were filled before it, and writes each of the others at most
/// once.
proof fn lemma_pass_values<T>(
    values: Seq<T>,
    filled: Seq<bool>,
    gs: int,
    n: nat,
    average: spec_fn(Seq<T>) -> T,
)
    requires
        gs >= 0,
        filled.len() == gs * gs,
        filled.len() <= usize::MAX,
        values.len() == filled.len(),
        n <= filled.len(),
    ensures
        ({
            let rule = fill_of(filled, gs);
            let after = after_fills(values, gather(n, rule), average);
            &&& after.len() == values.len()
            &&& forall|i: int|
                0 <= i < values.len() ==> #[trigger] after[i] == (if i < n && rule(i) is Some {
                    average(averaged(values, rule(i).unwrap()))
                } else {
                    values[i]
                })
        }),
    decreases n,
{
    if n > 0 {
        let rule = fill_of(filled, gs);
        let m = (n - 1) as nat;
        lemma_pass_values(values, filled, gs, m, average);
        let before = after_fills(values, gather(m, rule), average);
        match rule(n - 1) {
            Some(f) => {
                let fills = gather(n, rule);
                assert(fills.drop_last() =~= gather(m, rule));
                assert(fills.last() == f);
                lemma_row_col(n - 1, gs);
                lemma_averaged_cells(f);
                lemma_fill_reads(filled, gs, n - 1);
                assert(averaged(before, f) =~= averaged(values, f)) by {
                    assert forall|k: int| 0 <= k < averaged_cells(f).len() implies #[trigger]
                        averaged(before, f)[k] == averaged(values, f)[k] by {
                        let at = averaged_cells(f)[k] as int;
                        assert(0 <= at < filled.len() && filled[at]);
                        assert(rule(at) is None);
                        assert(before[at] == values[at]);
                    }
                }
            },
            None => {},
        }
    }
}

/// The neighbours that the fill of cell `i` averages are filled cells one step away.
proof fn lemma_fill_reads(filled: Seq<bool>, gs: int, i: int)
    requires
        gs >= 0,
        filled.len() == gs * gs,
        filled.len() <= usize::MAX,
        0 <= i < filled.len(),
        fill_of(filled, gs)(i) is Some,
    ensures
        ({
            let f = fill_of(filled, gs)(i).unwrap();
            let row = i / gs;
            let col = i % gs;
            &&& averaged_cells(f).len() > 0
            &&& forall|k: int|
                0 <= k < averaged_cells(f).len() ==> {
                    let at = #[trigger] averaged_cells(f)[k] as int;
                    &&& 0 <= at < filled.len()
                    &&& filled[at]
                    &&& is_filled(filled, gs, at / gs, at % gs)
                    &&& (at / gs) * gs + at % gs == at
                    &&& steps_between(row, col, at / gs, at % gs) == 1
                }
        }),
{
    let f = fill_of(filled, gs)(i).unwrap();
    let row = i / gs;
    let col = i % gs;
    lemma_row_col(i, gs);
    lemma_averaged_cells(f);
    lemma_neighbour(filled, gs, row - 1, col);
    lemma_neighbour(filled, gs, row + 1, col);
    lemma_neighbour(filled, gs, row, col - 1);
    lemma_neighbour(filled, gs, row, col + 1);
}

proof fn lemma_neighbour(filled: Seq<bool>, gs: int, row: int, col: int)
    requires
        gs >= 0,
        filled.len() == gs * gs,
        filled.len() <= usize::MAX,
    ensures
        filled_cell(filled, gs, row, col) matches Some(at) ==> {
            &&& 0 <= at < filled.len()
            &&& filled[at as int]
            &&& at as int / gs == row
            &&& at as int % gs == col
            &&& is_filled(filled, gs, row, col)
            &&& row * gs + col == at
        },
{
    if is_filled(filled, gs, row, col) {
        lemma_cell(row, col, gs);
    }
}

/// One pass brings the values nearer: what every filled cell within `d` steps holds, every cell
/// within one step less holds after it.
proof fn lemma_pass_spreads<T>(
    values: Seq<T>,
    filled: Seq<bool>,
    gs: int,
    average: spec_fn(Seq<T>) -> T,
    row: int,
    col: int,
    d: int,
    v: T,
)
    requires
        gs >= 0,
        filled.len() == gs * gs,
        filled.len() <= usize::MAX,
        values.len() == filled.len(),
        is_average(average),
        d > 0,
        holds_around(values, filled, gs, row, col, d, v),
    ensures
        holds_around(
            after_fills(values, pass_fills(filled, gs), average),
            after_pass(filled, gs),
            gs,
            row,
            col,
            d - 1,
            v,
        ),
{
    let rule = fill_of(filled, gs);
    let next = after_pass(filled, gs);
    let after = after_fills(values, pass_fills(filled, gs), average);
    lemma_pass_values(values, filled, gs, filled.len(), average);
    assert forall|r: int, c: int| #[trigger]
        is_filled(next, gs, r, c) && steps_between(row, col, r, c) <= d - 1 implies after[r * gs
        + c] == v by {
        let i = r * gs + c;
        lemma_cell(r, c, gs);
        if filled[i] {
            assert(is_filled(filled, gs, r, c));
            assert(rule(i) is None);
        } else {
            assert(rule(i) is Some);
            let f = rule(i).unwrap();
            let read = averaged(values, f);
            lemma_fill_reads(filled, gs, i);
            assert forall|k: int| 0 <= k < read.len() implies #[trigger] read[k] == v by {
                let at = averaged_cells(f)[k] as int;
                assert(is_filled(filled, gs, at / gs, at % gs));
                assert(steps_between(row, col, at / gs, at % gs) <= d);
            }
            assert(all_equal(read, v));
        }
    }
}

/// A cell whose nearest filled cells hold the same value receives it, whatever way of averaging
/// is used, if the passes reach it: every filled cell within some number of steps holds `v`, and
/// there is one.
pub proof fn law_fill_agreeing<T>(
    values: Seq<T>,
    filled: Seq<bool>,
    gs: int,
    passes: nat,
    average: spec_fn(Seq<T>) -> T,
    row: int,
    col: int,
    d: int,
    v: T,
)
    requires
        gs >= 0,
        filled.len() == gs * gs,
        filled.len() <= usize::MAX,
        values.len() == filled.len(),
        is_average(average),
        0 <= row < gs,
        0 <= col < gs,
        0 <= d <= passes,
        within_reach(filled, gs, row, col, d),
        holds_around(values, filled, gs, row, col, d, v),
    ensures
        after_fills(values, fill_plan(filled, gs, passes), average)[row * gs + col] == v,
    decreases passes,
{
    if passes == 0 {
        let (r, c) = choose|r: int, c: int| #[trigger]
            is_filled(filled, gs, r, c) && steps_between(row, col, r, c) <= d;
        assert(r == row && c == col);
        assert(is_filled(filled, gs, row, col));
    } else {
        let next = after_pass(filled, gs);
        let after = after_fills(values, pass_fills(filled, gs), average);
        let rest = fill_plan(next, gs, (passes - 1) as nat);
        lemma_fills_join(values, pass_fills(filled, gs), rest, average);
        lemma_pass_values(values, filled, gs, filled.len(), average);
        if d == 0 {
            lemma_cell(row, col, gs);
            assert(is_filled(filled, gs, row, col)) by {
                let (r, c) = choose|r: int, c: int| #[trigger]
                    is_filled(filled, gs, r, c) && steps_between(row, col, r, c) <= d;
                assert(r == row && c == col);
            }
            assert(fill_of(filled, gs)(row * gs + col) is None);
            assert(is_filled(next, gs, row, col));
            assert(steps_between(row, col, row, col) <= 0);
            law_fill_agreeing(after, next, gs, (passes - 1) as nat, average, row, col, 0, v);
        } else {
            lemma_pass_spreads(values, filled, gs, average, row, col, d, v);
            lemma_pass_nearer(filled, gs, row, col, d);
            law_fill_agreeing(after, next, gs, (passes - 1) as nat, average, row, col, d - 1, v);
        }
    }
}

/// One pass brings a filled cell one step nearer.
proof fn lemma_pass_nearer(filled: Seq<bool>, gs: int, row: int, col: int, d: int)
    requires
        gs >= 0,
        filled.len() == gs * gs,
        0 <= row < gs,
        0 <= col < gs,
        d > 0,
        within_reach(filled, gs, row, col, d),
    ensures
        within_reach(after_pass(filled, gs), gs, row, col, d - 1),
{
    let next = after_pass(filled, gs);
    let (r, c) = choose|r: int, c: int| #[trigger]
        is_filled(filled, gs, r, c) && steps_between(row, col, r, c) <= d;
    let (a, b) = if r > row {
        (r - 1, c)
    } else if r < row {
        (r + 1, c)
    } else if c > col {
        (r, c - 1)
    } else if c < col {
        (r, c + 1)
    } else {
        (r, c)
    };
    lemma_cell(a, b, gs);
    assert(has_filled_neighbour(filled, gs, a, b) || is_filled(filled, gs, a, b));
    assert(is_filled(next, gs, a, b));
    assert(steps_between(row, col, a, b) <= d - 1);
}

/// A cell that has one nearest filled cell receives that cell's value, if the passes reach it:
/// it is at most as many steps away as there are passes.
pub proof fn law_fill_nearest<T>(
    values: Seq<T>,
    filled: Seq<bool>,
    gs: int,
    passes: nat,
    average: spec_fn(Seq<T>) -> T,
    row: int,
    col: int,
    r: int,
    c: int,
)
    requires
        gs >= 0,
        filled.len() == gs * gs,
        filled.len() <= usize::MAX,
        values.len() == filled.len(),
        is_average(average),
        0 <= row < gs,
        0 <= col < gs,
        is_only_nearest(filled, gs, row, col, r, c),
        steps_between(row, col, r, c) <= passes,
    ensures
        after_fills(values, fill_plan(filled, gs, passes), average)[row * gs + col] == values[r * gs
            + c],
{
    let d = steps_between(row, col, r, c);
    assert(within_reach(filled, gs, row, col, d));
    law_fill_agreeing(values, filled, gs, passes, average, row, col, d, values[r * gs + c]);
}

/// Cells that the passes do not reach keep their values, and so do the cells filled from the
/// start.
pub proof fn law_fill_untouched<T>(
    values: Seq<T>,
    filled: Seq<bool>,
    gs: int,
    passes: nat,
    average: spec_fn(Seq<T>) -> T,
    row: int,
    col: int,
)
    requires
        gs >= 0,
        filled.len() == gs * gs,
        filled.len() <= usize::MAX,
        values.len() == filled.len(),
        0 <= row < gs,
        0 <= col < gs,
        is_filled(filled, gs, row, col) || !within_reach(filled, gs, row, col, passes as int),
    ensures
        after_fills(values, fill_plan(filled, gs, passes), average)[row * gs + col] == values[row
            * gs + col],
    decreases passes,
{
    if passes > 0 {
        let rule = fill_of(filled, gs);
        let next = after_pass(filled, gs);
        let after = after_fills(values, pass_fills(filled, gs), average);
        let rest = fill_plan(next, gs, (passes - 1) as nat);
        let i = row * gs + col;
        lemma_cell(row, col, gs);
        lemma_fills_join(values, pass_fills(filled, gs), rest, average);
        lemma_pass_values(values, filled, gs, filled.len(), average);
        if filled[i] {
            assert(rule(i) is None);
        } else {
            assert(rule(i) is None) by {
                if rule(i) is Some {
                    let f = rule(i).unwrap();
                    lemma_fill_reads(filled, gs, i);
                    let at = averaged_cells(f)[0] as int;
                    assert(is_filled(filled, gs, at / gs, at % gs));
                }
            }
            assert(!within_reach(next, gs, row, col, passes - 1)) by {
                if within_reach(next, gs, row, col, passes - 1) {
                    let (r, c) = choose|r: int, c: int| #[trigger]
                        is_filled(next, gs, r, c) && steps_between(row, col, r, c) <= passes - 1;
                    lemma_cell(r, c, gs);
                    if is_filled(filled, gs, r, c) {
                    } else if is_filled(filled, gs, r - 1, c) {
                        assert(steps_between(row, col, r - 1, c) <= passes);
                    } else if is_filled(filled, gs, r + 1, c) {
                        assert(steps_between(row, col, r + 1, c) <= passes);
                    } else if is_filled(filled, gs, r, c - 1) {
                        assert(steps_between(row, col, r, c - 1) <= passes);
                    } else {
                        assert(is_filled(filled, gs, r, c + 1));
                        assert(steps_between(row, col, r, c + 1) <= passes);
                    }
                }
            }
        }
        law_fill_untouched(after, next, gs, (passes - 1) as nat, average, row, col);
    }
}

/// A pass fills exactly the empty cells with a filled neighbour, and averages all filled ones of
/// the four: above and below in the same column, left and right in the same row.
pub proof fn law_fill_neighbours(filled: Seq<bool>, gs: int, i: int)
    requires
        gs >= 0,
        filled.len() == gs * gs,
        filled.len() <= usize::MAX,
        0 <= i < filled.len(),
    ensures
        ({
            let above = i >= gs && filled[i - gs];
            let below = i + gs < filled.len() && filled[i + gs];
            let left = i % gs > 0 && filled[i - 1];
            let right = i % gs < gs - 1 && filled[i + 1];
            let fill = fill_of(filled, gs)(i);
            &&& fill is Some <==> !filled[i] && (above || below || left || right)
            &&& fill matches Some(f) ==> {
                &&& f.cell == i
                &&& f.above is Some <==> above
                &&& f.below is Some <==> below
                &&& f.left is Some <==> left
                &&& f.right is Some <==> right
                &&& f.above matches Some(k) ==> k == i - gs
                &&& f.below matches Some(k) ==> k == i + gs
                &&& f.left matches Some(k) ==> k == i - 1
                &&& f.right matches Some(k) ==> k == i + 1
            }
        }),
{
    lemma_row_col(i, gs);
    let row = i / gs;
    let col = i % gs;
    vstd::arithmetic::mul::lemma_mul_is_distributive_sub_other_way(gs, row, 1);
    vstd::arithmetic::mul::lemma_mul_is_distributive_add_other_way(gs, row, 1);
    assert((row - 1) * gs + col == i - gs);
    assert((row + 1) * gs + col == i + gs);
    if row >= 1 {
        lemma_cell(row - 1, col, gs);
    } else {
        assert(0 * gs == 0);
    }
    if row + 1 < gs {
        lemma_cell(row + 1, col, gs);
    } else {
        assert(row + 1 == gs);
    }
}

/// A fill averages the filled neighbours and nothing else.
pub proof fn law_averaged_cells(f: GapFill, k: usize)
    ensures
        averaged_cells(f).contains(k) <==> f.above == Some(k) || f.below == Some(k) || f.left
            == Some(k) || f.right == Some(k),
{
    let rule = |k: int|
        if k == 0 {
            f.above
        } else if k == 1 {
            f.below
        } else if k == 2 {
            f.left
        } else {
            f.right
        };
    crate::sequences::lemma_gather_contains(4, rule, k);
    assert(averaged_cells(f) == gather(4, rule));
    assert(rule(0) == f.above && rule(1) == f.below && rule(2) == f.left && rule(3) == f.right);
}

} // verus!
