//! Propagation and search as functions on grids: what `eliminate`, `assign`
//! and `search` compute, step by step and in the order in which they do it.
//!
//! The functions that stand for a loop carry a bound on the number of
//! candidates. It is there to show that the definitions are well founded:
//! propagation only strikes candidates, so the bound is never reached, and
//! the lemmas at the end of this file show that its value does not matter.

use vstd::prelude::*;
use crate::board::Outcome;
use crate::candidates::without;
use crate::model::{
    complete, grid_wf, holds, lemma_shrinks_trans, lemma_strike, lemma_total_shrinks, lone, shrinks,
    total, Grid,
};
use crate::topology::{in_unit, is_cell, lemma_peers_contains, peers_of, unit_of};

verus! {

/// No cell of unit `u` lists `v`.
pub open spec fn no_place(g: Grid, u: int, v: usize) -> bool {
    forall|y: int| is_cell(y) && in_unit(u, y) ==> !#[trigger] holds(g, y, v)
}

/// Cell `x` is the one cell of unit `u` that lists `v`.
pub open spec fn is_sole_place(g: Grid, u: int, v: usize, x: int) -> bool {
    is_cell(x) && in_unit(u, x) && holds(g, x, v) && lone(g, u, x, v)
}

/// Exactly one cell of unit `u` lists `v`.
pub open spec fn has_sole_place(g: Grid, u: int, v: usize) -> bool {
    exists|x: int| is_sole_place(g, u, v, x)
}

/// The one cell of unit `u` that lists `v`, where there is exactly one.
pub open spec fn sole_place(g: Grid, u: int, v: usize) -> int {
    choose|x: int| is_sole_place(g, u, v, x)
}

/// What `eliminate` does: the grid it leaves and whether it succeeded.
pub open spec fn strike(g: Grid, c: int, v: usize) -> (Grid, bool)
    decreases total(g), 2nat, 0nat,
{
    if !holds(g, c, v) {
        (g, true)
    } else {
        let g1 = g.update(c, without(g[c], v));
        if g1[c].len() == 0 {
            (g1, false)
        } else {
            let cleared = if g1[c].len() == 1 {
                strike_peers(total(g), g1, c, g1[c][0], 0)
            } else {
                (g1, true)
            };
            if !cleared.1 {
                cleared
            } else {
                serve_units(total(g), cleared.0, c, v, 0)
            }
        }
    }
}

/// Eliminates `d` from the peers of cell `c`, from the `i`-th entry of the
/// peer list on, and stops at the first failure.
pub open spec fn strike_peers(bound: nat, g: Grid, c: int, d: usize, i: int) -> (Grid, bool)
    decreases bound, 1nat, peers_of(c).len() - i,
{
    if i < 0 || i >= peers_of(c).len() {
        (g, true)
    } else if total(g) >= bound {
        (g, false)
    } else {
        let next = strike(g, peers_of(c)[i] as int, d);
        if !next.1 {
            next
        } else {
            strike_peers(bound, next.0, c, d, i + 1)
        }
    }
}

/// Looks after digit `v` in the units of cell `c`, from the `k`-th unit on:
/// a unit without a place for `v` is a failure, a unit with one place left
/// has `v` assigned there.
pub open spec fn serve_units(bound: nat, g: Grid, c: int, v: usize, k: int) -> (Grid, bool)
    decreases bound, 1nat, 3 - k,
{
    if k < 0 || k >= 3 {
        (g, true)
    } else if total(g) >= bound {
        (g, false)
    } else if no_place(g, unit_of(c, k), v) {
        (g, false)
    } else if has_sole_place(g, unit_of(c, k), v) {
        let next = commit(g, sole_place(g, unit_of(c, k), v), v);
        if !next.1 {
            next
        } else {
            serve_units(bound, next.0, c, v, k + 1)
        }
    } else {
        serve_units(bound, g, c, v, k + 1)
    }
}

/// What `assign` does: the grid it leaves and whether it succeeded.
pub open spec fn commit(g: Grid, c: int, v: usize) -> (Grid, bool)
    decreases total(g), 4nat, 0nat,
{
    commit_rest(total(g), g, c, without(g[c], v), 0)
}

/// Eliminates the digits of `cs` from cell `c`, from the `i`-th on, and
/// stops at the first failure.
pub open spec fn commit_rest(bound: nat, g: Grid, c: int, cs: Seq<usize>, i: int) -> (Grid, bool)
    decreases bound, 3nat, cs.len() - i,
{
    if i < 0 || i >= cs.len() {
        (g, true)
    } else if total(g) > bound {
        (g, false)
    } else {
        let next = strike(g, c, cs[i]);
        if !next.1 {
            next
        } else {
            commit_rest(bound, next.0, c, cs, i + 1)
        }
    }
}

/// Cell `c` is open and has the fewest candidates of all open cells, and it
/// is the first such cell.
pub open spec fn is_next(g: Grid, c: int) -> bool {
    &&& is_cell(c)
    &&& g[c].len() >= 2
    &&& forall|k: int|
        is_cell(k) && (#[trigger] g[k]).len() >= 2 ==> g[c].len() < g[k].len() || (g[c].len()
            == g[k].len() && c <= k)
}

/// What a scan of the grid finds: `Failed` for an empty cell, `Done` when
/// all cells are settled, else the cell to branch on.
pub open spec fn scan(g: Grid) -> Outcome {
    if exists|c: int| is_cell(c) && (#[trigger] g[c]).len() == 0 {
        Outcome::Failed
    } else if complete(g) {
        Outcome::Done
    } else {
        Outcome::Next(choose|c: usize| is_next(g, c as int))
    }
}

/// What `search` returns: the first grid without an open cell that depth
/// first search comes to, branching on the cell that `scan` names and
/// trying its candidates in ascending order.
pub open spec fn explore(g: Grid) -> Option<Grid>
    decreases total(g), 1nat, 0nat,
{
    match scan(g) {
        Outcome::Failed => None,
        Outcome::Done => Some(g),
        Outcome::Next(c) => try_from(total(g), g, c as int, 0),
    }
}

/// Tries the candidates of cell `c` from the `i`-th on: assigns each to a
/// copy of `g` and searches below it if that succeeds.
pub open spec fn try_from(bound: nat, g: Grid, c: int, i: int) -> Option<Grid>
    decreases bound, 0nat, g[c].len() - i,
{
    if i < 0 || i >= g[c].len() {
        None
    } else {
        let branch = commit(g, c, g[c][i]);
        if branch.1 && total(branch.0) < bound {
            match explore(branch.0) {
                Some(b) => Some(b),
                None => try_from(bound, g, c, i + 1),
            }
        } else {
            try_from(bound, g, c, i + 1)
        }
    }
}

/// Eliminating only strikes candidates: what it leaves is a grid that can
/// be had from the one before by striking.
pub proof fn lemma_strike_shrinks(g: Grid, c: int, v: usize)
    requires
        grid_wf(g),
        is_cell(c),
    ensures
        grid_wf(strike(g, c, v).0),
        shrinks(strike(g, c, v).0, g),
    decreases total(g), 2nat, 0nat,
{
    if holds(g, c, v) {
        let g1 = g.update(c, without(g[c], v));
        lemma_strike(g, c, v);
        if g1[c].len() != 0 {
            let cleared = if g1[c].len() == 1 {
                strike_peers(total(g), g1, c, g1[c][0], 0)
            } else {
                (g1, true)
            };
            if g1[c].len() == 1 {
                lemma_strike_peers_shrinks(total(g), g1, c, g1[c][0], 0);
            }
            lemma_shrinks_trans(cleared.0, g1, g);
            if cleared.1 {
                lemma_serve_units_shrinks(total(g), cleared.0, c, v, 0);
                lemma_shrinks_trans(serve_units(total(g), cleared.0, c, v, 0).0, cleared.0, g);
            }
        }
    }
}

/// Clearing the peers of a cell only strikes candidates.
pub proof fn lemma_strike_peers_shrinks(bound: nat, g: Grid, c: int, d: usize, i: int)
    requires
        grid_wf(g),
        is_cell(c),
    ensures
        grid_wf(strike_peers(bound, g, c, d, i).0),
        shrinks(strike_peers(bound, g, c, d, i).0, g),
    decreases bound, 1nat, peers_of(c).len() - i,
{
    if 0 <= i < peers_of(c).len() && total(g) < bound {
        let p = peers_of(c)[i];
        assert(peers_of(c).contains(p));
        lemma_peers_contains(c, p);
        lemma_strike_shrinks(g, p as int, d);
        let next = strike(g, p as int, d);
        if next.1 {
            lemma_strike_peers_shrinks(bound, next.0, c, d, i + 1);
            lemma_shrinks_trans(strike_peers(bound, next.0, c, d, i + 1).0, next.0, g);
        }
    }
}

/// Looking after a digit in the units of a cell only strikes candidates.
pub proof fn lemma_serve_units_shrinks(bound: nat, g: Grid, c: int, v: usize, k: int)
    requires
        grid_wf(g),
        is_cell(c),
    ensures
        grid_wf(serve_units(bound, g, c, v, k).0),
        shrinks(serve_units(bound, g, c, v, k).0, g),
    decreases bound, 1nat, 3 - k,
{
    if 0 <= k < 3 && total(g) < bound && !no_place(g, unit_of(c, k), v) {
        if has_sole_place(g, unit_of(c, k), v) {
            let x = sole_place(g, unit_of(c, k), v);
            assert(is_sole_place(g, unit_of(c, k), v, x));
            lemma_commit_shrinks(g, x, v);
            let next = commit(g, x, v);
            if next.1 {
                lemma_serve_units_shrinks(bound, next.0, c, v, k + 1);
                lemma_shrinks_trans(serve_units(bound, next.0, c, v, k + 1).0, next.0, g);
            }
        } else {
            lemma_serve_units_shrinks(bound, g, c, v, k + 1);
        }
    }
}

/// Assigning only strikes candidates.
pub proof fn lemma_commit_shrinks(g: Grid, c: int, v: usize)
    requires
        grid_wf(g),
        is_cell(c),
    ensures
        grid_wf(commit(g, c, v).0),
        shrinks(commit(g, c, v).0, g),
    decreases total(g), 4nat, 0nat,
{
    lemma_commit_rest_shrinks(total(g), g, c, without(g[c], v), 0);
}

/// Eliminating a list of digits from a cell only strikes candidates.
pub proof fn lemma_commit_rest_shrinks(bound: nat, g: Grid, c: int, cs: Seq<usize>, i: int)
    requires
        grid_wf(g),
        is_cell(c),
    ensures
        grid_wf(commit_rest(bound, g, c, cs, i).0),
        shrinks(commit_rest(bound, g, c, cs, i).0, g),
    decreases bound, 3nat, cs.len() - i,
{
    if 0 <= i < cs.len() && total(g) <= bound {
        lemma_strike_shrinks(g, c, cs[i]);
        let next = strike(g, c, cs[i]);
        if next.1 {
            lemma_commit_rest_shrinks(bound, next.0, c, cs, i + 1);
            lemma_shrinks_trans(commit_rest(bound, next.0, c, cs, i + 1).0, next.0, g);
        }
    }
}

/// The bound of `strike_peers` does not matter once it lies above the
/// number of candidates.
pub proof fn lemma_strike_peers_bound(b1: nat, b2: nat, g: Grid, c: int, d: usize, i: int)
    requires
        grid_wf(g),
        is_cell(c),
        total(g) < b1,
        total(g) < b2,
    ensures
        strike_peers(b1, g, c, d, i) == strike_peers(b2, g, c, d, i),
    decreases peers_of(c).len() - i,
{
    if 0 <= i < peers_of(c).len() {
        let p = peers_of(c)[i];
        assert(peers_of(c).contains(p));
        lemma_peers_contains(c, p);
        lemma_strike_shrinks(g, p as int, d);
        let next = strike(g, p as int, d);
        if next.1 {
            lemma_total_shrinks(next.0, g);
            lemma_strike_peers_bound(b1, b2, next.0, c, d, i + 1);
        }
    }
}

/// The bound of `serve_units` does not matter once it lies above the number
/// of candidates.
pub proof fn lemma_serve_units_bound(b1: nat, b2: nat, g: Grid, c: int, v: usize, k: int)
    requires
        grid_wf(g),
        is_cell(c),
        total(g) < b1,
        total(g) < b2,
    ensures
        serve_units(b1, g, c, v, k) == serve_units(b2, g, c, v, k),
    decreases 3 - k,
{
    if 0 <= k < 3 && !no_place(g, unit_of(c, k), v) {
        if has_sole_place(g, unit_of(c, k), v) {
            let x = sole_place(g, unit_of(c, k), v);
            assert(is_sole_place(g, unit_of(c, k), v, x));
            lemma_commit_shrinks(g, x, v);
            let next = commit(g, x, v);
            if next.1 {
                lemma_total_shrinks(next.0, g);
                lemma_serve_units_bound(b1, b2, next.0, c, v, k + 1);
            }
        } else {
            lemma_serve_units_bound(b1, b2, g, c, v, k + 1);
        }
    }
}

/// The bound of `commit_rest` does not matter once it is no less than the
/// number of candidates.
pub proof fn lemma_commit_rest_bound(b1: nat, b2: nat, g: Grid, c: int, cs: Seq<usize>, i: int)
    requires
        grid_wf(g),
        is_cell(c),
        total(g) <= b1,
        total(g) <= b2,
    ensures
        commit_rest(b1, g, c, cs, i) == commit_rest(b2, g, c, cs, i),
    decreases cs.len() - i,
{
    if 0 <= i < cs.len() {
        lemma_strike_shrinks(g, c, cs[i]);
        let next = strike(g, c, cs[i]);
        if next.1 {
            lemma_total_shrinks(next.0, g);
            lemma_commit_rest_bound(b1, b2, next.0, c, cs, i + 1);
        }
    }
}

} // verus!
