//! The mathematical model of a board and of what propagation owes.
//!
//! A grid gives each of the 81 cells a candidate list. Propagation only ever
//! strikes candidates, and it never gives up a grid that obeys the rules of
//! the game: such a grid, called stable here, stays below the board as long as
//! it was below it before and agrees with what was struck.

use vstd::prelude::*;
use crate::candidates::{all_digits, is_candidates, lemma_candidates_single, lemma_without, without};
use crate::topology::{
    are_peers, in_unit, is_cell, is_digit, is_unit, lemma_peers_share_unit, lemma_unit_cells,
    unit_cell, unit_pos,
};

verus! {

/// The candidate lists of all cells, by cell index.
pub type Grid = Seq<Seq<usize>>;

/// Whether digit `v` is still a candidate of cell `c`.
pub open spec fn holds(g: Grid, c: int, v: usize) -> bool {
    g[c].contains(v)
}

/// Whether `d` is the only candidate of cell `c`.
pub open spec fn settled(g: Grid, c: int, d: usize) -> bool {
    g[c].len() == 1 && g[c][0] == d
}

/// A grid has 81 cells, each with a candidate list.
pub open spec fn grid_wf(g: Grid) -> bool {
    &&& g.len() == 81
    &&& forall|c: int| 0 <= c < 81 ==> is_candidates(#[trigger] g[c])
}

/// The grid in which every digit is a candidate of every cell.
pub open spec fn full_grid() -> Grid {
    Seq::new(81, |c: int| all_digits())
}

/// Every candidate of `a` is a candidate of `b`, cell by cell.
pub open spec fn refines(a: Grid, b: Grid) -> bool {
    forall|c: int, v: usize| is_cell(c) && #[trigger] holds(a, c, v) ==> holds(b, c, v)
}

/// `a` can be had from `b` by striking candidates: it refines `b`, and no
/// candidate list has grown.
pub open spec fn shrinks(a: Grid, b: Grid) -> bool {
    &&& refines(a, b)
    &&& forall|c: int| is_cell(c) ==> (#[trigger] a[c]).len() <= b[c].len()
}

/// Every cell has exactly one candidate.
pub open spec fn complete(g: Grid) -> bool {
    forall|c: int| is_cell(c) ==> (#[trigger] g[c]).len() == 1
}

/// No cell of unit `u` other than `x` has `d` as a candidate.
pub open spec fn lone(g: Grid, u: int, x: int, d: usize) -> bool {
    forall|y: int| is_cell(y) && in_unit(u, y) && y != x ==> !#[trigger] holds(g, y, d)
}

/// The ways in which a grid can break the rules of the game.
pub enum Defect {
    /// A cell without any candidate.
    Empty { cell: int },
    /// A cell with a single candidate that a peer of it still lists.
    Clash { cell: int, peer: int },
    /// A unit in which only one cell is left to take a digit, while that
    /// cell is not settled on it.
    Gap { unit: int, cell: int, digit: usize },
}

/// Whether grid `g` has defect `d`.
pub open spec fn defect(g: Grid, d: Defect) -> bool {
    match d {
        Defect::Empty { cell } => is_cell(cell) && g[cell].len() == 0,
        Defect::Clash { cell, peer } => {
            &&& is_cell(cell)
            &&& is_cell(peer)
            &&& are_peers(cell, peer)
            &&& g[cell].len() == 1
            &&& holds(g, peer, g[cell][0])
        },
        Defect::Gap { unit, cell, digit } => {
            &&& is_unit(unit)
            &&& is_cell(cell)
            &&& in_unit(unit, cell)
            &&& is_digit(digit as int)
            &&& lone(g, unit, cell, digit)
            &&& !settled(g, cell, digit)
        },
    }
}

/// A stable grid is free of defects: no cell is empty, no settled digit is
/// left with a peer, and wherever a unit has one place left for a digit, the
/// digit is settled there.
pub open spec fn stable(g: Grid) -> bool {
    &&& grid_wf(g)
    &&& forall|d: Defect| !#[trigger] defect(g, d)
}

/// No cell with a single candidate has a peer that still lists that digit.
pub open spec fn clash_free(g: Grid) -> bool {
    forall|x: int, p: int| !#[trigger] defect(g, Defect::Clash { cell: x, peer: p })
}

/// Every defect of `a` is a defect of `b` already.
pub open spec fn no_new_defects(a: Grid, b: Grid) -> bool {
    forall|d: Defect| #[trigger] defect(a, d) ==> defect(b, d)
}

/// Unit `u` contains digit `d` exactly once: one of its cells is settled on
/// it and no other cell of the unit lists it.
pub open spec fn placed_once(g: Grid, u: int, d: usize) -> bool {
    exists|x: int| is_cell(x) && #[trigger] in_unit(u, x) && settled(g, x, d) && lone(g, u, x, d)
}

/// A solved grid: every cell is settled, and every row, column and box
/// contains each digit from 1 to 9 exactly once.
pub open spec fn is_solution(g: Grid) -> bool {
    &&& grid_wf(g)
    &&& complete(g)
    &&& forall|u: int, d: usize| is_unit(u) && is_digit(d as int) ==> #[trigger] placed_once(g, u, d)
}

/// `m` is the one solved grid that refines `g`.
pub open spec fn only_solution(m: Grid, g: Grid) -> bool {
    &&& is_solution(m)
    &&& refines(m, g)
    &&& forall|n: Grid| #[trigger] is_solution(n) && refines(n, g) ==> n == m
}

/// The number of candidates in the first `n` cells.
pub open spec fn total_upto(g: Grid, n: nat) -> nat
    decreases n,
{
    if n == 0 {
        0
    } else {
        total_upto(g, (n - 1) as nat) + g[n - 1].len()
    }
}

/// The number of candidates on the whole grid.
pub open spec fn total(g: Grid) -> nat {
    total_upto(g, 81)
}

proof fn lemma_total_upto(a: Grid, b: Grid, n: nat)
    requires
        n <= 81,
        forall|c: int| is_cell(c) ==> (#[trigger] a[c]).len() <= b[c].len(),
    ensures
        total_upto(a, n) <= total_upto(b, n),
        forall|c: int| 0 <= c < n && (#[trigger] a[c]).len() < b[c].len() ==> total_upto(a, n) < total_upto(b, n),
    decreases n,
{
    if n > 0 {
        lemma_total_upto(a, b, (n - 1) as nat);
        assert(a[n - 1].len() <= b[n - 1].len());
    }
}

/// Striking candidates does not raise the total, and lowers it as soon as
/// one cell has lost a candidate.
pub proof fn lemma_total_shrinks(a: Grid, b: Grid)
    requires
        shrinks(a, b),
    ensures
        total(a) <= total(b),
        forall|c: int| is_cell(c) && (#[trigger] a[c]).len() < b[c].len() ==> total(a) < total(b),
{
    lemma_total_upto(a, b, 81);
}

/// Striking candidates twice is striking candidates.
pub proof fn lemma_shrinks_trans(a: Grid, b: Grid, c: Grid)
    requires
        shrinks(a, b),
        shrinks(b, c),
    ensures
        shrinks(a, c),
{
    assert forall|x: int, v: usize| is_cell(x) && #[trigger] holds(a, x, v) implies holds(c, x, v) by {
        assert(holds(b, x, v));
    }
    assert forall|x: int| is_cell(x) implies (#[trigger] a[x]).len() <= c[x].len() by {
        assert(a[x].len() <= b[x].len());
        assert(b[x].len() <= c[x].len());
    }
}

/// What striking `v` from cell `c` does to a grid that lists it there.
pub proof fn lemma_strike(g0: Grid, c: int, v: usize)
    requires
        grid_wf(g0),
        is_cell(c),
        holds(g0, c, v),
    ensures
        ({
            let g1 = g0.update(c, without(g0[c], v));
            &&& grid_wf(g1)
            &&& shrinks(g1, g0)
            &&& !holds(g1, c, v)
            &&& g1[c].len() == g0[c].len() - 1
            &&& total(g1) < total(g0)
            &&& is_digit(v as int)
            &&& forall|u: usize| u != v ==> (#[trigger] holds(g1, c, u) <==> holds(g0, c, u))
        }),
{
    let g1 = g0.update(c, without(g0[c], v));
    lemma_without(g0[c], v);
    assert(is_candidates(g0[c]));
    assert forall|x: int| 0 <= x < 81 implies is_candidates(#[trigger] g1[x]) by {
        if x != c {
            assert(g1[x] == g0[x]);
        }
    }
    assert forall|x: int, u: usize| is_cell(x) && #[trigger] holds(g1, x, u) implies holds(g0, x, u) by {
        if x != c {
            assert(g1[x] == g0[x]);
        }
    }
    assert forall|x: int| is_cell(x) implies (#[trigger] g1[x]).len() <= g0[x].len() by {
        if x != c {
            assert(g1[x] == g0[x]);
        }
    }
    lemma_total_shrinks(g1, g0);
    assert(g1[c].len() < g0[c].len());
    let i = choose|i: int| 0 <= i < g0[c].len() && g0[c][i] == v;
    assert(1 <= g0[c][i] <= 9);
}

/// The defects that striking `v` from cell `c` can bring about: `c` may be
/// empty now, it may be left with a single candidate that its peers still
/// list, and a unit of `c` may be left with a single place for `v`.
pub open spec fn caused(d: Defect, c: int, v: usize) -> bool {
    match d {
        Defect::Empty { cell } => cell == c,
        Defect::Clash { cell, peer } => cell == c,
        Defect::Gap { unit, cell, digit } => digit == v && in_unit(unit, c),
    }
}

/// Striking `v` from cell `c` brings about no defects but those that
/// `caused` describes.
pub proof fn lemma_strike_defects(g0: Grid, c: int, v: usize)
    requires
        grid_wf(g0),
        is_cell(c),
        holds(g0, c, v),
    ensures
        forall|d: Defect| #[trigger]
            defect(g0.update(c, without(g0[c], v)), d) ==> defect(g0, d) || caused(d, c, v),
{
    let g1 = g0.update(c, without(g0[c], v));
    lemma_strike(g0, c, v);
    assert forall|d: Defect| #[trigger] defect(g1, d) && !caused(d, c, v) implies defect(g0, d) by {
        match d {
            Defect::Empty { cell } => {
                assert(g1[cell] == g0[cell]);
            },
            Defect::Clash { cell, peer } => {
                assert(g1[cell] == g0[cell]);
                assert(holds(g1, peer, g1[cell][0]));
            },
            Defect::Gap { unit, cell, digit } => {
                assert forall|y: int| is_cell(y) && in_unit(unit, y) && y != cell implies !#[trigger] holds(
                    g0,
                    y,
                    digit,
                ) by {
                    assert(!holds(g1, y, digit));
                    if y != c {
                        assert(g1[y] == g0[y]);
                    }
                }
                if cell != c {
                    assert(g1[cell] == g0[cell]);
                } else if settled(g0, cell, digit) {
                    let i = choose|i: int| 0 <= i < g0[c].len() && g0[c][i] == v;
                    assert(false);
                }
            },
        }
    }
}

/// A stable grid below `g` that does not list `v` at `c` is still below `g`
/// once `v` is struck from `c`.
pub proof fn lemma_strike_keeps(m: Grid, g0: Grid, c: int, v: usize)
    requires
        grid_wf(g0),
        is_cell(c),
        holds(g0, c, v),
        refines(m, g0),
        !holds(m, c, v),
    ensures
        refines(m, g0.update(c, without(g0[c], v))),
{
    let g1 = g0.update(c, without(g0[c], v));
    lemma_strike(g0, c, v);
    assert forall|x: int, u: usize| is_cell(x) && #[trigger] holds(m, x, u) implies holds(g1, x, u) by {
        assert(holds(g0, x, u));
        if x != c {
            assert(g1[x] == g0[x]);
        }
    }
}

/// A stable grid below a grid in which cell `c` is settled on `d` is settled
/// on `d` there too, and lists `d` at no peer of `c`.
pub proof fn lemma_settled_below(m: Grid, g: Grid, c: int, d: usize)
    requires
        stable(m),
        refines(m, g),
        is_cell(c),
        settled(g, c, d),
    ensures
        settled(m, c, d),
        forall|p: int| is_cell(p) && are_peers(c, p) ==> !#[trigger] holds(m, p, d),
{
    assert(!defect(m, Defect::Empty { cell: c }));
    assert forall|x: usize| m[c].contains(x) implies x == d by {
        assert(holds(m, c, x));
        assert(holds(g, c, x));
        let i = choose|i: int| 0 <= i < g[c].len() && g[c][i] == x;
    }
    assert(is_candidates(m[c]));
    lemma_candidates_single(m[c], d);
    assert forall|p: int| is_cell(p) && are_peers(c, p) implies !#[trigger] holds(m, p, d) by {
        assert(!defect(m, Defect::Clash { cell: c, peer: p }));
    }
}

/// A stable grid below a grid in which unit `u` has no place for `v` but
/// cell `x` is settled on `v` at `x`.
pub proof fn lemma_lone_below(m: Grid, g: Grid, u: int, x: int, v: usize)
    requires
        stable(m),
        refines(m, g),
        is_unit(u),
        is_cell(x),
        in_unit(u, x),
        is_digit(v as int),
        lone(g, u, x, v),
    ensures
        settled(m, x, v),
        holds(m, x, v),
        holds(g, x, v),
{
    assert forall|y: int| is_cell(y) && in_unit(u, y) && y != x implies !#[trigger] holds(m, y, v) by {
        if holds(m, y, v) {
            assert(holds(g, y, v));
        }
    }
    assert(!defect(m, Defect::Gap { unit: u, cell: x, digit: v }));
    assert(m[x][0] == v);
    assert(holds(m, x, v));
}

/// A grid in which a cell of unit `u` is settled on `v`, or in which two
/// cells of `u` list `v`, has no gap for `v` in `u`.
pub proof fn lemma_unit_served(g: Grid, u: int, v: usize, x: int, y: int)
    requires
        is_cell(x),
        is_cell(y),
        in_unit(u, x),
        in_unit(u, y),
        holds(g, x, v),
        holds(g, y, v),
        x != y || settled(g, x, v),
    ensures
        forall|z: int| !#[trigger] defect(g, Defect::Gap { unit: u, cell: z, digit: v }),
{
    assert forall|z: int| !#[trigger] defect(g, Defect::Gap { unit: u, cell: z, digit: v }) by {
        if defect(g, Defect::Gap { unit: u, cell: z, digit: v }) {
            if z != x {
                assert(!holds(g, x, v));
            } else if z != y {
                assert(!holds(g, y, v));
            }
        }
    }
}

/// The grid with all candidates everywhere is stable.
pub proof fn lemma_full_grid_stable()
    ensures
        grid_wf(full_grid()),
        stable(full_grid()),
        forall|c: int, v: usize| is_cell(c) && is_digit(v as int) ==> #[trigger] holds(full_grid(), c, v),
{
    let g = full_grid();
    assert forall|c: int, v: usize| is_cell(c) && is_digit(v as int) implies #[trigger] holds(g, c, v) by {
        assert(g[c][v - 1] == v);
    }
    assert forall|d: Defect| !#[trigger] defect(g, d) by {
        match d {
            Defect::Empty { cell } => {},
            Defect::Clash { cell, peer } => {},
            Defect::Gap { unit, cell, digit } => {
                if defect(g, d) {
                    lemma_unit_cells(unit);
                    let i = unit_pos(unit, cell);
                    let j = if i == 0 { 1int } else { 0int };
                    let y = unit_cell(unit, j);
                    assert(is_cell(y) && in_unit(unit, y));
                    assert(unit_pos(unit, y) == j);
                    assert(holds(g, y, digit));
                }
            },
        }
    }
}

/// A solved grid is stable.
pub proof fn lemma_solution_stable(g: Grid)
    requires
        is_solution(g),
    ensures
        stable(g),
        complete(g),
{
    assert forall|d: Defect| !#[trigger] defect(g, d) by {
        match d {
            Defect::Empty { cell } => {
                if is_cell(cell) {
                    assert(g[cell].len() == 1);
                }
            },
            Defect::Clash { cell, peer } => {
                if defect(g, d) {
                    let v = g[cell][0];
                    assert(is_candidates(g[cell]));
                    lemma_peers_share_unit(cell, peer);
                    let u = choose|u: int| is_unit(u) && in_unit(u, cell) && #[trigger] in_unit(u, peer);
                    assert(placed_once(g, u, v));
                    let x = choose|x: int|
                        is_cell(x) && #[trigger] in_unit(u, x) && settled(g, x, v) && lone(g, u, x, v);
                    assert(g[cell].contains(v));
                    assert(holds(g, cell, v));
                    assert(x == cell);
                    assert(x == peer);
                }
            },
            Defect::Gap { unit, cell, digit } => {
                if defect(g, d) {
                    assert(placed_once(g, unit, digit));
                    let x = choose|x: int|
                        is_cell(x) && #[trigger] in_unit(unit, x) && settled(g, x, digit) && lone(
                            g,
                            unit,
                            x,
                            digit,
                        );
                    assert(g[x].contains(digit));
                    assert(holds(g, x, digit));
                }
            },
        }
    }
}

/// The digits on which the cells of unit `u` are settled, in the order of
/// the unit.
spec fn unit_digits(g: Grid, u: int) -> Seq<usize> {
    Seq::new(9, |i: int| g[unit_cell(u, i)][0])
}

/// A grid whose cells are all settled and in which no two peers share a
/// digit is solved: nine different digits in the nine cells of a unit are
/// all the digits there are.
pub proof fn lemma_clash_free_complete(g: Grid)
    requires
        grid_wf(g),
        complete(g),
        clash_free(g),
    ensures
        is_solution(g),
{
    assert forall|u: int, d: usize| is_unit(u) && is_digit(d as int) implies #[trigger] placed_once(
        g,
        u,
        d,
    ) by {
        lemma_unit_cells(u);
        let s = unit_digits(g, u);
        let digits = all_digits();
        assert forall|i: int, j: int| 0 <= i < 9 && 0 <= j < 9 && i != j implies s[i] != s[j] by {
            let x = unit_cell(u, i);
            let y = unit_cell(u, j);
            assert(unit_pos(u, x) == i && unit_pos(u, y) == j);
            lemma_peers_share_unit(x, y);
            assert(in_unit(u, y));
            assert(!defect(g, Defect::Clash { cell: x, peer: y }));
            assert(g[x].len() == 1 && g[y].len() == 1);
            assert(g[y].contains(g[y][0]));
        }
        assert forall|v: usize| s.to_set().contains(v) implies digits.to_set().contains(v) by {
            let i = choose|i: int| 0 <= i < s.len() && s[i] == v;
            let x = unit_cell(u, i);
            assert(is_candidates(g[x]));
            assert(g[x].len() == 1);
            assert(1 <= g[x][0] <= 9);
            assert(digits[v - 1] == v);
        }
        s.unique_seq_to_set();
        digits.unique_seq_to_set();
        vstd::seq_lib::seq_to_set_is_finite(s);
        vstd::seq_lib::seq_to_set_is_finite(digits);
        vstd::set_lib::lemma_subset_equality(s.to_set(), digits.to_set());
        assert(digits[d - 1] == d);
        assert(digits.to_set().contains(d));
        assert(s.contains(d));
        let i = choose|i: int| 0 <= i < s.len() && s[i] == d;
        let x = unit_cell(u, i);
        assert(is_cell(x) && in_unit(u, x));
        assert(g[x].len() == 1);
        assert(settled(g, x, d));
        assert forall|y: int| is_cell(y) && in_unit(u, y) && y != x implies !#[trigger] holds(g, y, d) by {
            lemma_peers_share_unit(x, y);
            assert(!defect(g, Defect::Clash { cell: x, peer: y }));
        }
    }
}

/// A grid that refines another one with an empty cell is not stable.
pub proof fn lemma_empty_below(m: Grid, g: Grid, c: int)
    requires
        refines(m, g),
        is_cell(c),
        g[c].len() == 0,
        grid_wf(m),
    ensures
        !stable(m),
{
    if m[c].len() > 0 {
        assert(m[c].contains(m[c][0]));
        assert(holds(m, c, m[c][0]));
        assert(holds(g, c, m[c][0]));
    } else {
        assert(defect(m, Defect::Empty { cell: c }));
    }
}

} // verus!
