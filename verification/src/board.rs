//! The board: one candidate list per cell, with the two propagation steps
//! `assign` and `eliminate` and the backtracking `search` built on them.

use vstd::prelude::*;
use crate::candidates::{
    all_digits, delete, is_candidates, lemma_candidates_len, lemma_candidates_single, lemma_without,
    without,
};
use crate::model::{
    caused, clash_free, complete, defect, full_grid, grid_wf, holds, is_solution,
    lemma_clash_free_complete, lemma_empty_below, lemma_full_grid_stable, lemma_lone_below, lemma_settled_below, lemma_shrinks_trans,
    lemma_solution_stable, lemma_strike, lemma_strike_defects,
    lemma_strike_keeps, lemma_total_shrinks, lemma_unit_served, lone, no_new_defects,
    only_solution, refines, settled, shrinks, stable, total, Defect, Grid,
};
use crate::steps::{
    commit, commit_rest, explore, has_sole_place, is_next, is_sole_place, no_place, scan,
    serve_units, sole_place, strike, strike_peers, try_from,
};
use crate::topology::{
    are_peers, in_unit, is_cell, is_digit, lemma_peers_contains, lemma_unit_cells,
    lemma_unit_contains, lemma_unit_of, peers_of, unit_cell, unit_cells, unit_of, unit_pos,
    units_of, Problem,
};

verus! {

/// The candidates of all 81 cells.
#[derive(Debug)]
pub struct Board {
    constraints: Vec<Vec<usize>>,
}

/// What a scan of the board finds.
#[derive(Debug, Clone, Copy, PartialEq, Eq)]
pub enum Outcome {
    /// Every cell is settled.
    Done,
    /// Some cell has no candidate left.
    Failed,
    /// The open cell with the fewest candidates, the first of them in cell
    /// order.
    Next(usize),
}

impl View for Board {
    type V = Grid;

    closed spec fn view(&self) -> Grid {
        Seq::new(self.constraints@.len(), |i: int| self.constraints@[i]@)
    }
}

impl Clone for Board {
    /// An independent copy with the same candidates.
    fn clone(&self) -> (b: Board)
        ensures
            b@ == self@,
    {
        let mut constraints: Vec<Vec<usize>> = Vec::new();
        let mut i: usize = 0;
        while i < self.constraints.len()
            invariant
                i <= self.constraints.len(),
                constraints@.len() == i,
                forall|j: int| 0 <= j < i ==> (#[trigger] constraints@[j])@ == self.constraints@[j]@,
            decreases self.constraints.len() - i,
        {
            constraints.push(self.constraints[i].clone());
            i += 1;
        }
        let b = Board { constraints };
        assert(b@ =~= self@);
        b
    }
}

/// No peer of cell `c` lists `d`.
spec fn peers_clean(g: Grid, c: int, d: usize) -> bool {
    forall|p: int| is_cell(p) && are_peers(c, p) ==> !#[trigger] holds(g, p, d)
}

/// Unit `u` has no gap for digit `v`.
spec fn unit_done(g: Grid, u: int, v: usize) -> bool {
    forall|z: int| !#[trigger] defect(g, Defect::Gap { unit: u, cell: z, digit: v })
}

/// The first `k` units of cell `c` have no gap for digit `v`.
spec fn units_done(g: Grid, c: int, v: usize, k: int) -> bool {
    &&& k > 0 ==> unit_done(g, unit_of(c, 0), v)
    &&& k > 1 ==> unit_done(g, unit_of(c, 1), v)
    &&& k > 2 ==> unit_done(g, unit_of(c, 2), v)
}

/// None of the first `i` entries of `s` is `d`.
spec fn untried(s: Seq<usize>, i: int, d: usize) -> bool {
    forall|j: int| 0 <= j < i ==> s[j] != d
}

impl Board {
    /// The candidate lists are those of a grid: 81 cells, each with digits
    /// from 1 to 9 in ascending order.
    pub open spec fn wf(&self) -> bool {
        grid_wf(self@)
    }

    /// A board on which every digit is a candidate of every cell.
    pub fn new() -> (b: Board)
        ensures
            b@ == full_grid(),
            b.wf(),
            stable(b@),
    {
        let mut constraints: Vec<Vec<usize>> = Vec::new();
        let mut c: usize = 0;
        while c < 81
            invariant
                c <= 81,
                constraints@.len() == c,
                forall|x: int| 0 <= x < c ==> (#[trigger] constraints@[x])@ == all_digits(),
            decreases 81 - c,
        {
            let mut any: Vec<usize> = Vec::new();
            let mut d: usize = 1;
            while d < 10
                invariant
                    1 <= d <= 10,
                    any@.len() == d - 1,
                    forall|i: int| 0 <= i < d - 1 ==> #[trigger] any@[i] == i + 1,
                decreases 10 - d,
            {
                any.push(d);
                d += 1;
            }
            assert(any@ =~= all_digits());
            constraints.push(any);
            c += 1;
        }
        let b = Board { constraints };
        proof {
            assert(b@ =~= full_grid());
            lemma_full_grid_stable();
        }
        b
    }

    /// The candidates of cell `c`, in ascending order.
    pub fn candidates(&self, c: usize) -> (s: &Vec<usize>)
        requires
            c < self@.len(),
        ensures
            s@ == self@[c as int],
    {
        &self.constraints[c]
    }

    /// Whether `v` is a candidate of cell `c`.
    pub fn allows(&self, c: usize, v: usize) -> (r: bool)
        requires
            c < self@.len(),
        ensures
            r == holds(self@, c as int, v),
    {
        let s = &self.constraints[c];
        let mut i: usize = 0;
        while i < s.len()
            invariant
                i <= s.len(),
                s@ == self@[c as int],
                forall|j: int| 0 <= j < i ==> s@[j] != v,
            decreases s.len() - i,
        {
            if s[i] == v {
                return true;
            }
            i += 1;
        }
        false
    }

    /// The cells of `unit` that list `v`, in the order of the unit.
    fn holders(&self, unit: &Vec<usize>, v: usize) -> (places: Vec<usize>)
        requires
            self.wf(),
            unit@.no_duplicates(),
            forall|i: int| 0 <= i < unit@.len() ==> #[trigger] unit@[i] < 81,
        ensures
            places@.no_duplicates(),
            forall|k: int|
                0 <= k < places@.len() ==> unit@.contains(#[trigger] places@[k]) && holds(
                    self@,
                    places@[k] as int,
                    v,
                ),
            forall|i: int|
                0 <= i < unit@.len() && holds(self@, #[trigger] unit@[i] as int, v)
                    ==> places@.contains(unit@[i]),
    {
        let mut places: Vec<usize> = Vec::new();
        let mut i: usize = 0;
        while i < unit.len()
            invariant
                i <= unit.len(),
                self.wf(),
                unit@.no_duplicates(),
                forall|j: int| 0 <= j < unit@.len() ==> #[trigger] unit@[j] < 81,
                places@.no_duplicates(),
                forall|k: int|
                    0 <= k < places@.len() ==> holds(self@, #[trigger] places@[k] as int, v)
                        && exists|j: int| 0 <= j < i && unit@[j] == places@[k],
                forall|j: int|
                    0 <= j < i && holds(self@, #[trigger] unit@[j] as int, v) ==> places@.contains(
                        unit@[j],
                    ),
            decreases unit.len() - i,
        {
            let x = unit[i];
            if self.allows(x, v) {
                let ghost before = places@;
                places.push(x);
                proof {
                    assert forall|a: int, b: int|
                        0 <= a < places@.len() && 0 <= b < places@.len() && a != b implies places@[a]
                        != places@[b] by {
                        if a < before.len() && b < before.len() {
                            assert(before[a] != before[b]);
                        } else {
                            let k = if a < before.len() { a } else { b };
                            let j = choose|j: int| 0 <= j < i && unit@[j] == before[k];
                            assert(unit@[j] != unit@[i as int]);
                        }
                    }
                    assert forall|k: int| 0 <= k < places@.len() implies holds(
                        self@,
                        #[trigger] places@[k] as int,
                        v,
                    ) && exists|j: int| 0 <= j < i + 1 && unit@[j] == places@[k] by {
                        if k < before.len() {
                            assert(places@[k] == before[k]);
                            let j = choose|j: int| 0 <= j < i && unit@[j] == before[k];
                            assert(0 <= j < i + 1 && unit@[j] == places@[k]);
                        } else {
                            assert(unit@[i as int] == places@[k]);
                        }
                    }
                    assert forall|j: int|
                        0 <= j < i + 1 && holds(self@, #[trigger] unit@[j] as int, v) implies places@.contains(
                        unit@[j],
                    ) by {
                        if j < i {
                            assert(before.contains(unit@[j]));
                            let k = choose|k: int| 0 <= k < before.len() && before[k] == unit@[j];
                            assert(places@[k] == unit@[j]);
                        } else {
                            assert(places@[before.len() as int] == unit@[j]);
                        }
                    }
                }
            }
            i += 1;
        }
        places
    }

    /// Scans the board: `Failed` if some cell has no candidate, `Done` if
    /// every cell has exactly one, and otherwise the open cell with the
    /// fewest candidates, the lowest such cell if several have as few.
    pub fn solved(&self) -> (o: Outcome)
        requires
            self.wf(),
        ensures
            o == scan(self@),
            o is Failed <==> exists|c: int| is_cell(c) && (#[trigger] self@[c]).len() == 0,
            o is Done <==> complete(self@),
            o matches Outcome::Next(c) ==> is_next(self@, c as int),
    {
        let mut cell: usize = 81;
        let mut best: usize = 10;
        let mut i: usize = 0;
        while i < 81
            invariant
                i <= 81,
                self.wf(),
                cell <= 81,
                forall|k: int| 0 <= k < i ==> (#[trigger] self@[k]).len() != 0,
                cell == 81 ==> best == 10 && forall|k: int| 0 <= k < i ==> (#[trigger] self@[k]).len() == 1,
                cell < 81 ==> {
                    &&& cell < i
                    &&& self@[cell as int].len() == best
                    &&& 2 <= best <= 9
                    &&& forall|k: int|
                        0 <= k < i && (#[trigger] self@[k]).len() >= 2 ==> best < self@[k].len() || (
                        best == self@[k].len() && cell <= k)
                },
            decreases 81 - i,
        {
            let l = self.constraints[i].len();
            proof {
                lemma_candidates_len(self@[i as int]);
            }
            if l == 0 {
                assert(is_cell(i as int) && self@[i as int].len() == 0);
                return Outcome::Failed;
            }
            if l > 1 && l < best {
                cell = i;
                best = l;
            }
            i += 1;
        }
        if cell == 81 {
            Outcome::Done
        } else {
            proof {
                assert(is_next(self@, cell as int));
                let other = choose|c: usize| is_next(self@, c as int);
                assert(is_next(self@, other as int));
                assert(self@[other as int].len() >= 2 && self@[cell as int].len() >= 2);
            }
            Outcome::Next(cell)
        }
    }

    /// Commits cell `c` to digit `v` by eliminating every other candidate of
    /// the cell, one after the other. Returns `false` as soon as one of
    /// these eliminations finds a contradiction.
    pub fn assign(&mut self, pr: &Problem, c: usize, v: usize) -> (ok: bool)
        requires
            old(self).wf(),
            pr.wf(),
            c < 81,
        ensures
            final(self).wf(),
            (final(self)@, ok) == commit(old(self)@, c as int, v),
            shrinks(final(self)@, old(self)@),
            settled(old(self)@, c as int, v) ==> ok && final(self)@ == old(self)@,
            ok ==> forall|u: usize| u != v ==> !#[trigger] holds(final(self)@, c as int, u),
            ok && old(self)@[c as int].len() > 0 ==> settled(final(self)@, c as int, v),
            ok ==> no_new_defects(final(self)@, old(self)@),
            ok && stable(old(self)@) ==> stable(final(self)@),
            forall|m: Grid| #[trigger]
                stable(m) && refines(m, old(self)@) && settled(m, c as int, v) ==> ok && refines(
                    m,
                    final(self)@,
                ),
        decreases total(old(self)@), 1nat,
    {
        let ghost g0 = self@;
        let mut cs = self.constraints[c].clone();
        delete(&mut cs, v);
        proof {
            lemma_without(g0[c as int], v);
            assert(is_candidates(g0[c as int]));
            if settled(g0, c as int, v) {
                assert(g0[c as int].contains(g0[c as int][0]));
                assert(cs@.len() == 0);
            }
        }
        let mut i: usize = 0;
        while i < cs.len()
            invariant
                i <= cs.len(),
                pr.wf(),
                c < 81,
                g0 == old(self)@,
                grid_wf(g0),
                cs@ == without(g0[c as int], v),
                settled(g0, c as int, v) ==> cs@.len() == 0,
                commit_rest(total(g0), self@, c as int, cs@, i as int) == commit(g0, c as int, v),
                self.wf(),
                shrinks(self@, g0),
                no_new_defects(self@, g0),
                i == 0 ==> self@ == g0,
                forall|j: int| 0 <= j < i ==> !holds(self@, c as int, #[trigger] cs@[j]),
                forall|m: Grid| #[trigger]
                    stable(m) && refines(m, g0) && settled(m, c as int, v) ==> refines(m, self@),
            decreases cs.len() - i,
        {
            let u = cs[i];
            let ghost before = self@;
            proof {
                lemma_total_shrinks(before, g0);
                lemma_without(g0[c as int], v);
                assert(cs@.contains(u));
                assert(u != v);
            }
            let ok = self.eliminate(pr, c, u);
            proof {
                lemma_shrinks_trans(self@, before, g0);
                assert forall|m: Grid| #[trigger]
                    stable(m) && refines(m, g0) && settled(m, c as int, v) implies ok && refines(
                    m,
                    self@,
                ) by {
                    assert(refines(m, before));
                    if holds(m, c as int, u) {
                        let k = choose|k: int| 0 <= k < m[c as int].len() && m[c as int][k] == u;
                        assert(false);
                    }
                }
            }
            if !ok {
                return false;
            }
            proof {
                assert forall|j: int| 0 <= j < i + 1 implies !holds(self@, c as int, #[trigger] cs@[j]) by {
                    if j < i {
                        assert(!holds(before, c as int, cs@[j]));
                    }
                }
            }
            i += 1;
        }
        proof {
            lemma_without(g0[c as int], v);
            assert forall|u: usize| u != v implies !#[trigger] holds(self@, c as int, u) by {
                if holds(self@, c as int, u) {
                    assert(holds(g0, c as int, u));
                    assert(cs@.contains(u));
                    let j = choose|j: int| 0 <= j < cs@.len() && cs@[j] == u;
                    assert(!holds(self@, c as int, cs@[j]));
                }
            }
            if g0[c as int].len() > 0 {
                assert(!defect(g0, Defect::Empty { cell: c as int }));
                assert(!defect(self@, Defect::Empty { cell: c as int }));
                assert forall|x: usize| self@[c as int].contains(x) implies x == v by {
                    assert(holds(self@, c as int, x));
                }
                lemma_candidates_single(self@[c as int], v);
            }
        }
        true
    }

    /// Strikes digit `v` from the candidates of cell `c` and follows up on
    /// what that implies: a cell left with one candidate has that digit
    /// eliminated from all its peers, and a unit of `c` left with a single
    /// place for `v` has `v` assigned there. Returns `false` on a
    /// contradiction: a cell without candidates or a unit without a place for
    /// `v`. When `v` is no candidate of `c`, nothing happens.
    pub fn eliminate(&mut self, pr: &Problem, c: usize, v: usize) -> (ok: bool)
        requires
            old(self).wf(),
            pr.wf(),
            c < 81,
        ensures
            final(self).wf(),
            (final(self)@, ok) == strike(old(self)@, c as int, v),
            shrinks(final(self)@, old(self)@),
            !holds(old(self)@, c as int, v) ==> ok && final(self)@ == old(self)@,
            settled(old(self)@, c as int, v) ==> !ok,
            !holds(final(self)@, c as int, v),
            ok ==> no_new_defects(final(self)@, old(self)@),
            ok && stable(old(self)@) ==> stable(final(self)@),
            forall|m: Grid| #[trigger]
                stable(m) && refines(m, old(self)@) && !holds(m, c as int, v) ==> ok && refines(
                    m,
                    final(self)@,
                ),
        decreases total(old(self)@), 0nat,
    {
        let ghost g0 = self@;
        if !self.allows(c, v) {
            return true;
        }
        delete(&mut self.constraints[c], v);
        let ghost g1 = self@;
        proof {
            assert(g1 =~= g0.update(c as int, without(g0[c as int], v)));
            lemma_strike(g0, c as int, v);
            lemma_strike_defects(g0, c as int, v);
            assert forall|m: Grid| #[trigger]
                stable(m) && refines(m, g0) && !holds(m, c as int, v) implies refines(m, g1) by {
                lemma_strike_keeps(m, g0, c as int, v);
            }
        }
        let n = self.constraints[c].len();
        if n == 0 {
            proof {
                assert forall|m: Grid| #[trigger]
                    stable(m) && refines(m, g0) && !holds(m, c as int, v) implies false by {
                    lemma_empty_below(m, g1, c as int);
                }
            }
            return false;
        }
        let ghost left = g1[c as int][0];
        let ghost cleared = if n == 1 {
            strike_peers(total(g0), g1, c as int, left, 0)
        } else {
            (g1, true)
        };
        assert(strike(g0, c as int, v) == if !cleared.1 {
            cleared
        } else {
            serve_units(total(g0), cleared.0, c as int, v, 0)
        });
        if n == 1 {
            let val = self.constraints[c][0];
            let peers = pr.peers(c);
            assert(peers@ == peers_of(c as int));
            let mut i: usize = 0;
            while i < peers.len()
                invariant
                    i <= peers.len(),
                    peers@ == peers_of(c as int),
                    pr.wf(),
                    c < 81,
                    g0 == old(self)@,
                    grid_wf(g0),
                    holds(g0, c as int, v),
                    g1 == g0.update(c as int, without(g0[c as int], v)),
                    shrinks(g1, g0),
                    !holds(g1, c as int, v),
                    grid_wf(g1),
                    total(g1) < total(g0),
                    settled(g1, c as int, val),
                    strike_peers(total(g0), self@, c as int, val, i as int) == cleared,
                    !cleared.1 ==> strike(g0, c as int, v) == cleared,
                    self.wf(),
                    shrinks(self@, g1),
                    no_new_defects(self@, g1),
                    forall|j: int| 0 <= j < i ==> !holds(self@, #[trigger] peers@[j] as int, val),
                    forall|m: Grid| #[trigger] stable(m) && refines(m, g1) ==> refines(m, self@),
                decreases peers.len() - i,
            {
                let p = peers[i];
                let ghost before = self@;
                proof {
                    assert(peers_of(c as int).contains(p));
                    lemma_peers_contains(c as int, p);
                    lemma_total_shrinks(before, g1);
                }
                let ok = self.eliminate(pr, p, val);
                proof {
                    lemma_shrinks_trans(self@, before, g1);
                    assert forall|m: Grid| #[trigger] stable(m) && refines(m, g1) implies ok
                        && refines(m, self@) by {
                        lemma_settled_below(m, g1, c as int, val);
                        assert(refines(m, before));
                        assert(!holds(m, p as int, val));
                    }
                    assert forall|j: int| 0 <= j < i + 1 implies !holds(
                        self@,
                        #[trigger] peers@[j] as int,
                        val,
                    ) by {
                        if j < i {
                            assert(peers_of(c as int).contains(peers@[j]));
                            lemma_peers_contains(c as int, peers@[j]);
                            assert(!holds(before, peers@[j] as int, val));
                        }
                    }
                }
                if !ok {
                    proof {
                        lemma_shrinks_trans(self@, g1, g0);
                        assert forall|m: Grid| #[trigger]
                            stable(m) && refines(m, g0) && !holds(m, c as int, v) implies false by {
                            lemma_strike_keeps(m, g0, c as int, v);
                        }
                    }
                    return false;
                }
                i += 1;
            }
            proof {
                assert forall|p: int| is_cell(p) && are_peers(c as int, p) implies !#[trigger] holds(
                    self@,
                    p,
                    val,
                ) by {
                    lemma_peers_contains(c as int, p as usize);
                    let j = choose|j: int| 0 <= j < peers@.len() && peers@[j] == p as usize;
                    assert(!holds(self@, peers@[j] as int, val));
                }
            }
        }
        let units = pr.units(c);
        assert(units@.len() == 3 && forall|j: int|
            0 <= j < 3 ==> (#[trigger] units@[j])@ == units_of(c as int)[j]);
        let mut k: usize = 0;
        while k < 3
            invariant
                k <= 3,
                pr.wf(),
                c < 81,
                units@.len() == 3,
                forall|j: int| 0 <= j < 3 ==> (#[trigger] units@[j])@ == unit_cells(unit_of(c as int, j)),
                g0 == old(self)@,
                grid_wf(g0),
                holds(g0, c as int, v),
                g1 == g0.update(c as int, without(g0[c as int], v)),
                shrinks(g1, g0),
                grid_wf(g1),
                is_digit(v as int),
                total(g1) < total(g0),
                !holds(g1, c as int, v),
                serve_units(total(g0), self@, c as int, v, k as int) == strike(g0, c as int, v),
                self.wf(),
                shrinks(self@, g1),
                no_new_defects(self@, g1),
                g1[c as int].len() == 1 ==> peers_clean(self@, c as int, left),
                units_done(self@, c as int, v, k as int),
                forall|m: Grid| #[trigger] stable(m) && refines(m, g1) ==> refines(m, self@),
            decreases 3 - k,
        {
            let unit = &units[k];
            let ghost u = unit_of(c as int, k as int);
            let ghost before = self@;
            proof {
                lemma_unit_of(c as int);
                lemma_unit_cells(u);
                assert(unit@ == unit_cells(u));
                assert forall|a: int, b: int|
                    0 <= a < unit@.len() && 0 <= b < unit@.len() && a != b implies unit@[a] != unit@[b] by {
                    assert(unit_pos(u, unit_cell(u, a)) == a);
                    assert(unit_pos(u, unit_cell(u, b)) == b);
                }
                assert forall|a: int| 0 <= a < unit@.len() implies #[trigger] unit@[a] < 81 by {
                    assert(is_cell(unit_cell(u, a)));
                }
                lemma_total_shrinks(before, g1);
            }
            let places = self.holders(unit, v);
            if places.len() == 0 {
                proof {
                    assert forall|y: int| is_cell(y) && in_unit(u, y) implies !#[trigger] holds(
                        before,
                        y,
                        v,
                    ) by {
                        lemma_unit_contains(u, y as usize);
                        let a = choose|a: int| 0 <= a < unit@.len() && unit@[a] == y as usize;
                        if holds(before, unit@[a] as int, v) {
                            assert(places@.contains(unit@[a]));
                        }
                    }
                    assert(lone(before, u, c as int, v));
                    assert(no_place(before, u, v));
                    assert forall|m: Grid| #[trigger] stable(m) && refines(m, g1) implies false by {
                        lemma_lone_below(m, before, u, c as int, v);
                    }
                    lemma_shrinks_trans(self@, g1, g0);
                    assert forall|m: Grid| #[trigger]
                        stable(m) && refines(m, g0) && !holds(m, c as int, v) implies false by {
                        lemma_strike_keeps(m, g0, c as int, v);
                    }
                }
                return false;
            }
            if places.len() == 1 {
                let x = places[0];
                proof {
                    assert(unit@.contains(places@[0]));
                    lemma_unit_contains(u, x);
                    assert forall|y: int| is_cell(y) && in_unit(u, y) && y != x implies !#[trigger] holds(
                        before,
                        y,
                        v,
                    ) by {
                        lemma_unit_contains(u, y as usize);
                        let a = choose|a: int| 0 <= a < unit@.len() && unit@[a] == y as usize;
                        if holds(before, unit@[a] as int, v) {
                            assert(places@.contains(unit@[a]));
                            let b = choose|b: int| 0 <= b < places@.len() && places@[b] == unit@[a];
                        }
                    }
                    assert(lone(before, u, x as int, v));
                    assert(holds(before, places@[0] as int, v));
                    assert(is_sole_place(before, u, v, x as int));
                    assert(is_sole_place(before, u, v, sole_place(before, u, v)));
                    assert(sole_place(before, u, v) == x);
                    assert(!no_place(before, u, v));
                }
                let ok = self.assign(pr, x, v);
                proof {
                    lemma_shrinks_trans(self@, before, g1);
                    assert forall|m: Grid| #[trigger] stable(m) && refines(m, g1) implies ok
                        && refines(m, self@) by {
                        assert(refines(m, before));
                        lemma_lone_below(m, before, u, x as int, v);
                    }
                    if ok {
                        assert(self@[x as int].contains(self@[x as int][0]));
                        lemma_unit_served(self@, u, v, x as int, x as int);
                    }
                }
                if !ok {
                    proof {
                        lemma_shrinks_trans(self@, g1, g0);
                        assert forall|m: Grid| #[trigger]
                            stable(m) && refines(m, g0) && !holds(m, c as int, v) implies false by {
                            lemma_strike_keeps(m, g0, c as int, v);
                        }
                    }
                    return false;
                }
            } else {
                proof {
                    let x = places@[0];
                    let y = places@[1];
                    assert(unit@.contains(places@[0]) && unit@.contains(places@[1]));
                    lemma_unit_contains(u, x);
                    lemma_unit_contains(u, y);
                    assert(holds(before, places@[0] as int, v));
                    assert(holds(before, places@[1] as int, v));
                    lemma_unit_served(before, u, v, x as int, y as int);
                    assert(!no_place(before, u, v));
                    if has_sole_place(before, u, v) {
                        let z = choose|z: int| is_sole_place(before, u, v, z);
                        if z != x {
                            assert(!holds(before, x as int, v));
                        } else {
                            assert(!holds(before, y as int, v));
                        }
                    }
                }
            }
            proof {
                assert(unit_done(self@, u, v));
                assert(units_done(self@, c as int, v, k + 1));
            }
            k += 1;
        }
        proof {
            lemma_shrinks_trans(self@, g1, g0);
            lemma_unit_of(c as int);
            assert forall|m: Grid| #[trigger]
                stable(m) && refines(m, g0) && !holds(m, c as int, v) implies refines(m, self@) by {
                lemma_strike_keeps(m, g0, c as int, v);
            }
            assert forall|d: Defect| #[trigger] defect(self@, d) implies defect(g0, d) by {
                assert(defect(g1, d));
                if !defect(g0, d) {
                    assert(caused(d, c as int, v));
                    match d {
                        Defect::Empty { cell } => {},
                        Defect::Clash { cell, peer } => {
                            assert(holds(self@, c as int, self@[c as int][0])) by {
                                assert(self@[c as int].contains(self@[c as int][0]));
                            }
                            assert(holds(g1, c as int, self@[c as int][0]));
                            let a = choose|a: int|
                                0 <= a < g1[c as int].len() && g1[c as int][a] == self@[c as int][0];
                            assert(self@[c as int][0] == left);
                        },
                        Defect::Gap { unit, cell, digit } => {
                            assert(unit == unit_of(c as int, 0) || unit == unit_of(c as int, 1) || unit
                                == unit_of(c as int, 2));
                        },
                    }
                }
            }
        }
        true
    }

    /// Looks for a solved board below this one, depth first: it branches on
    /// the cell that `solved` names, tries that cell's candidates in
    /// ascending order on a copy of the board, and returns the first solved
    /// board that comes up. The board itself stays as it is.
    pub fn search(&mut self, pr: &Problem) -> (r: Option<Board>)
        requires
            old(self).wf(),
            pr.wf(),
        ensures
            final(self)@ == old(self)@,
            explore(old(self)@) == (match r {
                Some(b) => Some(b@),
                None => None,
            }),
            r matches Some(b) ==> b.wf() && complete(b@) && shrinks(b@, old(self)@) && no_new_defects(
                b@,
                old(self)@,
            ),
            r is None ==> forall|m: Grid| #[trigger] is_solution(m) ==> !refines(m, old(self)@),
            clash_free(old(self)@) ==> (r matches Some(b) ==> is_solution(b@)),
            forall|m: Grid|
                clash_free(old(self)@) && #[trigger] only_solution(m, old(self)@) ==> (r matches Some(
                    b,
                ) && b@ == m),
        decreases total(old(self)@),
    {
        let ghost g0 = self@;
        match self.solved() {
            Outcome::Failed => {
                proof {
                    let c = choose|c: int| is_cell(c) && (#[trigger] g0[c]).len() == 0;
                    assert forall|m: Grid| #[trigger] is_solution(m) implies !refines(m, g0) by {
                        lemma_solution_stable(m);
                        if refines(m, g0) {
                            lemma_empty_below(m, g0, c);
                        }
                    }
                    lemma_search_laws(g0, None);
                }
                None
            },
            Outcome::Done => {
                let b = self.clone();
                proof {
                    lemma_search_laws(g0, Some(b@));
                }
                Some(b)
            },
            Outcome::Next(c) => {
                let n = self.constraints[c].len();
                let mut i: usize = 0;
                while i < n
                    invariant
                        i <= n,
                        pr.wf(),
                        c < 81,
                        g0 == old(self)@,
                        self@ == g0,
                        grid_wf(g0),
                        n == g0[c as int].len(),
                        n >= 2,
                        try_from(total(g0), g0, c as int, i as int) == explore(g0),
                        forall|m: Grid| #[trigger]
                            is_solution(m) && refines(m, g0) ==> untried(g0[c as int], i as int, m[c as int][0]),
                    decreases n - i,
                {
                    let v = self.constraints[c][i];
                    let mut new = self.clone();
                    let ok = new.assign(pr, c, v);
                    let ghost g1 = new@;
                    proof {
                        assert(g0[c as int].contains(v));
                        assert(holds(g0, c as int, v));
                        if ok {
                            lemma_total_shrinks(g1, g0);
                            assert(g1[c as int].len() < g0[c as int].len());
                        }
                    }
                    if ok {
                        if let Some(b) = new.search(pr) {
                            proof {
                                lemma_shrinks_trans(b@, g1, g0);
                                lemma_search_laws(g0, Some(b@));
                            }
                            return Some(b);
                        }
                    }
                    proof {
                        assert forall|m: Grid| #[trigger] is_solution(m) && refines(m, g0) implies untried(
                            g0[c as int],
                            i + 1,
                            m[c as int][0],
                        ) by {
                            lemma_solution_stable(m);
                            assert(m[c as int].len() == 1);
                            if m[c as int][0] == v {
                                assert(settled(m, c as int, v));
                                assert(ok && refines(m, g1));
                                assert(false);
                            }
                        }
                    }
                    i += 1;
                }
                proof {
                    assert forall|m: Grid| #[trigger] is_solution(m) implies !refines(m, g0) by {
                        if refines(m, g0) {
                            lemma_solution_stable(m);
                            assert(m[c as int].len() == 1);
                            let d = m[c as int][0];
                            assert(m[c as int].contains(d));
                            assert(holds(m, c as int, d));
                            assert(holds(g0, c as int, d));
                            let j = choose|j: int| 0 <= j < g0[c as int].len() && g0[c as int][j] == d;
                            assert(untried(g0[c as int], n as int, d));
                        }
                    }
                    lemma_search_laws(g0, None);
                }
                None
            },
        }
    }
}

/// What follows from the two ways a search can end: what it found below a
/// board without clashes is solved, and such a board with one solution below
/// it yields that solution.
pub proof fn lemma_search_laws(g0: Grid, r: Option<Grid>)
    requires
        grid_wf(g0),
        r matches Some(b) ==> grid_wf(b) && complete(b) && shrinks(b, g0) && no_new_defects(b, g0),
        r is None ==> forall|m: Grid| #[trigger] is_solution(m) ==> !refines(m, g0),
    ensures
        clash_free(g0) ==> (r matches Some(b) ==> is_solution(b)),
        forall|m: Grid|
            clash_free(g0) && #[trigger] only_solution(m, g0) ==> (r matches Some(b) && b == m),
{
    if clash_free(g0) {
        if let Some(b) = r {
            assert(clash_free(b));
            lemma_clash_free_complete(b);
        }
    }
}

} // verus!
