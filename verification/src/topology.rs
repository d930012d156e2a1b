//! The fixed geometry of the 9×9 grid: its 27 units and each cell's peers.
//!
//! Cells are numbered row by row, so cell `x` sits in row `x / 9` and column
//! `x % 9`. Units are numbered 0..27: first the nine columns, then the nine
//! rows, then the nine boxes (boxes row by row as well).

use vstd::prelude::*;

verus! {

/// Whether `x` is the index of a cell.
pub open spec fn is_cell(x: int) -> bool {
    0 <= x < 81
}

/// Whether `u` is the number of a unit.
pub open spec fn is_unit(u: int) -> bool {
    0 <= u < 27
}

/// Whether `d` is a digit that may be written into a cell.
pub open spec fn is_digit(d: int) -> bool {
    1 <= d <= 9
}

/// Whether cell `x` lies in unit `u`.
#[verifier::opaque]
pub open spec fn in_unit(u: int, x: int) -> bool {
    if u < 9 {
        x % 9 == u
    } else if u < 18 {
        x / 9 == u - 9
    } else {
        3 * (x / 27) + (x % 9) / 3 == u - 18
    }
}

/// The `i`-th cell of unit `u`: columns run top to bottom, rows left to
/// right, boxes row by row.
#[verifier::opaque]
pub open spec fn unit_cell(u: int, i: int) -> int {
    if u < 9 {
        9 * i + u
    } else if u < 18 {
        9 * (u - 9) + i
    } else {
        9 * (3 * ((u - 18) / 3) + i / 3) + 3 * ((u - 18) % 3) + i % 3
    }
}

/// The place that cell `x` takes within unit `u`, for a cell of that unit.
#[verifier::opaque]
pub open spec fn unit_pos(u: int, x: int) -> int {
    if u < 9 {
        x / 9
    } else if u < 18 {
        x % 9
    } else {
        3 * ((x / 9) % 3) + x % 3
    }
}

/// The nine cells of unit `u`, in order.
pub open spec fn unit_cells(u: int) -> Seq<usize> {
    Seq::new(9, |i: int| unit_cell(u, i) as usize)
}

/// The `k`-th unit of cell `c`: its column for 0, its row for 1, its box
/// otherwise.
#[verifier::opaque]
pub open spec fn unit_of(c: int, k: int) -> int {
    if k == 0 {
        c % 9
    } else if k == 1 {
        9 + c / 9
    } else {
        18 + 3 * (c / 27) + (c % 9) / 3
    }
}

/// Two different cells are peers when they share a column, a row or a box.
#[verifier::opaque]
pub open spec fn are_peers(x: int, y: int) -> bool {
    &&& x != y
    &&& (x % 9 == y % 9 || x / 9 == y / 9 || (x / 27 == y / 27 && (x % 9) / 3 == (y % 9) / 3))
}

/// The test that keeps every cell but `c`.
pub open spec fn other_than(c: usize) -> spec_fn(usize) -> bool {
    |x: usize| x != c
}

/// The cells of unit `u` without `c`, in order.
pub open spec fn others(u: int, c: usize) -> Seq<usize> {
    unit_cells(u).filter(other_than(c))
}

/// The peer list of cell `c`: its column, row and box one after the other,
/// each without `c` itself. A cell that shares two units with `c` is listed
/// twice.
pub open spec fn peers_of(c: int) -> Seq<usize> {
    others(unit_of(c, 0), c as usize) + others(unit_of(c, 1), c as usize) + others(
        unit_of(c, 2),
        c as usize,
    )
}

/// The `i`-th cell of a unit is a cell of that unit, at place `i`.
pub proof fn lemma_unit_cell(u: int, i: int)
    requires
        is_unit(u),
        0 <= i < 9,
    ensures
        is_cell(unit_cell(u, i)),
        in_unit(u, unit_cell(u, i)),
        unit_pos(u, unit_cell(u, i)) == i,
{
    reveal(in_unit);
    reveal(unit_cell);
    reveal(unit_pos);
    if u >= 18 {
        let b = u - 18;
        let (br, bc, ir, ic) = (b / 3, b % 3, i / 3, i % 3);
        let x = unit_cell(u, i);
        assert(x == 27 * br + 9 * ir + 3 * bc + ic);
        assert(x / 27 == br && x % 27 == 9 * ir + 3 * bc + ic);
        assert(x / 9 == 3 * br + ir && x % 9 == 3 * bc + ic);
        assert(x % 3 == ic);
    }
}

/// A cell of a unit is listed in it at the place `unit_pos` gives.
pub proof fn lemma_unit_pos(u: int, x: int)
    requires
        is_unit(u),
        is_cell(x),
        in_unit(u, x),
    ensures
        0 <= unit_pos(u, x) < 9,
        unit_cell(u, unit_pos(u, x)) == x,
{
    reveal(in_unit);
    reveal(unit_cell);
    reveal(unit_pos);
    if u >= 18 {
        let b = u - 18;
        let (br, r9) = (x / 27, x % 27);
        let (ir, r3) = (r9 / 9, r9 % 9);
        let (bc, ic) = (r3 / 3, r3 % 3);
        assert(x == 27 * br + 9 * ir + 3 * bc + ic);
        assert(x / 9 == 3 * br + ir && x % 9 == 3 * bc + ic);
        assert(x % 3 == ic);
        assert(b == 3 * br + bc);
        assert(b / 3 == br && b % 3 == bc);
        let i = unit_pos(u, x);
        assert(i == 3 * ir + ic);
        assert(i / 3 == ir && i % 3 == ic);
    }
}

/// Every unit consists of cells that lie in it, and lists each of its cells
/// at the place `unit_pos` gives.
pub proof fn lemma_unit_cells(u: int)
    requires
        is_unit(u),
    ensures
        forall|i: int|
            0 <= i < 9 ==> is_cell(#[trigger] unit_cell(u, i)) && in_unit(u, unit_cell(u, i))
                && unit_pos(u, unit_cell(u, i)) == i,
        forall|x: int|
            is_cell(x) && #[trigger] in_unit(u, x) ==> 0 <= unit_pos(u, x) < 9 && unit_cell(
                u,
                unit_pos(u, x),
            ) == x,
{
    assert forall|i: int| 0 <= i < 9 implies is_cell(#[trigger] unit_cell(u, i)) && in_unit(
        u,
        unit_cell(u, i),
    ) && unit_pos(u, unit_cell(u, i)) == i by {
        lemma_unit_cell(u, i);
    }
    assert forall|x: int| is_cell(x) && #[trigger] in_unit(u, x) implies 0 <= unit_pos(u, x) < 9
        && unit_cell(u, unit_pos(u, x)) == x by {
        lemma_unit_pos(u, x);
    }
}

/// A cell lies in exactly the three units that `unit_of` names.
pub proof fn lemma_unit_of(c: int)
    requires
        is_cell(c),
    ensures
        forall|k: int| 0 <= k < 3 ==> is_unit(#[trigger] unit_of(c, k)) && in_unit(unit_of(c, k), c),
        forall|u: int|
            is_unit(u) && #[trigger] in_unit(u, c) ==> u == unit_of(c, 0) || u == unit_of(c, 1)
                || u == unit_of(c, 2),
{
    reveal(in_unit);
    reveal(unit_of);
}

/// Two cells are peers exactly when they differ and some unit holds both.
pub proof fn lemma_peers_share_unit(x: int, y: int)
    requires
        is_cell(x),
        is_cell(y),
    ensures
        are_peers(x, y) <==> x != y && exists|u: int|
            is_unit(u) && in_unit(u, x) && #[trigger] in_unit(u, y),
{
    reveal(in_unit);
    reveal(unit_of);
    reveal(are_peers);
    lemma_unit_of(x);
    lemma_unit_of(y);
    if are_peers(x, y) {
        if x % 9 == y % 9 {
            assert(in_unit(unit_of(x, 0), y));
        } else if x / 9 == y / 9 {
            assert(in_unit(unit_of(x, 1), y));
        } else {
            assert(in_unit(unit_of(x, 2), y));
        }
    }
}

/// What the list of a unit's cells contains.
pub proof fn lemma_unit_contains(u: int, x: usize)
    requires
        is_unit(u),
    ensures
        unit_cells(u).contains(x) <==> is_cell(x as int) && in_unit(u, x as int),
{
    lemma_unit_cells(u);
    let s = unit_cells(u);
    if s.contains(x) {
        let i = choose|i: int| 0 <= i < s.len() && s[i] == x;
        assert(s[i] == unit_cell(u, i) as usize);
    }
    if is_cell(x as int) && in_unit(u, x as int) {
        let i = unit_pos(u, x as int);
        assert(s[i] == x);
    }
}

/// What the list of a unit's cells without `c` contains.
pub proof fn lemma_others_contains(u: int, c: usize, x: usize)
    requires
        is_unit(u),
    ensures
        others(u, c).contains(x) <==> x != c && is_cell(x as int) && in_unit(u, x as int),
{
    let s = unit_cells(u);
    let p = other_than(c);
    lemma_unit_contains(u, x);
    if others(u, c).contains(x) {
        s.lemma_filter_contains_rev(p, x);
        let i = choose|i: int| 0 <= i < s.filter(p).len() && s.filter(p)[i] == x;
        s.lemma_filter_pred(p, i);
    }
    if x != c && s.contains(x) {
        let i = choose|i: int| 0 <= i < s.len() && s[i] == x;
        s.lemma_filter_contains(p, i);
    }
}

/// The peer list of a cell holds exactly the cells that are its peers.
pub proof fn lemma_peers_contains(c: int, p: usize)
    requires
        is_cell(c),
    ensures
        peers_of(c).contains(p) <==> is_cell(p as int) && are_peers(c, p as int),
{
    lemma_unit_of(c);
    if is_cell(p as int) {
        lemma_peers_share_unit(c, p as int);
        if in_unit(unit_of(c, 0), p as int) || in_unit(unit_of(c, 1), p as int) || in_unit(
            unit_of(c, 2),
            p as int,
        ) {
            let k: int = if in_unit(unit_of(c, 0), p as int) {
                0
            } else if in_unit(unit_of(c, 1), p as int) {
                1
            } else {
                2
            };
            assert(is_unit(unit_of(c, k)) && in_unit(unit_of(c, k), c) && in_unit(
                unit_of(c, k),
                p as int,
            ));
        }
    }
    let a = others(unit_of(c, 0), c as usize);
    let b = others(unit_of(c, 1), c as usize);
    let d = others(unit_of(c, 2), c as usize);
    lemma_others_contains(unit_of(c, 0), c as usize, p);
    lemma_others_contains(unit_of(c, 1), c as usize, p);
    lemma_others_contains(unit_of(c, 2), c as usize, p);
    vstd::seq_lib::lemma_seq_concat_contains_all_elements(a, b, p);
    vstd::seq_lib::lemma_seq_concat_contains_all_elements(a + b, d, p);
}

/// Being a peer is symmetric: whoever is on the peer list of `c` has `c` on
/// its own peer list.
pub proof fn lemma_peers_symmetric(c: int, p: int)
    requires
        is_cell(c),
        is_cell(p),
        peers_of(c).contains(p as usize),
    ensures
        peers_of(p).contains(c as usize),
{
    reveal(are_peers);
    lemma_peers_contains(c, p as usize);
    lemma_peers_contains(p, c as usize);
}

/// The three units of cell `c`: its column, its row, its box.
pub open spec fn units_of(c: int) -> Seq<Seq<usize>> {
    seq![unit_cells(unit_of(c, 0)), unit_cells(unit_of(c, 1)), unit_cells(unit_of(c, 2))]
}

/// What a `Problem` holds: for each cell its units and its peer list.
pub struct Layout {
    pub units: Seq<Seq<Seq<usize>>>,
    pub peers: Seq<Seq<usize>>,
}

/// The layout of the 9×9 grid.
pub open spec fn layout() -> Layout {
    Layout { units: Seq::new(81, |c: int| units_of(c)), peers: Seq::new(81, |c: int| peers_of(c)) }
}

/// The units and peers of every cell, computed once and then only read.
#[derive(Debug)]
pub struct Problem {
    units: Vec<Vec<Vec<usize>>>,
    peers: Vec<Vec<usize>>,
}

impl View for Problem {
    type V = Layout;

    closed spec fn view(&self) -> Layout {
        Layout {
            units: Seq::new(
                self.units@.len(),
                |c: int| Seq::new(self.units@[c]@.len(), |k: int| self.units@[c]@[k]@),
            ),
            peers: Seq::new(self.peers@.len(), |c: int| self.peers@[c]@),
        }
    }
}

impl Clone for Problem {
    /// A copy with the same tables.
    fn clone(&self) -> (pr: Problem)
        ensures
            pr@ == self@,
    {
        let mut units: Vec<Vec<Vec<usize>>> = Vec::new();
        let mut c: usize = 0;
        while c < self.units.len()
            invariant
                c <= self.units.len(),
                units@.len() == c,
                forall|x: int| 0 <= x < c ==> (#[trigger] units@[x])@.len() == self.units@[x]@.len(),
                forall|x: int, k: int|
                    0 <= x < c && 0 <= k < self.units@[x]@.len() ==> (#[trigger] units@[x]@[k])@
                        == self.units@[x]@[k]@,
            decreases self.units.len() - c,
        {
            let src = &self.units[c];
            let mut us: Vec<Vec<usize>> = Vec::new();
            let mut k: usize = 0;
            while k < src.len()
                invariant
                    k <= src.len(),
                    us@.len() == k,
                    forall|j: int| 0 <= j < k ==> (#[trigger] us@[j])@ == src@[j]@,
                decreases src.len() - k,
            {
                us.push(src[k].clone());
                k += 1;
            }
            units.push(us);
            c += 1;
        }
        let mut peers: Vec<Vec<usize>> = Vec::new();
        let mut c: usize = 0;
        while c < self.peers.len()
            invariant
                c <= self.peers.len(),
                peers@.len() == c,
                forall|x: int| 0 <= x < c ==> (#[trigger] peers@[x])@ == self.peers@[x]@,
            decreases self.peers.len() - c,
        {
            peers.push(self.peers[c].clone());
            c += 1;
        }
        let pr = Problem { units, peers };
        proof {
            assert(pr@.peers =~= self@.peers);
            assert forall|x: int| 0 <= x < pr@.units.len() implies #[trigger] pr@.units[x]
                =~= self@.units[x] by {
                assert forall|k: int| 0 <= k < pr@.units[x].len() implies #[trigger] pr@.units[x][k]
                    == self@.units[x][k] by {
                    assert(units@[x]@[k]@ == self.units@[x]@[k]@);
                }
            }
            assert(pr@.units =~= self@.units);
        }
        pr
    }
}

impl Problem {
    /// The tables are those of the 9×9 grid.
    pub open spec fn wf(&self) -> bool {
        self@ == layout()
    }

    /// The three units of cell `c`: column, row, box.
    pub fn units(&self, c: usize) -> (us: &Vec<Vec<usize>>)
        requires
            c < self@.units.len(),
        ensures
            us@.len() == self@.units[c as int].len(),
            forall|k: int| 0 <= k < us@.len() ==> (#[trigger] us@[k])@ == self@.units[c as int][k],
    {
        &self.units[c]
    }

    /// The peer list of cell `c`.
    pub fn peers(&self, c: usize) -> (ps: &Vec<usize>)
        requires
            c < self@.peers.len(),
        ensures
            ps@ == self@.peers[c as int],
    {
        &self.peers[c]
    }
}

/// The `i`-th cell of unit `u`.
fn cell_at(u: usize, i: usize) -> (x: usize)
    requires
        u < 27,
        i < 9,
    ensures
        x == unit_cell(u as int, i as int),
        x < 81,
{
    proof {
        reveal(unit_cell);
    }
    if u < 9 {
        9 * i + u
    } else if u < 18 {
        9 * (u - 9) + i
    } else {
        9 * (3 * ((u - 18) / 3) + i / 3) + 3 * ((u - 18) % 3) + i % 3
    }
}

/// The cells of `unit` other than `c`, in order.
fn without_cell(unit: &Vec<usize>, c: usize) -> (rest: Vec<usize>)
    ensures
        rest@ == unit@.filter(other_than(c)),
{
    let mut rest: Vec<usize> = Vec::new();
    let mut i: usize = 0;
    proof {
        assert(unit@.take(0) =~= Seq::<usize>::empty());
        reveal(Seq::filter);
    }
    while i < unit.len()
        invariant
            i <= unit.len(),
            rest@ == unit@.take(i as int).filter(other_than(c)),
        decreases unit.len() - i,
    {
        let x = unit[i];
        proof {
            assert(unit@.take(i + 1) =~= unit@.take(i as int).push(x));
            unit@.take(i as int).lemma_filter_push(x, other_than(c));
        }
        if x != c {
            rest.push(x);
        }
        i += 1;
    }
    proof {
        assert(unit@.take(unit@.len() as int) =~= unit@);
    }
    rest
}

/// Builds the units and peers of all 81 cells.
pub fn make_units() -> (pr: Problem)
    ensures
        pr@ == layout(),
        pr.wf(),
{
    let mut unit_set: Vec<Vec<usize>> = Vec::new();
    let mut u: usize = 0;
    while u < 27
        invariant
            u <= 27,
            unit_set@.len() == u,
            forall|j: int| 0 <= j < u ==> (#[trigger] unit_set@[j])@ == unit_cells(j),
        decreases 27 - u,
    {
        let mut a: Vec<usize> = Vec::new();
        let mut i: usize = 0;
        while i < 9
            invariant
                u < 27,
                i <= 9,
                a@.len() == i,
                forall|j: int| 0 <= j < i ==> #[trigger] a@[j] == unit_cell(u as int, j),
            decreases 9 - i,
        {
            a.push(cell_at(u, i));
            i += 1;
        }
        proof {
            lemma_unit_cells(u as int);
            assert(a@ =~= unit_cells(u as int));
        }
        unit_set.push(a);
        u += 1;
    }
    let mut units: Vec<Vec<Vec<usize>>> = Vec::new();
    let mut peers: Vec<Vec<usize>> = Vec::new();
    let mut c: usize = 0;
    while c < 81
        invariant
            c <= 81,
            unit_set@.len() == 27,
            forall|j: int| 0 <= j < 27 ==> (#[trigger] unit_set@[j])@ == unit_cells(j),
            units@.len() == c,
            peers@.len() == c,
            forall|x: int| 0 <= x < c ==> (#[trigger] peers@[x])@ == peers_of(x),
            forall|x: int| 0 <= x < c ==> (#[trigger] units@[x])@.len() == 3,
            forall|x: int, k: int|
                0 <= x < c && 0 <= k < 3 ==> (#[trigger] units@[x]@[k])@ == unit_cells(
                    unit_of(x, k),
                ),
        decreases 81 - c,
    {
        let col = c % 9;
        let row = 9 + c / 9;
        let bx = 18 + 3 * (c / 27) + (c % 9) / 3;
        let mut acc: Vec<usize> = without_cell(&unit_set[col], c);
        let mut in_row: Vec<usize> = without_cell(&unit_set[row], c);
        let mut in_box: Vec<usize> = without_cell(&unit_set[bx], c);
        acc.append(&mut in_row);
        acc.append(&mut in_box);
        let mut us: Vec<Vec<usize>> = Vec::new();
        us.push(unit_set[col].clone());
        us.push(unit_set[row].clone());
        us.push(unit_set[bx].clone());
        proof {
            reveal(unit_of);
            assert(col == unit_of(c as int, 0));
            assert(row == unit_of(c as int, 1));
            assert(bx == unit_of(c as int, 2));
            assert(acc@ == peers_of(c as int));
            assert(forall|k: int| 0 <= k < 3 ==> (#[trigger] us@[k])@ == unit_cells(unit_of(c as int, k)));
        }
        units.push(us);
        peers.push(acc);
        c += 1;
    }
    let pr = Problem { units, peers };
    proof {
        assert(pr@.peers =~= layout().peers);
        assert forall|x: int| 0 <= x < 81 implies #[trigger] pr@.units[x] =~= units_of(x) by {
            assert forall|k: int| 0 <= k < 3 implies pr@.units[x][k] == #[trigger] units_of(x)[k] by {
                assert(units@[x]@[k]@ == unit_cells(unit_of(x, k)));
            }
        }
        assert(pr@.units =~= layout().units);
    }
    pr
}

} // verus!
