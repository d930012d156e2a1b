//! Puzzles as text: 81 characters, row by row, a digit from 1 to 9 for a
//! given cell and `0` or `.` for a blank one. Line breaks and every other
//! character are passed over as if they were not there.

use vstd::prelude::*;
use crate::board::Board;
use crate::candidates::is_candidates;
use crate::model::{
    defect, full_grid, holds, is_solution, lemma_full_grid_stable, lemma_settled_below,
    lemma_solution_stable, refines, settled, stable, Defect, Grid,
};
use crate::steps::{commit, explore};
use crate::topology::{is_cell, make_units};

verus! {

/// The test that tells the characters that stand for a cell from the rest:
/// the ten digits and the dot do, nothing else does.
pub open spec fn stands_for_cell() -> spec_fn(char) -> bool {
    |ch: char| ch as u32 == 46 || 48 <= ch as u32 <= 57
}

/// The characters of `text` that stand for cells, in order.
pub open spec fn cell_chars(text: Seq<char>) -> Seq<char> {
    text.filter(stands_for_cell())
}

/// The digit that a character gives to its cell: `'1'` to `'9'` give 1 to 9,
/// while `'0'` and `'.'` leave the cell blank.
pub open spec fn clue(ch: char) -> Option<usize> {
    if 49 <= ch as u32 <= 57 {
        Some((ch as u32 - 48) as usize)
    } else {
        None
    }
}

/// Grid `g` is settled on every digit that `text` gives: the `k`-th cell
/// character speaks of cell `k`, and what comes after the 81st is ignored.
pub open spec fn agrees(g: Grid, text: Seq<char>) -> bool {
    forall|k: int|
        0 <= k < cell_chars(text).len() && k < 81 ==> (clue(#[trigger] cell_chars(text)[k]) matches Some(
            d,
        ) ==> settled(g, k, d))
}

/// Assigns the digits that `cells` gives, from the `k`-th cell on, and stops
/// at the first assignment that fails.
pub open spec fn load(g: Grid, cells: Seq<char>, k: int) -> (Grid, bool)
    decreases cells.len() - k,
{
    if k < 0 || k >= cells.len() || k >= 81 {
        (g, true)
    } else {
        match clue(cells[k]) {
            Some(d) => {
                let next = commit(g, k, d);
                if !next.1 {
                    next
                } else {
                    load(next.0, cells, k + 1)
                }
            },
            None => load(g, cells, k + 1),
        }
    }
}

/// What `solve_puzzle` returns for `text`: the given digits are assigned to
/// a board with all candidates, in the order of the text, and the search
/// runs on what that leaves.
pub open spec fn solution(text: Seq<char>) -> Option<Grid> {
    let loaded = load(full_grid(), cell_chars(text), 0);
    if loaded.1 {
        explore(loaded.0)
    } else {
        None
    }
}

/// The cell characters of a text with one more character.
pub proof fn lemma_cell_chars_push(text: Seq<char>, ch: char)
    ensures
        cell_chars(text.push(ch)) == if stands_for_cell()(ch) {
            cell_chars(text).push(ch)
        } else {
            cell_chars(text)
        },
{
    text.lemma_filter_push(ch, stands_for_cell());
}

/// The cell characters of the start of a text are the start of its cell
/// characters.
pub proof fn lemma_cell_chars_prefix(text: Seq<char>, j: int)
    requires
        0 <= j <= text.len(),
    ensures
        cell_chars(text.take(j)).len() <= cell_chars(text).len(),
        forall|k: int|
            0 <= k < cell_chars(text.take(j)).len() ==> cell_chars(text)[k] == #[trigger] cell_chars(
                text.take(j),
            )[k],
{
    assert(text =~= text.take(j) + text.skip(j));
    Seq::filter_distributes_over_add(text.take(j), text.skip(j), stands_for_cell());
}

/// Whether `ch` stands for a cell: a digit or a dot.
pub fn takes_cell(ch: char) -> (r: bool)
    ensures
        r == stands_for_cell()(ch),
{
    let code = ch as u32;
    code == 46 || (48 <= code && code <= 57)
}

/// The digit that `ch` gives to its cell, if any.
pub fn digit_of(ch: char) -> (r: Option<usize>)
    ensures
        r == clue(ch),
        r matches Some(d) ==> 1 <= d <= 9,
{
    let code = ch as u32;
    if 49 <= code && code <= 57 {
        Some((code - 48) as usize)
    } else {
        None
    }
}

/// Solves the puzzle that `s` describes: assigns the given digits in the
/// order of the text, then searches. The result is a solved board that
/// agrees with every given digit, or `None` when there is none. Only digits
/// and dots count as cells; what follows the 81st of them is ignored.
pub fn solve_puzzle(s: &str) -> (r: Option<Board>)
    ensures
        solution(s@) == (match r {
            Some(b) => Some(b@),
            None => None,
        }),
        r matches Some(b) ==> b.wf() && is_solution(b@) && agrees(b@, s@),
        r is None ==> forall|m: Grid| #[trigger] is_solution(m) ==> !agrees(m, s@),
        r is Some <==> exists|m: Grid| #[trigger] is_solution(m) && agrees(m, s@),
        forall|m: Grid|
            #![trigger is_solution(m)]
            is_solution(m) && agrees(m, s@) && (forall|n: Grid| #[trigger] is_solution(n) && agrees(n, s@) ==> n == m)
                ==> (r matches Some(b) && b@ == m),
{
    let pr = make_units();
    let mut b = Board::new();
    let mut current: usize = 0;
    proof {
        lemma_full_grid_stable();
        assert(s@.take(0) =~= Seq::<char>::empty());
        reveal(Seq::filter);
        assert forall|m: Grid| #[trigger] is_solution(m) implies refines(m, b@) by {
            assert forall|c: int, v: usize| is_cell(c) && #[trigger] holds(m, c, v) implies holds(
                b@,
                c,
                v,
            ) by {
                assert(is_candidates(m[c]));
                let k = choose|k: int| 0 <= k < m[c].len() && m[c][k] == v;
                assert(1 <= m[c][k] <= 9);
            }
        }
    }
    for ch in it: s.chars()
        invariant
            it.seq() == s@,
            pr.wf(),
            b.wf(),
            stable(b@),
            current <= 81,
            current == if cell_chars(s@.take(it.index())).len() < 81 {
                cell_chars(s@.take(it.index())).len()
            } else {
                81
            },
            agrees(b@, s@.take(it.index())),
            load(b@, cell_chars(s@), current as int) == load(full_grid(), cell_chars(s@), 0),
            forall|m: Grid| #[trigger] is_solution(m) && agrees(m, s@) ==> refines(m, b@),
    {
        let ghost i = it.index();
        let ghost before = b@;
        let ghost seen = cell_chars(s@.take(i));
        proof {
            assert(s@.take(i + 1) =~= s@.take(i).push(ch));
            lemma_cell_chars_push(s@.take(i), ch);
            lemma_cell_chars_prefix(s@, i + 1);
        }
        if takes_cell(ch) && current < 81 {
            proof {
                assert(seen.push(ch)[current as int] == ch);
                assert(cell_chars(s@)[current as int] == ch);
            }
            if let Some(d) = digit_of(ch) {
                let ok = b.assign(&pr, current, d);
                proof {
                    assert forall|m: Grid| #[trigger] is_solution(m) && agrees(m, s@) implies ok && refines(
                        m,
                        b@,
                    ) by {
                        lemma_solution_stable(m);
                        assert(settled(m, current as int, d));
                    }
                    if ok {
                        assert(!defect(before, Defect::Empty { cell: current as int }));
                    }
                }
                if !ok {
                    return None;
                }
            }
            proof {
                assert forall|k: int| 0 <= k < seen.len() && k < 81 implies (clue(#[trigger] seen[k]) matches Some(
                    e,
                ) ==> settled(b@, k, e)) by {
                    if let Some(e) = clue(seen[k]) {
                        assert(settled(before, k, e));
                        lemma_settled_below(b@, before, k, e);
                    }
                }
            }
            current += 1;
        }
    }
    proof {
        assert(s@.take(s@.len() as int) =~= s@);
    }
    let ghost loaded = b@;
    let r = b.search(&pr);
    proof {
        if r is Some {
            let found = r->0@;
            assert forall|k: int| 0 <= k < cell_chars(s@).len() && k < 81 implies (clue(
                #[trigger] cell_chars(s@)[k],
            ) matches Some(e) ==> settled(found, k, e)) by {
                if let Some(e) = clue(cell_chars(s@)[k]) {
                    lemma_solution_stable(found);
                    lemma_settled_below(found, loaded, k, e);
                }
            }
        }
    }
    r
}

} // verus!
