//! A board as text, cell by cell, for display.

use vstd::prelude::*;
use vstd::string::*;
use crate::board::Board;
use crate::candidates::lemma_candidates_len;

verus! {

/// The character that stands for `d`, a number from 0 to 9.
pub open spec fn digit_char(d: int) -> char {
    if d == 0 {
        '0'
    } else if d == 1 {
        '1'
    } else if d == 2 {
        '2'
    } else if d == 3 {
        '3'
    } else if d == 4 {
        '4'
    } else if d == 5 {
        '5'
    } else if d == 6 {
        '6'
    } else if d == 7 {
        '7'
    } else if d == 8 {
        '8'
    } else {
        '9'
    }
}

/// How a cell is shown: its digit when it is settled, else a star and the
/// number of its candidates.
pub open spec fn cell_text(s: Seq<usize>) -> Seq<char> {
    if s.len() == 1 {
        seq![digit_char(s[0] as int)]
    } else {
        seq!['*', digit_char(s.len() as int)]
    }
}

/// The one-character text of `d`.
fn digit_text(d: usize) -> (t: &'static str)
    requires
        d <= 9,
    ensures
        t@ == seq![digit_char(d as int)],
{
    proof {
        reveal_strlit("0");
        reveal_strlit("1");
        reveal_strlit("2");
        reveal_strlit("3");
        reveal_strlit("4");
        reveal_strlit("5");
        reveal_strlit("6");
        reveal_strlit("7");
        reveal_strlit("8");
        reveal_strlit("9");
    }
    let t = if d == 0 {
        "0"
    } else if d == 1 {
        "1"
    } else if d == 2 {
        "2"
    } else if d == 3 {
        "3"
    } else if d == 4 {
        "4"
    } else if d == 5 {
        "5"
    } else if d == 6 {
        "6"
    } else if d == 7 {
        "7"
    } else if d == 8 {
        "8"
    } else {
        "9"
    };
    assert(t@ =~= seq![digit_char(d as int)]);
    t
}

/// The texts of all 81 cells, in cell order.
pub fn render_board(b: &Board) -> (res: Vec<String>)
    requires
        b.wf(),
    ensures
        res@.len() == 81,
        forall|c: int| 0 <= c < 81 ==> (#[trigger] res@[c])@ == cell_text(b@[c]),
{
    let mut res: Vec<String> = Vec::new();
    let mut i: usize = 0;
    while i < 81
        invariant
            i <= 81,
            b.wf(),
            res@.len() == i,
            forall|c: int| 0 <= c < i ==> (#[trigger] res@[c])@ == cell_text(b@[c]),
        decreases 81 - i,
    {
        let constraint = b.candidates(i);
        proof {
            lemma_candidates_len(b@[i as int]);
            assert(1 <= constraint@[0] <= 9 || constraint@.len() == 0);
        }
        let text = if constraint.len() == 1 {
            String::from_str(digit_text(constraint[0]))
        } else {
            let mut t = String::from_str("*");
            t.append(digit_text(constraint.len()));
            proof {
                reveal_strlit("*");
                assert(t@ =~= seq!['*', digit_char(constraint@.len() as int)]);
            }
            t
        };
        res.push(text);
        i += 1;
    }
    res
}

} // verus!
