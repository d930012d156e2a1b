use sudoku::{make_units, render_board, Board, Outcome, Problem};

fn sizes(b: &Board) -> Vec<usize> {
    (0..81).map(|c| b.candidates(c).len()).collect()
}

fn snapshot(b: &Board) -> Vec<Vec<usize>> {
    (0..81).map(|c| b.candidates(c).clone()).collect()
}

fn is_valid_solution(b: &Board, pr: &Problem) -> bool {
    for c in 0..81 {
        if b.candidates(c).len() != 1 {
            return false;
        }
        for u in pr.units(c) {
            let mut seen: Vec<usize> = u.iter().map(|&x| b.candidates(x)[0]).collect();
            seen.sort();
            if seen != vec![1, 2, 3, 4, 5, 6, 7, 8, 9] {
                return false;
            }
        }
    }
    true
}

const SOLVED_GRID: &str =
    "483921657967345821251876493548132976729564138136798245372689514814253769695417382";

fn digit_at(text: &str, k: usize) -> usize {
    (text.as_bytes()[k] - b'0') as usize
}

#[test]
fn new_board_lists_every_digit_everywhere() {
    let b = Board::new();
    for c in 0..81 {
        assert_eq!(b.candidates(c), &vec![1, 2, 3, 4, 5, 6, 7, 8, 9]);
    }
}

#[test]
fn allows_tells_candidates_apart() {
    let pr = make_units();
    let mut b = Board::new();
    assert!(b.allows(10, 4));
    assert!(!b.allows(10, 0));
    assert!(!b.allows(10, 10));
    assert!(b.eliminate(&pr, 10, 4));
    assert!(!b.allows(10, 4));
    assert!(b.allows(10, 5));
}

#[test]
fn clone_is_independent() {
    let pr = make_units();
    let b = Board::new();
    let mut copy = b.clone();
    assert!(copy.assign(&pr, 0, 1));
    assert_eq!(b.candidates(0), &vec![1, 2, 3, 4, 5, 6, 7, 8, 9]);
    assert_eq!(copy.candidates(0), &vec![1]);
}

#[test]
fn new_board_asks_for_the_first_cell() {
    let b = Board::new();
    assert_eq!(b.solved(), Outcome::Next(0));
}

#[test]
fn solved_picks_the_cell_with_fewest_candidates() {
    let pr = make_units();
    let mut b = Board::new();
    assert!(b.eliminate(&pr, 50, 1));
    assert!(b.eliminate(&pr, 50, 2));
    assert!(b.eliminate(&pr, 30, 1));
    assert_eq!(b.candidates(50).len(), 7);
    assert_eq!(b.candidates(30).len(), 8);
    assert_eq!(b.solved(), Outcome::Next(50));
}

#[test]
fn solved_breaks_ties_by_lowest_cell() {
    let pr = make_units();
    let mut b = Board::new();
    assert!(b.eliminate(&pr, 70, 9));
    assert!(b.eliminate(&pr, 20, 3));
    assert_eq!(b.solved(), Outcome::Next(20));
}

#[test]
fn solved_skips_settled_cells() {
    let pr = make_units();
    let mut b = Board::new();
    assert!(b.assign(&pr, 0, 5));
    assert_eq!(b.candidates(0), &vec![5]);
    match b.solved() {
        Outcome::Next(c) => {
            assert_eq!(c, 1);
            assert_eq!(b.candidates(c).len(), 8);
        }
        _ => panic!("an open board has a next cell"),
    }
}

#[test]
fn solved_reports_an_empty_cell() {
    let pr = make_units();
    let mut b = Board::new();
    let mut last = true;
    for v in 1..10 {
        last = b.eliminate(&pr, 3, v);
    }
    assert!(!last);
    assert!(b.candidates(3).is_empty());
    assert_eq!(b.solved(), Outcome::Failed);
}

#[test]
fn eliminate_of_an_absent_value_is_a_no_op() {
    let pr = make_units();
    let mut b = Board::new();
    assert!(b.eliminate(&pr, 12, 7));
    let before = snapshot(&b);
    assert!(b.eliminate(&pr, 12, 7));
    assert_eq!(snapshot(&b), before);
    assert!(b.eliminate(&pr, 12, 0));
    assert!(b.eliminate(&pr, 12, 10));
    assert_eq!(snapshot(&b), before);
}

#[test]
fn eliminate_strikes_one_candidate() {
    let pr = make_units();
    let mut b = Board::new();
    assert!(b.eliminate(&pr, 40, 5));
    assert_eq!(b.candidates(40), &vec![1, 2, 3, 4, 6, 7, 8, 9]);
    for c in 0..81 {
        if c != 40 {
            assert_eq!(b.candidates(c).len(), 9);
        }
    }
}

#[test]
fn eliminate_down_to_one_candidate_clears_the_peers() {
    let pr = make_units();
    let mut b = Board::new();
    for v in 1..9 {
        assert!(b.eliminate(&pr, 0, v));
    }
    assert_eq!(b.candidates(0), &vec![9]);
    for &p in pr.peers(0) {
        assert!(!b.candidates(p).contains(&9));
        assert_eq!(b.candidates(p).len(), 8);
    }
    assert_eq!(b.candidates(80).len(), 9);
}

#[test]
fn eliminate_assigns_the_last_place_in_a_unit() {
    let pr = make_units();
    let mut b = Board::new();
    for c in 1..9 {
        assert!(b.eliminate(&pr, c, 4));
    }
    assert_eq!(b.candidates(0), &vec![4]);
    for &p in pr.peers(0) {
        assert!(!b.candidates(p).contains(&4));
    }
}

#[test]
fn eliminate_fails_when_a_cell_runs_empty() {
    let pr = make_units();
    let mut b = Board::new();
    assert!(b.assign(&pr, 0, 1));
    assert!(!b.eliminate(&pr, 0, 1));
    assert!(b.candidates(0).is_empty());
}

#[test]
fn assign_settles_the_cell_and_clears_its_peers() {
    let pr = make_units();
    let mut b = Board::new();
    assert!(b.assign(&pr, 40, 5));
    assert_eq!(b.candidates(40), &vec![5]);
    for c in 0..81 {
        if c == 40 {
            continue;
        }
        if pr.peers(40).contains(&c) {
            assert_eq!(b.candidates(c), &vec![1, 2, 3, 4, 6, 7, 8, 9]);
        } else {
            assert_eq!(b.candidates(c).len(), 9);
        }
    }
}

#[test]
fn assign_of_the_settled_value_changes_nothing() {
    let pr = make_units();
    let mut b = Board::new();
    assert!(b.assign(&pr, 40, 5));
    let before = snapshot(&b);
    assert!(b.assign(&pr, 40, 5));
    assert_eq!(snapshot(&b), before);
}

#[test]
fn assign_of_a_struck_value_fails() {
    let pr = make_units();
    let mut b = Board::new();
    assert!(b.assign(&pr, 0, 1));
    assert!(!b.assign(&pr, 0, 2));
    assert!(!Board::new().assign(&pr, 0, 0));
}

#[test]
fn same_digit_twice_in_a_row_is_a_contradiction() {
    let pr = make_units();
    let mut b = Board::new();
    assert!(b.assign(&pr, 0, 7));
    assert!(!b.assign(&pr, 5, 7));
}

#[test]
fn same_digit_twice_in_a_column_or_box_is_a_contradiction() {
    let pr = make_units();
    let mut b = Board::new();
    assert!(b.assign(&pr, 4, 3));
    assert!(!b.assign(&pr, 67, 3));
    let mut b = Board::new();
    assert!(b.assign(&pr, 30, 8));
    assert!(!b.assign(&pr, 50, 8));
}

#[test]
fn a_unit_left_without_a_place_is_a_contradiction() {
    let pr = make_units();
    // Row 0 holds 1 to 7, so 8 and 9 are left for its last two cells; an 8
    // elsewhere in their box leaves the row without a place for 8.
    let mut b = Board::new();
    for c in 0..7 {
        assert!(b.assign(&pr, c, c + 1));
    }
    assert_eq!(b.candidates(7), &vec![8, 9]);
    assert_eq!(b.candidates(8), &vec![8, 9]);
    assert!(!b.assign(&pr, 17, 8));
    assert_ne!(b.solved(), Outcome::Done);
}

#[test]
fn a_unit_with_one_place_left_gets_the_digit() {
    let pr = make_units();
    let mut b = Board::new();
    for c in 0..7 {
        assert!(b.assign(&pr, c, c + 1));
    }
    // An 8 further down column 7 bars 8 from cell 7 only.
    assert!(b.assign(&pr, 34, 8));
    assert_eq!(b.candidates(7), &vec![9]);
    assert_eq!(b.candidates(8), &vec![8]);
}

#[test]
fn eight_digits_in_a_row_settle_the_ninth() {
    let pr = make_units();
    let mut b = Board::new();
    for c in 0..8 {
        assert!(b.assign(&pr, c, c + 1));
    }
    assert_eq!(b.candidates(8), &vec![9]);
}

#[test]
fn candidate_counts_never_grow() {
    let pr = make_units();
    let mut b = Board::new();
    let mut last = sizes(&b);
    let steps: Vec<(usize, usize, bool)> = vec![
        (0, 4, true),
        (10, 4, false),
        (80, 1, true),
        (40, 9, false),
        (8, 4, true),
        (1, 4, true),
        (44, 2, false),
        (72, 5, true),
    ];
    for (c, v, by_assign) in steps {
        if by_assign {
            b.assign(&pr, c, v);
        } else {
            b.eliminate(&pr, c, v);
        }
        let now = sizes(&b);
        for c in 0..81 {
            assert!(now[c] <= last[c]);
        }
        last = now;
    }
}

#[test]
fn candidates_stay_in_ascending_order() {
    let pr = make_units();
    let mut b = Board::new();
    assert!(b.assign(&pr, 0, 4));
    assert!(b.eliminate(&pr, 40, 1));
    assert!(b.eliminate(&pr, 40, 9));
    assert!(b.eliminate(&pr, 40, 5));
    for c in 0..81 {
        let s = b.candidates(c);
        assert!(s.windows(2).all(|w| w[0] < w[1]));
        assert!(s.iter().all(|&v| 1 <= v && v <= 9));
    }
    assert_eq!(b.candidates(40), &vec![2, 3, 4, 6, 7, 8]);
}

#[test]
fn search_fills_an_empty_board() {
    let pr = make_units();
    let mut b = Board::new();
    let found = b.search(&pr).expect("an empty board has a solution");
    assert_eq!(found.solved(), Outcome::Done);
    assert!(is_valid_solution(&found, &pr));
    assert_eq!(b.candidates(0).len(), 9);
}

#[test]
fn search_leaves_the_board_untouched() {
    let pr = make_units();
    let mut b = Board::new();
    assert!(b.assign(&pr, 0, 9));
    let before = snapshot(&b);
    let found = b.search(&pr).expect("one clue leaves solutions");
    assert_eq!(snapshot(&b), before);
    assert_eq!(found.candidates(0), &vec![9]);
    assert!(is_valid_solution(&found, &pr));
}

#[test]
fn search_returns_a_done_board_as_it_is() {
    let pr = make_units();
    let mut b = Board::new();
    for c in 0..81 {
        assert!(b.assign(&pr, c, digit_at(SOLVED_GRID, c)));
    }
    assert_eq!(b.solved(), Outcome::Done);
    let found = b.search(&pr).expect("a solved board is its own solution");
    assert_eq!(snapshot(&found), snapshot(&b));
}

#[test]
fn search_gives_up_on_a_failed_board() {
    let pr = make_units();
    let mut b = Board::new();
    assert!(b.assign(&pr, 0, 1));
    assert!(!b.eliminate(&pr, 0, 1));
    assert!(b.search(&pr).is_none());
}

#[test]
fn search_finds_no_solution_where_there_is_none() {
    let pr = make_units();
    let puzzle =
        "4.....8.5.3..........7......2.....6.....8.4......1.......6.3.7.5..2.....1.4......";
    let answer =
        "417369825632158947958724316825437169791586432346912758289643571573291684164875293";
    let mut searched = 0;
    for k in 1..6 {
        for wrong in 1..10 {
            if wrong == digit_at(answer, k) {
                continue;
            }
            let mut b = Board::new();
            let mut loaded = b.assign(&pr, k, wrong);
            for (c, ch) in puzzle.chars().enumerate() {
                if loaded && ch != '.' {
                    loaded = b.assign(&pr, c, digit_at(puzzle, c));
                }
            }
            if loaded {
                searched += 1;
                assert!(b.search(&pr).is_none());
            }
        }
    }
    assert!(searched > 0);
}

#[test]
fn a_single_blank_is_filled_by_propagation_alone() {
    let pr = make_units();
    let mut b = Board::new();
    for c in 0..81 {
        if c != 40 {
            assert!(b.assign(&pr, c, digit_at(SOLVED_GRID, c)));
        }
    }
    assert_eq!(b.solved(), Outcome::Done);
    assert_eq!(b.candidates(40), &vec![digit_at(SOLVED_GRID, 40)]);
    assert!(is_valid_solution(&b, &pr));
}

#[test]
fn render_shows_counts_for_open_cells() {
    let b = Board::new();
    let text = render_board(&b);
    assert_eq!(text.len(), 81);
    assert!(text.iter().all(|t| t == "*9"));
}

#[test]
fn render_shows_digits_for_settled_cells() {
    let pr = make_units();
    let mut b = Board::new();
    assert!(b.assign(&pr, 0, 4));
    assert!(b.eliminate(&pr, 80, 1));
    assert!(b.eliminate(&pr, 80, 2));
    let text = render_board(&b);
    assert_eq!(text[0], "4");
    assert_eq!(text[1], "*8");
    assert_eq!(text[40], "*9");
    assert_eq!(text[80], "*7");
}

#[test]
fn render_shows_an_empty_cell_as_star_zero() {
    let pr = make_units();
    let mut b = Board::new();
    assert!(b.assign(&pr, 0, 1));
    assert!(!b.eliminate(&pr, 0, 1));
    assert_eq!(render_board(&b)[0], "*0");
}

#[test]
fn render_of_a_solved_board_spells_the_grid() {
    let pr = make_units();
    let mut b = Board::new();
    for c in 0..81 {
        assert!(b.assign(&pr, c, digit_at(SOLVED_GRID, c)));
    }
    assert_eq!(render_board(&b).concat(), SOLVED_GRID);
}
