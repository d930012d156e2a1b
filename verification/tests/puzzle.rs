use sudoku::{digit_of, make_units, render_board, solve_puzzle, takes_cell, Board, Outcome};

const EASY: &str =
    "003020600900305001001806400008102900700000008006708200002609500800203009005010300";

const EASY_SOLVED: &str =
    "483921657967345821251876493548132976729564138136798245372689514814253769695417382";

const HARD: &str =
    "4.....8.5.3..........7......2.....6.....8.4......1.......6.3.7.5..2.....1.4......";

const HARD_SOLVED: &str =
    "417369825632158947958724316825437169791586432346912758289643571573291684164875293";

fn spell(b: &Board) -> String {
    render_board(b).concat()
}

fn solves_to_a_valid_grid(puzzle: &str) -> bool {
    let pr = make_units();
    let b = match solve_puzzle(puzzle) {
        Some(b) => b,
        None => return false,
    };
    if b.solved() != Outcome::Done {
        return false;
    }
    for c in 0..81 {
        for u in pr.units(c) {
            let mut seen: Vec<usize> = u.iter().map(|&x| b.candidates(x)[0]).collect();
            seen.sort();
            if seen != vec![1, 2, 3, 4, 5, 6, 7, 8, 9] {
                return false;
            }
        }
    }
    let cells: Vec<char> = puzzle.chars().filter(|&ch| ch == '.' || ch.is_ascii_digit()).collect();
    for (k, ch) in cells.iter().enumerate().take(81) {
        if let Some(d) = ch.to_digit(10) {
            if d != 0 && b.candidates(k) != &vec![d as usize] {
                return false;
            }
        }
    }
    true
}

#[test]
fn digit_of_reads_one_to_nine() {
    assert_eq!(digit_of('1'), Some(1));
    assert_eq!(digit_of('5'), Some(5));
    assert_eq!(digit_of('9'), Some(9));
}

#[test]
fn digit_of_gives_no_digit_for_anything_else() {
    assert_eq!(digit_of('0'), None);
    assert_eq!(digit_of('.'), None);
    assert_eq!(digit_of('\n'), None);
    assert_eq!(digit_of('a'), None);
    assert_eq!(digit_of(':'), None);
    assert_eq!(digit_of('/'), None);
    assert_eq!(digit_of('٣'), None);
}

#[test]
fn easy_puzzle_has_its_known_solution() {
    let b = solve_puzzle(EASY).expect("the puzzle has a solution");
    assert_eq!(spell(&b), EASY_SOLVED);
}

#[test]
fn hard_puzzle_has_its_known_solution() {
    let b = solve_puzzle(HARD).expect("the puzzle has a solution");
    assert_eq!(spell(&b), HARD_SOLVED);
}

#[test]
fn empty_puzzle_reaches_some_valid_grid() {
    let blank = ".".repeat(81);
    assert!(solves_to_a_valid_grid(&blank));
    assert!(solves_to_a_valid_grid(""));
}

#[test]
fn a_single_blank_is_filled_in() {
    let mut puzzle = String::from(EASY_SOLVED);
    puzzle.replace_range(40..41, ".");
    let b = solve_puzzle(&puzzle).expect("one blank cell has one filling");
    assert_eq!(spell(&b), EASY_SOLVED);
}

#[test]
fn a_full_grid_is_its_own_solution() {
    let b = solve_puzzle(EASY_SOLVED).expect("a solved grid is a puzzle with a solution");
    assert_eq!(spell(&b), EASY_SOLVED);
}

#[test]
fn same_digit_twice_in_a_row_has_no_solution() {
    let mut puzzle = String::from("5...5....");
    puzzle.push_str(&".".repeat(72));
    assert!(solve_puzzle(&puzzle).is_none());
}

#[test]
fn same_digit_twice_in_a_column_has_no_solution() {
    let mut puzzle = String::from("5........");
    puzzle.push_str(&".".repeat(63));
    puzzle.push_str("5........");
    assert!(solve_puzzle(&puzzle).is_none());
}

#[test]
fn a_wrong_full_grid_has_no_solution() {
    let mut puzzle = String::from(EASY_SOLVED);
    puzzle.replace_range(0..2, "84");
    assert!(solve_puzzle(&puzzle).is_none());
}

#[test]
fn zero_and_dot_both_mean_blank() {
    let dotted = EASY.replace('0', ".");
    let b = solve_puzzle(&dotted).expect("the puzzle has a solution");
    assert_eq!(spell(&b), EASY_SOLVED);
}

#[test]
fn line_breaks_take_no_cell() {
    let mut lines = String::new();
    for r in 0..9 {
        lines.push_str(&EASY[r * 9..r * 9 + 9]);
        lines.push('\n');
    }
    let b = solve_puzzle(&lines).expect("the puzzle has a solution");
    assert_eq!(spell(&b), EASY_SOLVED);
    let mut leading = String::from("\n\n");
    leading.push_str(EASY);
    let b = solve_puzzle(&leading).expect("the puzzle has a solution");
    assert_eq!(spell(&b), EASY_SOLVED);
}

#[test]
fn other_characters_take_no_cell() {
    let mut led = String::from("x");
    led.push_str(EASY);
    let b = solve_puzzle(&led).expect("the puzzle has a solution");
    assert_eq!(spell(&b), EASY_SOLVED);
    let spaced: String = EASY.chars().flat_map(|ch| [ch, ' ']).collect();
    let b = solve_puzzle(&spaced).expect("the puzzle has a solution");
    assert_eq!(spell(&b), EASY_SOLVED);
    let mut framed = String::new();
    for r in 0..9 {
        framed.push_str("| ");
        framed.push_str(&EASY[r * 9..r * 9 + 9]);
        framed.push_str(" |\r\n");
    }
    let b = solve_puzzle(&framed).expect("the puzzle has a solution");
    assert_eq!(spell(&b), EASY_SOLVED);
    let wide = EASY.replace('3', "é3");
    let b = solve_puzzle(&wide).expect("the puzzle has a solution");
    assert_eq!(spell(&b), EASY_SOLVED);
}

#[test]
fn an_unknown_character_in_front_shifts_no_clue() {
    let mut puzzle = ".".repeat(81);
    puzzle.replace_range(8..9, "9");
    puzzle.replace_range(14..15, "9");
    let plain = solve_puzzle(&puzzle).expect("two nines in different units leave solutions");
    assert_eq!(plain.candidates(8), &vec![9]);
    assert_eq!(plain.candidates(14), &vec![9]);
    let mut led = String::from("x");
    led.push_str(&puzzle);
    let shifted = solve_puzzle(&led).expect("the character in front takes no cell");
    assert_eq!(spell(&shifted), spell(&plain));
}

#[test]
fn an_unknown_character_is_no_blank_cell() {
    let mut puzzle = String::from("x5");
    puzzle.push_str(&".".repeat(80));
    let b = solve_puzzle(&puzzle).expect("one clue leaves solutions");
    assert_eq!(b.candidates(0), &vec![5]);
    let mut pair = String::from("5x5");
    pair.push_str(&".".repeat(79));
    assert!(solve_puzzle(&pair).is_none());
    let mut apart = String::from("5.5");
    apart.push_str(&".".repeat(78));
    assert!(solve_puzzle(&apart).is_none());
    let mut split = String::from("12345678x");
    split.push_str("9");
    let b = solve_puzzle(&split).expect("a row of nine digits leaves solutions");
    assert_eq!(b.candidates(8), &vec![9]);
}

#[test]
fn takes_cell_holds_of_digits_and_the_dot_only() {
    for ch in ['0', '1', '5', '9', '.'] {
        assert!(takes_cell(ch));
    }
    for ch in ['\n', '\r', ' ', 'x', '*', '/', ':', '-', ',', 'é', '٣'] {
        assert!(!takes_cell(ch));
    }
}

#[test]
fn a_short_puzzle_leaves_the_rest_blank() {
    let b = solve_puzzle(&EASY_SOLVED[..72]).expect("eight given rows have one ninth");
    assert_eq!(spell(&b), EASY_SOLVED);
}

#[test]
fn characters_past_the_last_cell_are_ignored() {
    let mut long = String::from(EASY);
    long.push_str("123456789");
    let b = solve_puzzle(&long).expect("the puzzle has a solution");
    assert_eq!(spell(&b), EASY_SOLVED);
}

#[test]
fn clues_are_kept_in_the_solution() {
    let b = solve_puzzle(HARD).expect("the puzzle has a solution");
    for (k, ch) in HARD.chars().enumerate() {
        if let Some(d) = digit_of(ch) {
            assert_eq!(b.candidates(k), &vec![d]);
        }
    }
}

#[test]
fn hard_puzzles_yield_valid_solutions() {
    let puzzles = [
        "4.....8.5.3..........7......2.....6.....8.4......1.......6.3.7.5..2.....1.4......",
        "52...6.........7.13...........4..8..6......5...........418.........3..2...87.....",
        "6.....8.3.4.7.................5.4.7.3..2.....1.6.......2.....5.....8.6......1....",
        "48.3............71.2.......7.5....6....2..8.............1.76...3.....4......5....",
        "....14....3....2...7..........9...3.6.1.............8.2.....1.4....5.6.....7.8...",
    ];
    for p in puzzles {
        assert!(solves_to_a_valid_grid(p));
    }
}
