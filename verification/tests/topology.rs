use sudoku::{delete, make_units};

fn shares_unit(a: usize, b: usize) -> bool {
    a % 9 == b % 9 || a / 9 == b / 9 || (a / 27 == b / 27 && (a % 9) / 3 == (b % 9) / 3)
}

#[test]
fn delete_removes_the_value() {
    let mut set = vec![1, 2, 3, 4];
    delete(&mut set, 3);
    assert_eq!(set, vec![1, 2, 4]);
}

#[test]
fn delete_of_an_absent_value_changes_nothing() {
    let mut set = vec![1, 2, 4];
    delete(&mut set, 3);
    assert_eq!(set, vec![1, 2, 4]);
    let mut empty: Vec<usize> = Vec::new();
    delete(&mut empty, 1);
    assert!(empty.is_empty());
}

#[test]
fn delete_removes_only_the_first_occurrence() {
    let mut set = vec![5, 7, 5, 9];
    delete(&mut set, 5);
    assert_eq!(set, vec![7, 5, 9]);
}

#[test]
fn units_of_the_first_cell() {
    let pr = make_units();
    let us = pr.units(0);
    assert_eq!(us.len(), 3);
    assert_eq!(us[0], vec![0, 9, 18, 27, 36, 45, 54, 63, 72]);
    assert_eq!(us[1], vec![0, 1, 2, 3, 4, 5, 6, 7, 8]);
    assert_eq!(us[2], vec![0, 1, 2, 9, 10, 11, 18, 19, 20]);
}

#[test]
fn units_of_the_centre_cell() {
    let pr = make_units();
    let us = pr.units(40);
    assert_eq!(us[0], vec![4, 13, 22, 31, 40, 49, 58, 67, 76]);
    assert_eq!(us[1], vec![36, 37, 38, 39, 40, 41, 42, 43, 44]);
    assert_eq!(us[2], vec![30, 31, 32, 39, 40, 41, 48, 49, 50]);
}

#[test]
fn units_of_the_last_cell() {
    let pr = make_units();
    let us = pr.units(80);
    assert_eq!(us[0], vec![8, 17, 26, 35, 44, 53, 62, 71, 80]);
    assert_eq!(us[1], vec![72, 73, 74, 75, 76, 77, 78, 79, 80]);
    assert_eq!(us[2], vec![60, 61, 62, 69, 70, 71, 78, 79, 80]);
}

#[test]
fn every_cell_has_three_units_of_nine_cells_that_hold_it() {
    let pr = make_units();
    for c in 0..81 {
        let us = pr.units(c);
        assert_eq!(us.len(), 3);
        for u in us {
            assert_eq!(u.len(), 9);
            assert!(u.contains(&c));
            let mut sorted = u.clone();
            sorted.sort();
            sorted.dedup();
            assert_eq!(sorted.len(), 9);
            assert!(u.iter().all(|&x| x < 81));
        }
        assert!(us[0].iter().all(|&x| x % 9 == c % 9));
        assert!(us[1].iter().all(|&x| x / 9 == c / 9));
        assert!(us[2].iter().all(|&x| x / 27 == c / 27 && (x % 9) / 3 == (c % 9) / 3));
    }
}

#[test]
fn there_are_twenty_seven_units() {
    let pr = make_units();
    let mut all: Vec<Vec<usize>> = Vec::new();
    for c in 0..81 {
        for u in pr.units(c) {
            if !all.contains(u) {
                all.push(u.clone());
            }
        }
    }
    assert_eq!(all.len(), 27);
}

#[test]
fn peers_of_the_first_cell() {
    let pr = make_units();
    assert_eq!(
        pr.peers(0),
        &vec![9, 18, 27, 36, 45, 54, 63, 72, 1, 2, 3, 4, 5, 6, 7, 8, 1, 2, 9, 10, 11, 18, 19, 20]
    );
}

#[test]
fn peers_leave_the_cell_out_and_cover_twenty_cells() {
    let pr = make_units();
    for c in 0..81 {
        let ps = pr.peers(c);
        assert_eq!(ps.len(), 24);
        assert!(!ps.contains(&c));
        let mut distinct = ps.clone();
        distinct.sort();
        distinct.dedup();
        assert_eq!(distinct.len(), 20);
        for p in 0..81 {
            assert_eq!(ps.contains(&p), p != c && shares_unit(c, p));
        }
    }
}

#[test]
fn peers_are_symmetric() {
    let pr = make_units();
    for c in 0..81 {
        for &p in pr.peers(c) {
            assert!(pr.peers(p).contains(&c));
        }
    }
}

#[test]
fn a_cloned_problem_holds_the_same_tables() {
    let pr = make_units();
    let copy = pr.clone();
    for c in 0..81 {
        assert_eq!(copy.units(c), pr.units(c));
        assert_eq!(copy.peers(c), pr.peers(c));
    }
}
