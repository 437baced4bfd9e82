use prime_table::table::{OTHER_GLYPH, PRIME_GLYPH};
use prime_table::PrimeTable;

/// Primality by trial division, to hold the table against.
fn trial_division(k: usize) -> bool {
    if k < 2 {
        return false;
    }
    let mut d: usize = 2;
    while d * d <= k {
        if k % d == 0 {
            return false;
        }
        d += 1;
    }
    true
}

fn marked(table: &PrimeTable) -> Vec<usize> {
    let mut found: Vec<usize> = Vec::new();
    let mut k: usize = 0;
    while k <= table.max_candidate() {
        if table.is_prime(k) {
            found.push(k);
        }
        if k == usize::MAX {
            break;
        }
        k += 1;
    }
    found
}

fn agrees_with_trial_division(n: usize) {
    let table = PrimeTable::new(n);
    let mut k: usize = 0;
    while k <= n {
        assert_eq!(table.is_prime(k), trial_division(k), "n = {}, k = {}", n, k);
        k += 1;
    }
}

#[test]
fn bound_ten() {
    let table = PrimeTable::new(10);
    assert!(table.is_prime(2));
    assert!(!table.is_prime(4));
    assert!(table.is_prime(7));
    assert!(!table.is_prime(9));
    assert!(!table.is_prime(10));
}

#[test]
fn bound_one_has_no_primes() {
    let table = PrimeTable::new(1);
    assert!(!table.is_prime(0));
    assert!(!table.is_prime(1));
    assert_eq!(marked(&table), Vec::<usize>::new());
}

#[test]
fn bound_hundred_marks_the_twenty_five_primes() {
    let table = PrimeTable::new(100);
    let expected: Vec<usize> = vec![
        2, 3, 5, 7, 11, 13, 17, 19, 23, 29, 31, 37, 41, 43, 47, 53, 59, 61, 67, 71, 73, 79, 83,
        89, 97,
    ];
    assert_eq!(expected.len(), 25);
    assert_eq!(marked(&table), expected);
}

#[test]
fn bound_two_marks_two() {
    let table = PrimeTable::new(2);
    assert!(!table.is_prime(0));
    assert!(!table.is_prime(1));
    assert!(table.is_prime(2));
    assert_eq!(marked(&table), vec![2usize]);
}

#[test]
fn bound_three() {
    let table = PrimeTable::new(3);
    assert_eq!(marked(&table), vec![2usize, 3]);
}

#[test]
fn bound_zero_holds_one_unset_flag() {
    let table = PrimeTable::new(0);
    assert_eq!(table.max_candidate(), 0);
    assert!(!table.is_prime(0));
    assert_eq!(table.lookup(0), Some(false));
    assert_eq!(table.lookup(1), None);
    assert_eq!(marked(&table), Vec::<usize>::new());
}

#[test]
fn agrees_with_trial_division_for_bound_2() {
    agrees_with_trial_division(2);
}

#[test]
fn agrees_with_trial_division_for_bound_10() {
    agrees_with_trial_division(10);
}

#[test]
fn agrees_with_trial_division_for_bound_100() {
    agrees_with_trial_division(100);
}

#[test]
fn agrees_with_trial_division_for_bound_10000() {
    agrees_with_trial_division(10000);
}

#[test]
fn every_small_bound_answers_its_whole_range() {
    let mut n: usize = 0;
    while n <= 300 {
        agrees_with_trial_division(n);
        n += 1;
    }
}

#[test]
fn zero_and_one_are_never_marked() {
    let bounds: Vec<usize> = vec![1, 2, 3, 10, 31, 32, 33, 100, 1000, 4096];
    for n in bounds {
        let table = PrimeTable::new(n);
        assert!(!table.is_prime(0), "n = {}", n);
        assert!(!table.is_prime(1), "n = {}", n);
    }
}

#[test]
fn asking_again_gives_the_same_answer() {
    let table = PrimeTable::new(1000);
    let mut k: usize = 0;
    while k <= 1000 {
        let first: bool = table.is_prime(k);
        let second: bool = table.is_prime(k);
        let third: bool = table.is_prime(k);
        assert_eq!(first, second);
        assert_eq!(second, third);
        k += 1;
    }
}

#[test]
fn tables_agree_where_both_reach() {
    let small = PrimeTable::new(50);
    let large = PrimeTable::new(500);
    let mut k: usize = 0;
    while k <= 50 {
        assert_eq!(small.is_prime(k), large.is_prime(k), "k = {}", k);
        k += 1;
    }
}

#[test]
fn the_bound_itself_is_answered() {
    let bounds: Vec<usize> = vec![2, 3, 4, 7, 8, 31, 32, 63, 64, 97, 127, 128, 7919, 7920];
    for n in bounds {
        let table = PrimeTable::new(n);
        assert_eq!(table.is_prime(n), trial_division(n), "n = {}", n);
    }
}

#[test]
fn word_edges_are_covered() {
    let table = PrimeTable::new(64);
    assert!(table.is_prime(31));
    assert!(!table.is_prime(32));
    assert!(!table.is_prime(33));
    assert!(table.is_prime(61));
    assert!(!table.is_prime(63));
    assert!(!table.is_prime(64));
    let at_edge = PrimeTable::new(31);
    assert!(at_edge.is_prime(31));
    let past_edge = PrimeTable::new(32);
    assert!(past_edge.is_prime(31));
    assert!(!past_edge.is_prime(32));
}

#[test]
fn squares_of_primes_are_struck() {
    let table = PrimeTable::new(169);
    assert!(!table.is_prime(4));
    assert!(!table.is_prime(9));
    assert!(!table.is_prime(25));
    assert!(!table.is_prime(49));
    assert!(!table.is_prime(121));
    assert!(!table.is_prime(169));
    assert!(table.is_prime(167));
}

#[test]
fn a_million_candidates_hold_78498_primes() {
    let table = PrimeTable::new(1_000_000);
    assert_eq!(marked(&table).len(), 78498);
    assert!(table.is_prime(999_983));
    assert!(!table.is_prime(1_000_000));
}

#[test]
fn max_candidate_is_the_bound() {
    assert_eq!(PrimeTable::new(0).max_candidate(), 0);
    assert_eq!(PrimeTable::new(10).max_candidate(), 10);
    assert_eq!(PrimeTable::new(12345).max_candidate(), 12345);
}

#[test]
fn lookup_answers_inside_and_refuses_outside() {
    let table = PrimeTable::new(10);
    assert_eq!(table.lookup(0), Some(false));
    assert_eq!(table.lookup(2), Some(true));
    assert_eq!(table.lookup(7), Some(true));
    assert_eq!(table.lookup(9), Some(false));
    assert_eq!(table.lookup(10), Some(false));
    assert_eq!(table.lookup(11), None);
    assert_eq!(table.lookup(usize::MAX), None);
}

#[test]
fn render_ten_by_ten() {
    let table = PrimeTable::new(100);
    let grid: Vec<Vec<char>> = table.render_table(10, 10);
    assert_eq!(grid.len(), 10);
    let lines: Vec<String> = grid.iter().map(|row| row.iter().collect()).collect();
    let expected: Vec<&str> = vec![
        "□□■■□■□■□□",
        "□■□■□□□■□■",
        "□□□■□□□□□■",
        "□■□□□□□■□□",
        "□■□■□□□■□□",
        "□□□■□□□□□■",
        "□■□□□□□■□□",
        "□■□■□□□□□■",
        "□□□■□□□□□■",
        "□□□□□□□■□□",
    ];
    assert_eq!(lines, expected);
}

#[test]
fn render_is_row_major() {
    let table = PrimeTable::new(11);
    let grid: Vec<Vec<char>> = table.render_table(3, 4);
    assert_eq!(grid.len(), 3);
    let mut i: usize = 0;
    while i < 3 {
        assert_eq!(grid[i].len(), 4);
        let mut j: usize = 0;
        while j < 4 {
            let expected: char = if trial_division(4 * i + j) { PRIME_GLYPH } else { OTHER_GLYPH };
            assert_eq!(grid[i][j], expected, "row {}, column {}", i, j);
            j += 1;
        }
        i += 1;
    }
}

#[test]
fn render_of_nothing_is_empty() {
    let table = PrimeTable::new(0);
    assert_eq!(table.render_table(0, 5), Vec::<Vec<char>>::new());
    let rows: Vec<Vec<char>> = table.render_table(3, 0);
    assert_eq!(rows, vec![Vec::<char>::new(), Vec::new(), Vec::new()]);
    assert_eq!(table.render_table(1, 1), vec![vec![OTHER_GLYPH]]);
}

#[test]
fn glyphs_are_the_two_squares() {
    assert_eq!(PRIME_GLYPH, '■');
    assert_eq!(OTHER_GLYPH, '□');
}

#[test]
fn rows_in_reach_counts_whole_rows() {
    assert_eq!(PrimeTable::new(100).rows_in_reach(10, 10), 10);
    assert_eq!(PrimeTable::new(99).rows_in_reach(10, 10), 10);
    assert_eq!(PrimeTable::new(98).rows_in_reach(10, 10), 9);
    assert_eq!(PrimeTable::new(50).rows_in_reach(10, 10), 5);
    assert_eq!(PrimeTable::new(49).rows_in_reach(10, 10), 5);
    assert_eq!(PrimeTable::new(48).rows_in_reach(10, 10), 4);
    assert_eq!(PrimeTable::new(9).rows_in_reach(10, 10), 1);
    assert_eq!(PrimeTable::new(8).rows_in_reach(10, 10), 0);
    assert_eq!(PrimeTable::new(0).rows_in_reach(10, 10), 0);
}

#[test]
fn rows_in_reach_at_the_edges() {
    let table = PrimeTable::new(9);
    assert_eq!(table.rows_in_reach(0, 10), 0);
    assert_eq!(table.rows_in_reach(7, 0), 7);
    assert_eq!(table.rows_in_reach(3, 1), 3);
    assert_eq!(table.rows_in_reach(10, 1), 10);
    assert_eq!(table.rows_in_reach(11, 1), 10);
    assert_eq!(table.rows_in_reach(usize::MAX, 1), 10);
    assert_eq!(table.rows_in_reach(usize::MAX, 3), 3);
    assert_eq!(table.rows_in_reach(5, usize::MAX), 0);
    assert_eq!(PrimeTable::new(0).rows_in_reach(4, 1), 1);
}

#[test]
fn rows_in_reach_can_be_drawn() {
    let table = PrimeTable::new(50);
    let shown: usize = table.rows_in_reach(10, 10);
    let grid: Vec<Vec<char>> = table.render_table(shown, 10);
    let lines: Vec<String> = grid.iter().map(|row| row.iter().collect()).collect();
    let expected: Vec<&str> = vec![
        "□□■■□■□■□□",
        "□■□■□□□■□■",
        "□□□■□□□□□■",
        "□■□□□□□■□□",
        "□■□■□□□■□□",
    ];
    assert_eq!(lines, expected);
}
