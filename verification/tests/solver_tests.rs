use sudoku::board::Board;
use sudoku::field::Field;
use sudoku::solver::solve;

/// The partially filled puzzle the driver ships with: 81 characters,
/// row-major, `.` for a blank cell.
fn canonical_puzzle() -> String {
    let mut s = String::new();
    s.push_str("......2..");
    s.push_str(".8...7.9.");
    s.push_str("6.2...5..");
    s.push_str(".7..6....");
    s.push_str("...9.1...");
    s.push_str("....2..4.");
    s.push_str("..5...6.3");
    s.push_str(".9.4...7.");
    s.push_str("..6......");
    s
}

fn dots(n: usize) -> String {
    let mut s = String::new();
    let mut i: usize = 0;
    while i < n {
        s.push('.');
        i += 1;
    }
    s
}

fn board_candidates(b: &Board) -> Vec<Vec<u8>> {
    let mut all = Vec::new();
    for i in 0..81 {
        all.push(b.candidates_at(i));
    }
    all
}

/// The flattened indices of unit `u`: rows 0..9, columns 9..18, boxes 18..27.
fn unit_cells(u: usize) -> Vec<usize> {
    let mut cells = Vec::new();
    for k in 0..9 {
        if u < 9 {
            cells.push(u * 9 + k);
        } else if u < 18 {
            cells.push(k * 9 + (u - 9));
        } else {
            let b = u - 18;
            cells.push(((b / 3) * 3 + k / 3) * 9 + (b % 3) * 3 + k % 3);
        }
    }
    cells
}

#[test]
fn field_settled_has_one_candidate() {
    let f = Field::settled(5);
    assert_eq!(f.values, vec![5u8]);
    assert!(f.is_settled());
    assert!(f.is_valid());
}

#[test]
fn field_default_lists_all_nine_digits() {
    let f = Field::default();
    assert_eq!(f.values, vec![1u8, 2, 3, 4, 5, 6, 7, 8, 9]);
    assert!(!f.is_settled());
    assert!(f.is_valid());
}

#[test]
fn field_with_no_candidates_is_invalid() {
    let f = Field { values: Vec::new() };
    assert!(!f.is_valid());
    assert!(!f.is_settled());
}

#[test]
fn from_string_maps_digits_and_blanks() {
    let mut s = String::new();
    s.push_str("5.0x");
    s.push_str(&dots(77));
    let b = Board::from_string(s).unwrap();
    assert_eq!(b.candidates_at(0), vec![5u8]);
    assert_eq!(b.candidates_at(1), vec![1u8, 2, 3, 4, 5, 6, 7, 8, 9]);
    // '0' marks a blank, not a settled zero: zero is no Sudoku digit.
    assert_eq!(b.candidates_at(2), vec![1u8, 2, 3, 4, 5, 6, 7, 8, 9]);
    // Any other non-digit character leaves the cell open too.
    assert_eq!(b.candidates_at(3), vec![1u8, 2, 3, 4, 5, 6, 7, 8, 9]);
}

#[test]
fn from_string_rejects_length_eighty() {
    assert!(Board::from_string(dots(80)).is_none());
}

#[test]
fn from_string_rejects_length_eighty_two() {
    assert!(Board::from_string(dots(82)).is_none());
}

#[test]
fn from_string_accepts_length_eighty_one() {
    assert!(Board::from_string(dots(81)).is_some());
}

#[test]
fn duplicate_digit_in_row_is_invalid_before_solving() {
    let mut s = String::new();
    s.push_str("55");
    s.push_str(&dots(79));
    let b = Board::from_string(s).unwrap();
    assert!(!b.is_valid());
}

#[test]
fn distinct_digits_in_row_stay_valid() {
    let mut s = String::new();
    s.push_str("56");
    s.push_str(&dots(79));
    let b = Board::from_string(s).unwrap();
    assert!(b.is_valid());
}

#[test]
fn propagation_narrows_open_cell_to_unclaimed_digits() {
    let mut b = Board::from_string(canonical_puzzle()).unwrap();
    let before = b.candidates_at(0);
    b.solve();
    let after = b.candidates_at(0);
    // Cell 0 sees 2 in its row, 6 in its column, and {2, 6, 8} in its box.
    assert_eq!(after, vec![1u8, 3, 4, 5, 7, 9]);
    // Narrowing only: everything kept was already a candidate.
    for v in &after {
        assert!(before.contains(v));
    }
}

#[test]
fn propagation_pass_at_fixed_point_changes_nothing() {
    let mut b = Board::from_string(canonical_puzzle()).unwrap();
    let mut rounds: usize = 0;
    while b.solve() {
        rounds += 1;
        assert!(rounds <= 81, "propagation failed to reach a fixed point");
    }
    let frozen = board_candidates(&b);
    let progress = b.solve();
    assert!(!progress);
    assert_eq!(board_candidates(&b), frozen);
}

#[test]
fn update_pins_one_cell_and_touches_no_other() {
    let mut b = Board::from_string(dots(81)).unwrap();
    b.update(40, vec![7u8]);
    for i in 0..81 {
        if i == 40 {
            assert_eq!(b.candidates_at(i), vec![7u8]);
        } else {
            assert_eq!(b.candidates_at(i), vec![1u8, 2, 3, 4, 5, 6, 7, 8, 9]);
        }
    }
}

#[test]
fn possible_values_lists_unsettled_cells_in_index_order() {
    let mut s = String::new();
    s.push('1');
    s.push_str(&dots(80));
    let b = Board::from_string(s).unwrap();
    let pv = b.possible_values();
    assert_eq!(pv.len(), 80);
    for (k, entry) in pv.iter().enumerate() {
        assert_eq!(entry.0, k + 1);
        assert_eq!(entry.1, vec![1u8, 2, 3, 4, 5, 6, 7, 8, 9]);
    }
}

#[test]
fn duplicate_is_a_deep_copy() {
    let b = Board::from_string(canonical_puzzle()).unwrap();
    let mut c = b.duplicate();
    assert_eq!(board_candidates(&b), board_candidates(&c));
    c.update(0, vec![9u8]);
    assert_eq!(b.candidates_at(0), vec![1u8, 2, 3, 4, 5, 6, 7, 8, 9]);
    assert_eq!(c.candidates_at(0), vec![9u8]);
}

#[test]
fn end_to_end_canonical_puzzle_solves_completely() {
    let mut b = Board::from_string(canonical_puzzle()).unwrap();
    assert!(b.is_valid());
    assert!(!b.is_solved());
    solve(&mut b);
    assert!(b.is_solved());
    assert!(b.is_valid());
    // Every cell settled: no blanks left anywhere.
    for i in 0..81 {
        assert_eq!(b.candidates_at(i).len(), 1);
    }
    // All 27 units hold a permutation of 1..=9.
    for u in 0..27 {
        let mut digits = Vec::new();
        for i in unit_cells(u) {
            digits.push(b.candidates_at(i)[0]);
        }
        digits.sort();
        assert_eq!(digits, vec![1u8, 2, 3, 4, 5, 6, 7, 8, 9]);
    }
    // The input's givens survive into the solution.
    let given = Board::from_string(canonical_puzzle()).unwrap();
    for i in 0..81 {
        let g = given.candidates_at(i);
        if g.len() == 1 {
            assert_eq!(b.candidates_at(i), g);
        }
    }
}

#[test]
fn solver_is_deterministic_across_runs() {
    let mut b1 = Board::from_string(canonical_puzzle()).unwrap();
    let mut b2 = Board::from_string(canonical_puzzle()).unwrap();
    solve(&mut b1);
    solve(&mut b2);
    assert_eq!(board_candidates(&b1), board_candidates(&b2));
}

#[test]
fn unsolvable_full_grid_reports_invalid_before_and_after() {
    // Fully specified, but every column holds nine copies of one digit:
    // among others, two 9s forced into the same column.
    let mut s = String::new();
    for _ in 0..9 {
        s.push_str("123456789");
    }
    let mut b = Board::from_string(s).unwrap();
    assert!(!b.is_valid());
    solve(&mut b);
    assert!(!b.is_valid());
}
