use sudoku_csp::bitset::BitSet;
use sudoku_csp::board::empty_slots::EmptySlots;
use sudoku_csp::board::{Outcome, ParseError, Sudoku};
use sudoku_csp::heuristic::Heuristic;

const SOLUTION: &str =
    "534678912672195348198342567859761423426853791713924856961537284287419635345286179";
const PUZZLE: &str =
    "530070000600195000098000060800060003400803001700020006060000280000419005000080079";

fn full_domain() -> BitSet {
    let mut d = BitSet::new();
    for v in 1..10u32 {
        d.insert(v);
    }
    d
}

fn digits(s: &str) -> Vec<u32> {
    s.chars().map(|c| c.to_digit(10).unwrap()).collect()
}

fn grid(s: &str) -> Sudoku {
    let mut g = Sudoku::from_flattened(s).unwrap();
    g.apply_domain(full_domain());
    g
}

fn assert_each_unit_holds_every_value_once(values: &[u32]) {
    for u in 0..9 {
        let mut row: Vec<u32> = (0..9).map(|c| values[u * 9 + c]).collect();
        let mut col: Vec<u32> = (0..9).map(|r| values[r * 9 + u]).collect();
        let mut block: Vec<u32> = (0..9)
            .map(|k| values[(3 * (u / 3) + k / 3) * 9 + 3 * (u % 3) + k % 3])
            .collect();
        row.sort();
        col.sort();
        block.sort();
        let all: Vec<u32> = (1..10).collect();
        assert_eq!(row, all);
        assert_eq!(col, all);
        assert_eq!(block, all);
    }
}

#[test]
fn coordinates() {
    assert_eq!(Sudoku::index(0, 0), 0);
    assert_eq!(Sudoku::index(4, 7), 43);
    assert_eq!(Sudoku::index(8, 8), 80);
    assert_eq!(Sudoku::square(4, 7), 5);
    assert_eq!(Sudoku::square(8, 0), 6);
    assert_eq!(Sudoku::index_in_block(4, 7), 4);
    assert_eq!(Sudoku::index_in_block(8, 0), 6);
}

#[test]
fn construction_reads_digits_and_blanks() {
    let g = Sudoku::from_flattened(PUZZLE).unwrap();
    assert_eq!(g.get_values(), digits(PUZZLE));
    let blanks: Vec<usize> = (0..81).filter(|&i| digits(PUZZLE)[i] == 0).collect();
    assert_eq!(g.empty_slots(), blanks);
    let dotted = PUZZLE.replace('0', ".");
    assert_eq!(Sudoku::from_flattened(&dotted).unwrap_err(), ParseError::InvalidCharacter);
    let accented = PUZZLE.replacen('0', "é", 1);
    assert_eq!(Sudoku::from_flattened(&accented).unwrap_err(), ParseError::InvalidCharacter);
}

#[test]
fn construction_rejects_a_wrong_length() {
    assert_eq!(Sudoku::from_flattened("123").unwrap_err(), ParseError::WrongLength);
    assert_eq!(Sudoku::from_flattened("").unwrap_err(), ParseError::WrongLength);
    assert_eq!(Sudoku::from_values(vec![0; 82]).unwrap_err(), ParseError::WrongLength);
}

#[test]
fn construction_rejects_a_digit_above_nine() {
    let mut s = String::from(PUZZLE);
    s.replace_range(2..3, "a");
    assert_eq!(Sudoku::from_flattened(&s).unwrap_err(), ParseError::InvalidCharacter);
    let mut v = vec![0u32; 81];
    v[80] = 10;
    assert_eq!(Sudoku::from_values(v).unwrap_err(), ParseError::ValueOutOfRange);
}

#[test]
fn duplicate_givens_in_a_row_are_rejected() {
    let mut v = digits(PUZZLE);
    v[2] = 5;
    assert_eq!(Sudoku::from_values(v).unwrap_err(), ParseError::ConflictingGivens);
}

#[test]
fn full_grid_with_a_duplicate_is_rejected() {
    let mut v = digits(SOLUTION);
    v[0] = v[1];
    assert_eq!(Sudoku::from_values(v).unwrap_err(), ParseError::ConflictingGivens);
}

#[test]
fn validity_of_a_value() {
    let g = grid(PUZZLE);
    assert!(!g.is_valid(0, 2, 5));
    assert!(!g.is_valid(0, 2, 8));
    assert!(!g.is_valid(0, 2, 9));
    assert!(g.is_valid(0, 2, 1));
    assert!(g.is_valid(0, 2, 4));
    let before = g.is_valid(0, 2, 4);
    let _ = g.get_domain(0, 2);
    let _ = g.get_values();
    assert_eq!(g.is_valid(0, 2, 4), before);
}

#[test]
fn applied_domains() {
    let g = grid(PUZZLE);
    assert_eq!(g.get_domain(0, 0).iter(), vec![5]);
    assert_eq!(g.get_domain(0, 2).iter(), vec![1, 2, 4]);
    let empty = Sudoku::from_flattened(&"0".repeat(81)).unwrap();
    assert!(empty.get_domain(4, 4).is_empty());
}

#[test]
fn find_solution_takes_the_first_free_candidate() {
    let mut g = grid(PUZZLE);
    assert_eq!(g.find_solution(0, 2, &Heuristic::Greedy), Some(1));
    assert_eq!(g.get_domain(0, 2).iter(), vec![2, 4]);
    assert_eq!(g.find_solution(0, 2, &Heuristic::Reverse), Some(4));
    assert_eq!(g.get_domain(0, 2).iter(), vec![2]);
    assert_eq!(g.get_values(), digits(PUZZLE));
    let mut one = BitSet::new();
    one.insert(5);
    g.set_domain(0, 2, one);
    assert_eq!(g.find_solution(0, 2, &Heuristic::Greedy), None);
    assert_eq!(g.get_domain(0, 2).iter(), vec![5]);
}

#[test]
fn set_number_writes_the_cell() {
    let mut g = grid(PUZZLE);
    assert!(g.set_number(0, 2, 4));
    assert_eq!(g.get_values()[2], 4);
    assert!(g.set_number(0, 2, 0));
    assert_eq!(g.get_values()[2], 0);
}

#[test]
fn one_blank_is_filled_without_backtracking() {
    let mut v = digits(SOLUTION);
    v[40] = 0;
    let mut g = Sudoku::from_values(v).unwrap();
    g.apply_domain(full_domain());
    assert_eq!(g.get_domain(4, 4).iter(), vec![5]);
    let (outcome, backtracks) = g.solve(&Heuristic::Greedy, &Heuristic::Greedy);
    assert_eq!(outcome, Outcome::Solved);
    assert_eq!(backtracks, 0);
    assert_eq!(g.get_values(), digits(SOLUTION));
}

#[test]
fn empty_grid_is_solved_by_forward_checking() {
    let mut g = grid(&"0".repeat(81));
    let (outcome, _backtracks) = g.solve_fc(&Heuristic::Greedy);
    assert_eq!(outcome, Outcome::Solved);
    assert!(g.solved());
    assert_each_unit_holds_every_value_once(&g.get_values());
}

#[test]
fn puzzle_is_solved_by_backtracking() {
    let mut g = grid(PUZZLE);
    let (outcome, backtracks) = g.solve(&Heuristic::Greedy, &Heuristic::Greedy);
    assert_eq!(outcome, Outcome::Solved);
    assert!(backtracks > 0);
    assert_eq!(g.get_values(), digits(SOLUTION));
    assert!(g.solved());
}

#[test]
fn puzzle_is_solved_with_reverse_order() {
    let mut g = grid(PUZZLE);
    let (outcome, _) = g.solve(&Heuristic::Greedy, &Heuristic::Reverse);
    assert_eq!(outcome, Outcome::Solved);
    assert_eq!(g.get_values(), digits(SOLUTION));
}

#[test]
fn most_constrained_order_never_reports_a_wrong_grid() {
    for h in [Heuristic::MostConstrainedVariable].iter() {
        let mut g = grid(PUZZLE);
        let (outcome, _) = g.solve(&Heuristic::Greedy, h);
        if outcome == Outcome::Solved {
            assert_eq!(g.get_values(), digits(SOLUTION));
        } else {
            assert!(!g.solved());
        }
    }
}

#[test]
fn puzzle_is_solved_by_forward_checking_with_each_value_order() {
    for h in [Heuristic::Greedy, Heuristic::Reverse, Heuristic::Random].iter() {
        let mut g = grid(PUZZLE);
        let (outcome, _) = g.solve_fc(h);
        assert_eq!(outcome, Outcome::Solved);
        assert_eq!(g.get_values(), digits(SOLUTION));
    }
}

#[test]
fn solved_grid_needs_no_search() {
    let mut g = grid(SOLUTION);
    assert!(g.solved());
    assert_eq!(g.solve(&Heuristic::Greedy, &Heuristic::Greedy), (Outcome::Solved, 0));
    assert_eq!(g.solve_fc(&Heuristic::Greedy), (Outcome::Solved, 0));
    assert_eq!(g.get_values(), digits(SOLUTION));
}

#[test]
fn unsatisfiable_grid_is_reported_unsolved() {
    // the first row misses only 9 at its end, and the last column already holds a 9
    let mut v = vec![0u32; 81];
    for c in 0..8 {
        v[c] = c as u32 + 1;
    }
    v[80] = 9;
    let mut g = Sudoku::from_values(v.clone()).unwrap();
    g.apply_domain(full_domain());
    let (outcome, backtracks) = g.solve(&Heuristic::Greedy, &Heuristic::Greedy);
    assert_eq!(outcome, Outcome::Unsolved);
    assert_eq!(backtracks, 1);
    let mut g = Sudoku::from_values(v).unwrap();
    g.apply_domain(full_domain());
    let (outcome, _) = g.solve_fc(&Heuristic::Greedy);
    assert_eq!(outcome, Outcome::Unsolved);
}

#[test]
fn scheduler_takes_and_puts_back() {
    let domains = vec![BitSet::new(); 81];
    let mut slots = EmptySlots::from(vec![3, 5, 7]);
    assert_eq!(slots.next(&domains), Some(3));
    assert_eq!(slots.next(&domains), Some(5));
    assert_eq!(slots.remaining(), 1);
    assert_eq!(slots.backtrack(), Some(3));
    assert_eq!(slots.remaining(), 3);
    assert_eq!(slots.next(&domains), Some(3));
    assert_eq!(slots.backtrack(), None);
    assert_eq!(slots.remaining(), 3);
    assert_eq!(slots.backtrack(), None);
    slots.set_heuristic(&Heuristic::Reverse);
    assert_eq!(slots.next(&domains), Some(7));
}

#[test]
fn scheduler_by_domain_size() {
    let mut domains = vec![BitSet::new(); 81];
    for v in 1..4u32 {
        domains[3].insert(v);
    }
    domains[5].insert(1);
    domains[9].insert(2);
    let mut slots = EmptySlots::from(vec![1, 3, 5, 9]);
    slots.set_heuristic(&Heuristic::MostConstrainedVariable);
    assert_eq!(slots.next(&domains), Some(5));
    assert_eq!(slots.next(&domains), Some(9));
    assert_eq!(slots.next(&domains), Some(3));
    assert_eq!(slots.next(&domains), None);
    assert_eq!(slots.remaining(), 1);
    let mut slots = EmptySlots::from(vec![1, 3, 5, 9]);
    slots.set_heuristic(&Heuristic::LeastConstrainedVariable);
    assert_eq!(slots.next(&domains), Some(3));
    assert_eq!(slots.next(&domains), Some(5));
    assert_eq!(slots.next(&domains), Some(9));
    assert_eq!(slots.next(&domains), None);
    assert_eq!(slots.remaining(), 1);
    let mut slots = EmptySlots::from(vec![1, 3, 5, 9]);
    slots.set_heuristic(&Heuristic::Random);
    let s = slots.next(&domains).unwrap();
    assert!([1, 3, 5, 9].contains(&s));
    assert_eq!(slots.remaining(), 3);
}

#[test]
fn unit_accessors_list_cell_indices() {
    let g = grid(PUZZLE);
    assert_eq!(g.row_indices(1), (9..18).collect::<Vec<usize>>());
    assert_eq!(g.col_indices(2), vec![2, 11, 20, 29, 38, 47, 56, 65, 74]);
    assert_eq!(g.block_indices(4), vec![30, 31, 32, 39, 40, 41, 48, 49, 50]);
}

#[test]
fn unsatisfiable_grid_is_reported_unsolved_in_reverse_order() {
    // the last row misses only 9 at its end, and the last column already holds a 9
    let mut v = vec![0u32; 81];
    for c in 0..8 {
        v[72 + c] = c as u32 + 1;
    }
    v[8] = 9;
    let mut g = Sudoku::from_values(v).unwrap();
    g.apply_domain(full_domain());
    let (outcome, backtracks) = g.solve(&Heuristic::Greedy, &Heuristic::Reverse);
    assert_eq!(outcome, Outcome::Unsolved);
    assert_eq!(backtracks, 1);
}
