use sudoku_csp::bitset::{BitSet, DomainOperations};
use sudoku_csp::heuristic::{Heuristic, HeuristicDomainOperations};

fn set_of(values: &[u32]) -> BitSet {
    let mut s = BitSet::new();
    for &v in values {
        s.insert(v);
    }
    s
}

#[test]
fn insert_then_remove_restores_the_set() {
    let start_set = set_of(&[1, 4, 9]);
    for v in 0..64u32 {
        if start_set.iter().contains(&v) {
            continue;
        }
        let mut s = start_set;
        s.insert(v);
        assert!(s.iter().contains(&v));
        s.remove(v);
        assert_eq!(s, start_set);
    }
}

#[test]
fn len_matches_iteration_count() {
    let cases: Vec<Vec<u32>> = vec![vec![], vec![0], vec![63], vec![1, 2, 3, 4, 5, 6, 7, 8, 9], vec![0, 31, 32, 63]];
    for c in cases {
        let s = set_of(&c);
        assert_eq!(s.len(), s.iter().len());
        assert_eq!(s.len(), c.len());
    }
}

#[test]
fn iteration_is_ascending_and_leaves_the_set() {
    let s = set_of(&[9, 3, 5, 1]);
    assert_eq!(s.iter(), vec![1, 3, 5, 9]);
    assert_eq!(s.iter(), vec![1, 3, 5, 9]);
    assert_eq!(s.len(), 4);
}

#[test]
fn empty_set_gives_the_sentinel() {
    let s = BitSet::new();
    assert!(s.is_empty());
    assert_eq!(s.len(), 0);
    assert_eq!(s.current(), 0);
    assert_eq!(s.last(), 0);
    assert_eq!(s.random(), 0);
    assert_eq!(s.nth(0), 0);
    assert_eq!(s.pick(&Heuristic::Greedy), 0);
    assert_eq!(s.pick(&Heuristic::Reverse), 0);
    assert_eq!(s.pick(&Heuristic::Random), 0);
    assert!(s.iter().is_empty());
    assert!(s.iter_h(&Heuristic::Random).is_empty());
}

#[test]
fn smallest_and_largest() {
    let s = set_of(&[7, 2, 40]);
    assert_eq!(s.current(), 2);
    assert_eq!(s.last(), 40);
    assert_eq!(s.nth(1), 7);
    assert_eq!(s.nth(3), 0);
    assert_eq!(set_of(&[63]).current(), 63);
    assert_eq!(set_of(&[63]).last(), 63);
}

#[test]
fn random_member_is_a_member() {
    let s = set_of(&[2, 5, 8]);
    for _ in 0..100 {
        let r = s.random();
        assert!(r == 2 || r == 5 || r == 8);
    }
}

#[test]
fn heuristic_picks() {
    let s = set_of(&[3, 6, 9]);
    assert_eq!(s.pick(&Heuristic::Greedy), 3);
    assert_eq!(s.pick(&Heuristic::MostConstrainedVariable), 3);
    assert_eq!(s.pick(&Heuristic::LeastConstrainedVariable), 3);
    assert_eq!(s.pick(&Heuristic::Reverse), 9);
    let r = s.pick(&Heuristic::Random);
    assert!(r == 3 || r == 6 || r == 9);
    assert_eq!(HeuristicDomainOperations::next(&s, &Heuristic::Reverse), 9);
    assert_eq!(DomainOperations::next(&s), 3);
}

#[test]
fn heuristic_iteration_orders() {
    let s = set_of(&[3, 6, 9]);
    assert_eq!(s.iter_h(&Heuristic::Greedy), vec![3, 6, 9]);
    assert_eq!(s.iter_h(&Heuristic::Reverse), vec![9, 6, 3]);
    assert_eq!(s.iter_h(&Heuristic::MostConstrainedVariable), vec![3, 6, 9]);
    let mut r = s.iter_h(&Heuristic::Random);
    r.sort();
    assert_eq!(r, vec![3, 6, 9]);
}

#[test]
fn trait_remove_takes_the_value_out() {
    let mut s = set_of(&[1, 2]);
    HeuristicDomainOperations::remove(&mut s, 1);
    assert_eq!(s.iter(), vec![2]);
    DomainOperations::remove(&mut s, 2);
    assert!(s.is_empty());
}
