use sudoku_csp::cell::SimpleCell;

#[test]
fn cell_from_value() {
    assert_eq!(SimpleCell::new(0), SimpleCell::Var);
    assert_eq!(SimpleCell::new(5), SimpleCell::Const(5));
    assert_eq!(*SimpleCell::new(0).value(), 0);
    assert_eq!(*SimpleCell::new(7).value(), 7);
    assert!(SimpleCell::new(0).empty());
    assert!(!SimpleCell::new(3).empty());
}
