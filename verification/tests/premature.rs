use order_analysis::at_risk::premature_sensitive_modules;
use order_analysis::link::ModuleIdx;
use rustc_hash::{FxHashMap, FxHashSet};

fn m(index: usize) -> ModuleIdx {
    index
}

fn premature(expected: Vec<ModuleIdx>, positions: Vec<(ModuleIdx, usize)>) -> FxHashSet<ModuleIdx> {
    let actual_positions: FxHashMap<ModuleIdx, usize> = positions.into_iter().collect();
    premature_sensitive_modules(&expected, &actual_positions)
}

#[test]
fn premature_sensitive_modules_marks_modules_that_run_before_expected_predecessors() {
    let expected = vec![m(0), m(1), m(2), m(3)];
    let actual_positions = [(m(0), 2), (m(1), 0), (m(2), 1), (m(3), 3)].into_iter().collect();

    assert_eq!(
        premature_sensitive_modules(&expected, &actual_positions),
        [m(1), m(2)].into_iter().collect()
    );
}

#[test]
fn premature_sensitive_modules_ignores_stable_order() {
    let expected = vec![m(0), m(1), m(2)];
    let actual_positions = [(m(0), 0), (m(1), 1), (m(2), 2)].into_iter().collect();

    assert!(premature_sensitive_modules(&expected, &actual_positions).is_empty());
}

#[test]
fn nothing_expected_is_never_premature() {
    assert!(premature(vec![], vec![(0, 0)]).is_empty());
}

#[test]
fn modules_without_a_position_are_passed_over() {
    let found = premature(vec![0, 1, 2], vec![(1, 5), (2, 3)]);
    assert_eq!(found, [2].into_iter().collect());
    assert!(premature(vec![0, 1], vec![(1, 0)]).is_empty());
}

#[test]
fn the_latest_predecessor_counts_not_the_nearest() {
    // 2 runs behind its neighbour 1, but before 0.
    let found = premature(vec![0, 1, 2], vec![(0, 9), (1, 1), (2, 4)]);
    assert_eq!(found, [1, 2].into_iter().collect());
}

#[test]
fn equal_positions_are_not_premature() {
    assert!(premature(vec![0, 1], vec![(0, 3), (1, 3)]).is_empty());
}
