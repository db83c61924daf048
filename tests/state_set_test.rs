use mu_parity::state_set::{Intersect, StateSet, Union};

#[test]
fn test_union_all_states() {
    let a = StateSet { all_states: true, states: None };
    let b = StateSet { all_states: false, states: Some(vec![0, 1, 2]) };

    let result = a.union(b);
    assert_eq!(result.all_states, true);
    assert_eq!(result.states, None);
}

#[test]
fn test_union_some_states() {
    let a = StateSet { all_states: false, states: Some(vec![0, 1, 2]) };
    let b = StateSet { all_states: false, states: Some(vec![0, 3, 4]) };

    let result = a.union(b);
    assert_eq!(result.all_states, false);
    assert_eq!(result.states, Some(vec![0, 1, 2, 3, 4]));
}

#[test]
fn test_intersect_all_states() {
    let a = StateSet { all_states: true, states: None };
    let b = StateSet { all_states: false, states: Some(vec![0, 1, 2]) };

    let result = a.intersect(b);
    assert_eq!(result.all_states, false);
    assert_eq!(result.states, Some(vec![0, 1, 2]));
}

#[test]
fn test_intersect_some_states() {
    let a = StateSet { all_states: false, states: Some(vec![0, 1, 2]) };
    let b = StateSet { all_states: false, states: Some(vec![0, 3, 4]) };

    let result = a.intersect(b);
    assert_eq!(result.all_states, false);
    assert_eq!(result.states, Some(vec![0]));
}

#[test]
fn union_removes_repeats() {
    let a = StateSet { all_states: false, states: Some(vec![2, 2, 5]) };
    let b = StateSet { all_states: false, states: Some(vec![5, 7]) };
    let result = a.union(b);
    assert_eq!(result.states, Some(vec![2, 5, 7]));
}

#[test]
fn intersect_with_all_states_on_the_right() {
    let a = StateSet { all_states: false, states: Some(vec![3, 1]) };
    let b = StateSet { all_states: true, states: None };
    let result = a.intersect(b);
    assert_eq!(result.all_states, false);
    assert_eq!(result.states, Some(vec![3, 1]));
}
