use mu_parity::ltl::{Ltl, TransitionError};
use std::collections::{HashMap, HashSet};

fn transition_map(ltl: &Ltl) -> HashMap<i64, HashMap<String, HashSet<i64>>> {
    let mut map = HashMap::new();
    for (s, row) in ltl.transitions.iter().enumerate() {
        let mut by_label: HashMap<String, HashSet<i64>> = HashMap::new();
        for (label, t) in row {
            by_label.entry(label.clone()).or_default().insert(*t);
        }
        map.insert(s as i64, by_label);
    }
    map
}

#[test]
fn test_ltl_functions_test_get_all_states() {
    let simple_ltl = Ltl::new(0, 0, 10);

    let result = simple_ltl.get_all_states();

    assert_eq!(result, HashSet::from([0, 1, 2, 3, 4, 5, 6, 7, 8, 9]));
}

#[test]
fn test_add_transition() {
    let mut simple_ltl = Ltl::new(0, 2, 4);
    let empty_map: HashMap<i64, HashMap<String, HashSet<i64>>> = HashMap::from([
        (0, HashMap::new()),
        (1, HashMap::new()),
        (2, HashMap::new()),
        (3, HashMap::new()),
    ]);

    assert_eq!(transition_map(&simple_ltl), empty_map);

    let test_map: HashMap<i64, HashMap<String, HashSet<i64>>> = HashMap::from([
        (0, HashMap::from([(String::from("a"), HashSet::from([1, 0]))])),
        (1, HashMap::new()),
        (2, HashMap::new()),
        (3, HashMap::new()),
    ]);

    simple_ltl.add_transition(0, "a", 1).unwrap();
    simple_ltl.add_transition(0, "a", 0).unwrap();
    assert_eq!(transition_map(&simple_ltl), test_map);

    // Adding the same transition twice does not change the data.
    simple_ltl.add_transition(0, "a", 0).unwrap();
    assert_eq!(transition_map(&simple_ltl), test_map);
    assert_eq!(simple_ltl.transitions[0].len(), 2);
}

#[test]
fn start_state_too_big_is_refused() {
    let mut simple_ltl = Ltl::new(0, 2, 4);
    assert_eq!(simple_ltl.add_transition(4, "a", 1), Err(TransitionError::StartState));
    assert_eq!(simple_ltl.transitions[0].len(), 0);
}

#[test]
fn end_state_too_big_is_refused() {
    let mut simple_ltl = Ltl::new(0, 2, 3);
    assert_eq!(simple_ltl.add_transition(1, "a", 3), Err(TransitionError::EndState));
    assert_eq!(simple_ltl.add_transition(-1, "a", 0), Err(TransitionError::StartState));
}

#[test]
fn test_box_modality_regular() {
    let mut simple_ltl = Ltl::new(0, 3, 3);
    simple_ltl.add_transition(0, "a", 1).unwrap();
    simple_ltl.add_transition(0, "a", 0).unwrap();
    simple_ltl.add_transition(1, "a", 2).unwrap();

    let out_states = HashSet::from([1]);
    let boxmod = simple_ltl.get_box_modality(String::from("a"), out_states);

    assert_eq!(boxmod, HashSet::from([2]))
}

#[test]
fn test_box_mod_state_with_no_a() {
    let mut simple_ltl = Ltl::new(0, 3, 5);
    let transitions: [(i64, &str, i64); 5] = [(0, "a", 1), (0, "a", 0), (1, "a", 1), (2, "a", 1), (3, "b", 4)];
    for (s, a, t) in transitions.iter() {
        simple_ltl.add_transition(*s, a, *t).unwrap();
    }

    let out_states = HashSet::from([1, 2]);
    let boxmod = simple_ltl.get_box_modality(String::from("a"), out_states);

    assert_eq!(boxmod, HashSet::from([1, 2, 3, 4]))
}

#[test]
fn test_box_modality_emptyset() {
    let mut simple_ltl = Ltl::new(0, 3, 4);
    let transitions: [(i64, &str, i64); 4] = [(0, "a", 1), (0, "a", 0), (1, "a", 2), (2, "b", 3)];
    for (s, a, t) in transitions.iter() {
        simple_ltl.add_transition(*s, a, *t).unwrap();
    }

    let out_states = HashSet::from([]);
    let boxmod = simple_ltl.get_box_modality(String::from("a"), out_states);

    assert_eq!(boxmod, HashSet::from([2, 3]))
}

#[test]
fn test_box_modality_emptyset_modal_operators_form3() {
    let mut simple_ltl = Ltl::new(0, 14, 8);
    let transitions: [(i64, &str, i64); 14] = [
        (0, "tau", 1),
        (0, "tau", 2),
        (1, "tau", 3),
        (1, "tau", 4),
        (2, "tau", 5),
        (2, "tau", 4),
        (3, "b", 0),
        (3, "a", 6),
        (4, "tau", 7),
        (4, "tau", 6),
        (5, "a", 0),
        (5, "a", 7),
        (6, "tau", 2),
        (7, "b", 1),
    ];
    for (s, a, t) in transitions.iter() {
        simple_ltl.add_transition(*s, a, *t).unwrap();
    }

    let out_states = HashSet::from([]);
    let boxmod = simple_ltl.get_box_modality(String::from("tau"), out_states);

    assert_eq!(boxmod, HashSet::from([3, 5, 7]))
}

#[test]
fn test_diamond_modality_regular() {
    let mut simple_ltl = Ltl::new(0, 3, 3);
    simple_ltl.add_transition(0, "a", 1).unwrap();
    simple_ltl.add_transition(0, "a", 0).unwrap();
    simple_ltl.add_transition(1, "a", 2).unwrap();

    let out_states = HashSet::from([1]);
    let diamod = simple_ltl.get_diamond_modality(String::from("a"), out_states);

    assert_eq!(diamod, HashSet::from([0]))
}

#[test]
fn test_diamond_modality_emptyset() {
    let mut simple_ltl = Ltl::new(0, 3, 4);
    simple_ltl.add_transition(0, "a", 1).unwrap();
    simple_ltl.add_transition(0, "a", 0).unwrap();
    simple_ltl.add_transition(1, "a", 2).unwrap();
    simple_ltl.add_transition(2, "b", 3).unwrap();

    let out_states = HashSet::from([]);
    let diamod = simple_ltl.get_diamond_modality(String::from("a"), out_states);

    assert_eq!(diamod, HashSet::from([]))
}

#[test]
fn box_of_all_states_is_all_states() {
    let mut ltl = Ltl::new(0, 2, 3);
    ltl.add_transition(0, "a", 1).unwrap();
    ltl.add_transition(1, "b", 2).unwrap();
    let all = ltl.get_all_states();
    assert_eq!(ltl.get_box_modality(String::from("a"), all.clone()), all);
    assert_eq!(ltl.get_box_modality(String::from("zzz"), all.clone()), all);
}

#[test]
fn diamond_of_nothing_is_nothing() {
    let mut ltl = Ltl::new(0, 2, 3);
    ltl.add_transition(0, "a", 1).unwrap();
    ltl.add_transition(2, "a", 2).unwrap();
    assert_eq!(ltl.get_diamond_modality(String::from("a"), HashSet::new()), HashSet::new());
}

#[test]
fn deadlocked_state_satisfies_box_false_and_not_diamond_true() {
    let mut ltl = Ltl::new(0, 1, 2);
    ltl.add_transition(0, "a", 1).unwrap();
    let all = ltl.get_all_states();
    assert!(ltl.get_box_modality(String::from("a"), HashSet::new()).contains(&1));
    assert!(!ltl.get_diamond_modality(String::from("a"), all).contains(&1));
}

#[test]
fn targets_outside_the_system_are_ignored() {
    let mut ltl = Ltl::new(0, 1, 2);
    ltl.add_transition(0, "a", 1).unwrap();
    assert_eq!(ltl.get_diamond_modality(String::from("a"), HashSet::from([1, 9])), HashSet::from([0]));
}
