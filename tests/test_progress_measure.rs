use mu_parity::lifting_strategies::{
    least_successor_order, most_successor_order, random_order, solve, LiftingStrategy, PredecessorLiftingStrategy,
};
use std::collections::HashMap;
use mu_parity::progress_measure::{_is_even, _tail_zeros, max_measures, min_measures, ProgressMeasure};
use mu_parity::vertex::{Vertex, Vertices};

#[test]
fn test_progress_measure_test_get_all_states() {
    let pm = ProgressMeasure::new(2, 4);

    let expected_result = vec![Some(vec![0, 0, 0, 0]), Some(vec![0, 0, 0, 0])];

    assert_eq!(pm.data, expected_result);
}

#[test]
fn test_function_prog_lec8_slide17_example1() {
    let v = Vertex::new(0, 0, 1, Vec::<i64>::from([]));
    let w = Vertex::new(1, 1, 0, Vec::<i64>::from([]));
    const D: i64 = 4;

    let mut pm = ProgressMeasure::new(2, 3);
    pm.data[1] = Some(vec![0, 2, 0, 0]);

    let result = pm.prog(v, w, D);
    assert_eq!(result, Some(vec![0, 0, 0, 0]));
}

#[test]
fn test_function_prog_lec8_slide17_example2() {
    let v = Vertex::new(0, 1, 1, Vec::<i64>::from([]));
    let w = Vertex::new(1, 1, 0, Vec::<i64>::from([]));
    let d = 3;

    let mut pm = ProgressMeasure::new(2, 3);
    pm.data[1] = Some(vec![0, 2, 0, 0]);

    let result = pm.prog(v, w, d);
    assert_eq!(result, None);
}

#[test]
fn test_function_prog_lec8_slide17_example3() {
    let v = Vertex::new(0, 3, 1, Vec::<i64>::from([]));
    let w = Vertex::new(1, 1, 0, Vec::<i64>::from([]));
    let d = 3;

    let mut pm = ProgressMeasure::new(2, 3);
    pm.data[1] = Some(vec![0, 2, 0, 0]);

    let result = pm.prog(v, w, d);
    assert_eq!(result, Some(vec![0, 2, 0, 1]));
}

#[test]
fn test_function_prog_odd_t() {
    let v = Vertex::new(0, 3, 1, Vec::<i64>::from([]));
    let w = Vertex::new(1, 1, 0, Vec::<i64>::from([]));
    let d = 3;

    let mut pm = ProgressMeasure::new(2, 3);
    pm.data[1] = None;

    let result = pm.prog(v, w, d);
    assert_eq!(result, None);
}

#[test]
fn prog_carries_to_the_left() {
    let v = Vertex::new(0, 3, 1, vec![]);
    let w = Vertex::new(1, 1, 0, vec![]);
    let mut pm = ProgressMeasure::new(2, 4);
    pm.data[1] = Some(vec![0, 1, 0, 3]);
    assert_eq!(pm.prog(v, w, 4), Some(vec![0, 2, 0, 0]));
}

#[test]
fn prog_is_monotone_on_an_example() {
    let v = Vertex::new(0, 3, 1, vec![]);
    let w = Vertex::new(1, 1, 0, vec![]);
    let mut low = ProgressMeasure::new(2, 4);
    low.data[1] = Some(vec![0, 1, 0, 2]);
    let mut high = ProgressMeasure::new(2, 4);
    high.data[1] = Some(vec![0, 2, 0, 0]);
    assert_eq!(low.prog(v.clone(), w.clone(), 4), Some(vec![0, 1, 0, 3]));
    assert_eq!(high.prog(v, w, 4), Some(vec![0, 2, 0, 1]));
}

#[test]
fn test_helper_tail_zeroes() {
    let v = vec![1, 2, 3, 4, 5];
    let result = _tail_zeros(v, 2);
    assert_eq!(result, vec![1, 2, 0, 0, 0]);
}

#[test]
fn test_helper_tail_zeroes_2() {
    let v = vec![1, 2, 3, 4];
    let result = _tail_zeros(v, 0);
    assert_eq!(result, vec![0, 0, 0, 0]);
}

#[test]
fn tail_zeros_past_the_end_keeps_everything() {
    assert_eq!(_tail_zeros(vec![4, 5], 7), vec![4, 5]);
}

#[test]
fn test_helper_is_even() {
    assert_eq!(true, _is_even(0));
    assert_eq!(false, _is_even(1));

    assert_eq!(true, _is_even(122392));
    assert_eq!(false, _is_even(33201));
}

#[test]
fn test_function_min_measures_none() {
    let list = vec![Some(vec![0, 1, 0, 1]), None, Some(vec![0, 0, 0, 0])];
    let result = min_measures(list);
    assert_eq!(result, Some(vec![0, 0, 0, 0]));
}

#[test]
fn test_function_min_measures_none_2() {
    let list = vec![Some(vec![0, 1, 0, 1]), None, Some(vec![0, 2, 0, 1])];
    let result = min_measures(list);
    assert_eq!(result, Some(vec![0, 1, 0, 1]));
}

#[test]
fn test_function_min_measures_all_none() {
    let list = vec![None, None, None];
    let result = min_measures(list);
    assert_eq!(result, None);
}

#[test]
fn test_function_min_measures_same() {
    let list = vec![
        Some(vec![0, 1, 0, 1]),
        Some(vec![0, 1, 0, 1]),
        Some(vec![0, 1, 0, 1]),
        None,
        Some(vec![0, 2, 0, 1]),
        Some(vec![0, 2, 0, 1]),
    ];
    let result = min_measures(list);
    assert_eq!(result, Some(vec![0, 1, 0, 1]));
}

#[test]
fn min_measures_of_nothing_is_top() {
    assert_eq!(min_measures(vec![]), None);
}

#[test]
fn test_function_max_measures() {
    let list = vec![Some(vec![0, 1, 0, 1]), Some(vec![0, 0, 0, 0])];
    let result = max_measures(list);
    assert_eq!(result, Some(vec![0, 1, 0, 1]));
}

#[test]
fn test_function_max_measures_none() {
    let list = vec![Some(vec![0, 1, 0, 1]), None, Some(vec![0, 2, 0, 1])];
    let result = max_measures(list);
    assert_eq!(result, None);
}

#[test]
fn test_function_max_measures_all_none() {
    let list = vec![None, None, None];
    let result = max_measures(list);
    assert_eq!(result, None);
}

#[test]
fn test_function_max_measures_same() {
    let list = vec![
        Some(vec![0, 1, 0, 1]),
        Some(vec![0, 1, 0, 1]),
        Some(vec![0, 1, 0, 1]),
        Some(vec![0, 2, 0, 1]),
        Some(vec![0, 2, 0, 1]),
        Some(vec![0, 2, 0, 0]),
    ];
    let result = max_measures(list);
    assert_eq!(result, Some(vec![0, 2, 0, 1]));
}

fn construct_example_lec8_slide21() -> (ProgressMeasure, Vertices) {
    let mut pm = ProgressMeasure::new(7, 4);
    for i in 0..7 {
        pm.data[i] = Some(vec![0, 0, 0, 0]);
    }

    const NONE: Option<Vertex> = None;
    let mut vertices: Vertices = Vec::from([NONE; 7]);

    // X
    vertices[0] = Some(Vertex::new(0, 1, 1, vec![0, 1]));
    // X'
    vertices[1] = Some(Vertex::new(1, 1, 0, vec![2, 4]));
    // Y
    vertices[2] = Some(Vertex::new(2, 2, 1, vec![3, 6]));
    // Y'
    vertices[3] = Some(Vertex::new(3, 2, 0, vec![2, 0]));
    // Z
    vertices[4] = Some(Vertex::new(4, 3, 0, vec![5]));
    // Z'
    vertices[5] = Some(Vertex::new(5, 3, 0, vec![5]));
    // W
    vertices[6] = Some(Vertex::new(6, 3, 0, vec![6, 4]));

    (pm, vertices)
}

#[test]
fn test_function_liftv_slide_example() {
    let construct = construct_example_lec8_slide21();
    let mut pm: ProgressMeasure = construct.0;
    let vertices: Vertices = construct.1;
    const D: i64 = 4;

    // X
    let mut res = pm.lift_v(0, &vertices, D);
    pm = res.0;
    let mut changed = res.1;
    assert_eq!(changed, true);
    assert_eq!(pm.data[0], None);
    for i in 1..7 {
        assert_eq!(pm.data[i], Some(vec![0, 0, 0, 0]));
    }

    // Y', Y
    for v in [2, 3] {
        res = pm.lift_v(v, &vertices, D);
        pm = res.0;
        changed = res.1;
        assert_eq!(changed, false);
        assert_eq!(pm.data[0], None);
        for i in 1..7 {
            assert_eq!(pm.data[i], Some(vec![0, 0, 0, 0]));
        }
    }

    // X'
    res = pm.lift_v(1, &vertices, D);
    pm = res.0;
    changed = res.1;
    assert_eq!(changed, true);
    assert_eq!(pm.data[0], None);
    assert_eq!(pm.data[1], Some(vec![0, 1, 0, 0]));
    for i in 2..7 {
        assert_eq!(pm.data[i], Some(vec![0, 0, 0, 0]));
    }

    // Z'
    res = pm.lift_v(5, &vertices, D);
    pm = res.0;
    changed = res.1;
    assert_eq!(changed, true);
    assert_eq!(pm.data[0], None);
    assert_eq!(pm.data[1], Some(vec![0, 1, 0, 0]));
    assert_eq!(pm.data[5], None);
    for i in [2, 3, 4, 6] {
        assert_eq!(pm.data[i], Some(vec![0, 0, 0, 0]));
    }

    // Z
    res = pm.lift_v(4, &vertices, D);
    pm = res.0;
    changed = res.1;
    assert_eq!(changed, true);
    assert_eq!(pm.data[0], None);
    assert_eq!(pm.data[1], Some(vec![0, 1, 0, 0]));
    assert_eq!(pm.data[4], None);
    assert_eq!(pm.data[5], None);
    for i in [2, 3, 6] {
        assert_eq!(pm.data[i], Some(vec![0, 0, 0, 0]));
    }

    // W
    res = pm.lift_v(6, &vertices, D);
    pm = res.0;
    changed = res.1;
    assert_eq!(changed, true);
    assert_eq!(pm.data[0], None);
    assert_eq!(pm.data[1], Some(vec![0, 1, 0, 0]));
    assert_eq!(pm.data[4], None);
    assert_eq!(pm.data[5], None);
    assert_eq!(pm.data[6], None);
    for i in [2, 3] {
        assert_eq!(pm.data[i], Some(vec![0, 0, 0, 0]));
    }

    // Y
    res = pm.lift_v(2, &vertices, D);
    pm = res.0;
    changed = res.1;
    assert_eq!(changed, true);
    assert_eq!(pm.data[0], None);
    assert_eq!(pm.data[1], Some(vec![0, 1, 0, 0]));
    assert_eq!(pm.data[2], None);
    assert_eq!(pm.data[4], None);
    assert_eq!(pm.data[5], None);
    assert_eq!(pm.data[6], None);
    for i in [3] {
        assert_eq!(pm.data[i], Some(vec![0, 0, 0, 0]));
    }

    // X'
    res = pm.lift_v(1, &vertices, D);
    pm = res.0;
    changed = res.1;
    assert_eq!(changed, true);
    assert_eq!(pm.data[0], None);
    assert_eq!(pm.data[1], None);
    assert_eq!(pm.data[2], None);
    assert_eq!(pm.data[4], None);
    assert_eq!(pm.data[5], None);
    assert_eq!(pm.data[6], None);
    for i in [3] {
        assert_eq!(pm.data[i], Some(vec![0, 0, 0, 0]));
    }

    // Y'
    res = pm.lift_v(3, &vertices, D);
    pm = res.0;
    changed = res.1;
    assert_eq!(changed, true);
    assert_eq!(pm.data[0], None);
    assert_eq!(pm.data[1], None);
    assert_eq!(pm.data[2], None);
    assert_eq!(pm.data[3], None);
    assert_eq!(pm.data[4], None);
    assert_eq!(pm.data[5], None);
    assert_eq!(pm.data[6], None);
}

#[test]
fn test_function_liftv_multiple_applications() {
    let construct = construct_example_lec8_slide21();
    let mut pm: ProgressMeasure = construct.0;
    let vertices: Vertices = construct.1;
    const D: i64 = 4;

    let mut res = pm.lift_v(0, &vertices, D);
    pm = res.0;
    let mut changed = res.1;
    assert_eq!(changed, true);
    assert_eq!(pm.data[0], None);
    for i in 1..7 {
        assert_eq!(pm.data[i], Some(vec![0, 0, 0, 0]));
    }

    // X again does nothing
    res = pm.lift_v(0, &vertices, D);
    pm = res.0;
    changed = res.1;
    assert_eq!(changed, false);
    assert_eq!(pm.data[0], None);
    for i in 1..7 {
        assert_eq!(pm.data[i], Some(vec![0, 0, 0, 0]));
    }
}

#[test]
fn lifting_twice_is_lifting_once() {
    let (pm, vertices) = construct_example_lec8_slide21();
    for v in 0..7 {
        let (once, _) = ProgressMeasure { data: pm.data.clone() }.lift_v(v, &vertices, 4);
        let (twice, changed) = ProgressMeasure { data: once.data.clone() }.lift_v(v, &vertices, 4);
        assert!(!changed);
        assert_eq!(once.data, twice.data);
    }
}

fn all_strategies() -> Vec<LiftingStrategy> {
    vec![
        LiftingStrategy::InputOrder,
        LiftingStrategy::RandomOrder(1234),
        LiftingStrategy::LeastSuccessors,
        LiftingStrategy::MostSuccessors,
        LiftingStrategy::PredecessorQueue,
        LiftingStrategy::FocusList(1, 7),
    ]
}

#[test]
fn every_strategy_gives_the_same_measure() {
    let (_, vertices) = construct_example_lec8_slide21();
    let reference = solve(&vertices, 4, LiftingStrategy::InputOrder);
    for strategy in all_strategies() {
        let pm = solve(&vertices, 4, strategy);
        assert_eq!(pm.data, reference.data);
    }
}

#[test]
fn seven_vertex_game_is_won_by_odd_everywhere() {
    let (_, vertices) = construct_example_lec8_slide21();
    let pm = solve(&vertices, 4, LiftingStrategy::InputOrder);
    assert_eq!(pm.data, vec![None; 7]);
    for v in 0..7 {
        let (_, changed) = ProgressMeasure { data: pm.data.clone() }.lift_v(v, &vertices, 4);
        assert!(!changed);
    }
}

#[test]
fn even_wins_on_an_even_self_loop() {
    let vertices: Vertices = vec![Some(Vertex::new(0, 0, 0, vec![0])), Some(Vertex::new(1, 1, 1, vec![0]))];
    for strategy in all_strategies() {
        let pm = solve(&vertices, 2, strategy);
        assert_eq!(pm.data, vec![Some(vec![0, 0]), Some(vec![0, 1])]);
    }
}

#[test]
fn successor_orders() {
    let vertices: Vertices = vec![
        Some(Vertex::new(0, 0, 0, vec![0, 1, 2])),
        None,
        Some(Vertex::new(2, 0, 0, vec![0])),
        Some(Vertex::new(3, 0, 0, vec![0, 2])),
    ];
    assert_eq!(least_successor_order(&vertices), vec![2, 3, 0]);
    assert_eq!(most_successor_order(&vertices), vec![0, 3, 2]);
}

#[test]
fn random_order_is_a_shuffled_permutation() {
    let order = random_order(100, 1234);
    let mut sorted = order.clone();
    sorted.sort();
    assert_eq!(sorted, (0..100).collect::<Vec<usize>>());
    assert_ne!(order, (0..100).collect::<Vec<usize>>());
    assert_eq!(random_order(100, 1234), order);
    assert!(random_order(0, 7).is_empty());
}

#[test]
fn predecessor_queue_order() {
    let vertices: Vertices = vec![
        Some(Vertex::new(0, 0, 0, vec![1])),
        None,
        Some(Vertex::new(2, 0, 0, vec![0])),
        Some(Vertex::new(3, 0, 0, vec![0])),
    ];
    let top = HashMap::from([(3, true)]);
    let mut q = PredecessorLiftingStrategy::new(&vertices, &top);
    assert_eq!(q.next(), Some(0));
    q.lifted(&vec![3, 2, 0, 2], &top);
    assert_eq!(q.next(), Some(2));
    assert_eq!(q.next(), Some(0));
    assert_eq!(q.next(), None);
}
