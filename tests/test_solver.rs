use mu_parity::analysis::{find_formula_statistics, find_open_variables};
use mu_parity::formula::{formula_depth, print_ast, Formula, Node, Operator};
use mu_parity::ltl::Ltl;
use mu_parity::solver::{execute, execute_improved};
use std::collections::HashSet;

fn var(x: &str) -> Node {
    Node::Variable(x.to_string())
}

fn fix(op: Operator, x: &str, body: Node, sb: Operator) -> Node {
    Node::FixPointExpr { op, variable: x.to_string(), rhs: Box::new(body), surrounding_binder: sb }
}

fn modal(op: Operator, a: &str, body: Node) -> Node {
    Node::BinaryExpr { op, lhs: Box::new(Node::Action(a.to_string())), rhs: Box::new(body) }
}

fn both(op: Operator, l: Node, r: Node) -> Node {
    Node::BinaryExpr { op, lhs: Box::new(l), rhs: Box::new(r) }
}

fn truth() -> Node {
    Node::UnaryExpr { op: Operator::SimpleTrue }
}

fn lts(n: i64, edges: &[(i64, &str, i64)]) -> Ltl {
    let mut l = Ltl::new(0, edges.len() as i64, n);
    for (s, a, t) in edges {
        l.add_transition(*s, a, *t).unwrap();
    }
    l
}

fn check_both(f: fn() -> Node, l: fn() -> Ltl, expected: HashSet<i64>) {
    let (naive, _) = execute(Formula { root_node: f() }, l());
    let (improved, _) = execute_improved(Formula { root_node: f() }, l());
    assert_eq!(naive, expected);
    assert_eq!(improved, expected);
}

fn one_state() -> Ltl {
    lts(1, &[])
}

#[test]
fn single_state_without_transitions() {
    check_both(|| fix(Operator::GreatestFixpoint, "X", modal(Operator::BoxModality, "a", var("X")), Operator::NoBinder),
        one_state, HashSet::from([0]));
    check_both(|| fix(Operator::LeastFixpoint, "X", modal(Operator::DiamondModality, "a", var("X")), Operator::NoBinder),
        one_state, HashSet::new());
}

fn three_states() -> Ltl {
    lts(3, &[(0, "a", 1), (0, "a", 0), (1, "a", 2)])
}

#[test]
fn trivial_fixed_points() {
    check_both(|| fix(Operator::GreatestFixpoint, "X", var("X"), Operator::NoBinder), three_states, HashSet::from([0, 1, 2]));
    check_both(|| fix(Operator::LeastFixpoint, "X", var("X"), Operator::NoBinder), three_states, HashSet::new());
}

#[test]
fn constants_and_modalities() {
    check_both(truth, three_states, HashSet::from([0, 1, 2]));
    check_both(|| Node::UnaryExpr { op: Operator::SimpleFalse }, three_states, HashSet::new());
    check_both(|| modal(Operator::DiamondModality, "a", truth()), three_states, HashSet::from([0, 1]));
    check_both(|| modal(Operator::BoxModality, "a", Node::UnaryExpr { op: Operator::SimpleFalse }), three_states, HashSet::from([2]));
    check_both(|| both(Operator::Conjunction, modal(Operator::DiamondModality, "a", truth()),
        modal(Operator::BoxModality, "a", modal(Operator::DiamondModality, "a", truth()))), three_states, HashSet::from([0]));
    check_both(|| both(Operator::Disjunction, modal(Operator::BoxModality, "a", Node::UnaryExpr { op: Operator::SimpleFalse }),
        modal(Operator::DiamondModality, "b", truth())), three_states, HashSet::from([2]));
}

#[test]
fn reachability_and_invariance() {
    // Some path reaches the deadlock 2.
    check_both(|| fix(Operator::LeastFixpoint, "X", both(Operator::Disjunction,
        modal(Operator::BoxModality, "a", Node::UnaryExpr { op: Operator::SimpleFalse }),
        modal(Operator::DiamondModality, "a", var("X"))), Operator::NoBinder), three_states, HashSet::from([0, 1, 2]));
    // An infinite a-path exists.
    check_both(|| fix(Operator::GreatestFixpoint, "X", modal(Operator::DiamondModality, "a", var("X")), Operator::NoBinder),
        three_states, HashSet::from([0]));
}

fn ring() -> Ltl {
    lts(4, &[(0, "a", 1), (1, "b", 2), (2, "a", 3), (3, "b", 0), (1, "a", 1)])
}

fn infinitely_often_b() -> Node {
    // nu X . mu Y . (<b> X || <a> Y)
    fix(Operator::GreatestFixpoint, "X",
        fix(Operator::LeastFixpoint, "Y", both(Operator::Disjunction,
            modal(Operator::DiamondModality, "b", var("X")),
            modal(Operator::DiamondModality, "a", var("Y"))), Operator::GreatestFixpoint),
        Operator::NoBinder)
}

#[test]
fn alternating_formula_agrees() {
    check_both(infinitely_often_b, ring, HashSet::from([0, 1, 2, 3]));
    let (naive, _) = execute(Formula { root_node: infinitely_often_b() }, ring());
    let (improved, _) = execute_improved(Formula { root_node: infinitely_often_b() }, ring());
    assert_eq!(naive, improved);
}

#[test]
fn iterations_are_counted() {
    let (_, it) = execute(Formula { root_node: fix(Operator::GreatestFixpoint, "X", var("X"), Operator::NoBinder) }, three_states());
    assert_eq!(it, 1);
    let (_, it) = execute(Formula { root_node: infinitely_often_b() }, ring());
    assert!(it >= 2);
}

#[test]
fn formula_statistics() {
    assert_eq!(find_formula_statistics(&infinitely_often_b()), (2, 2, 2));
    let same = fix(Operator::LeastFixpoint, "X", fix(Operator::LeastFixpoint, "Y", var("Y"), Operator::LeastFixpoint), Operator::NoBinder);
    assert_eq!(find_formula_statistics(&same), (2, 1, 0));
    assert_eq!(find_formula_statistics(&truth()), (0, 0, 0));
}

#[test]
fn open_variables() {
    let (map, nu, mu) = find_open_variables(&infinitely_often_b());
    assert_eq!(nu, vec!["X".to_string()]);
    assert_eq!(mu, vec!["Y".to_string()]);
    assert_eq!(map.len(), 2);
    assert_eq!(map[0].0, "X");
    assert!(map[0].1.is_empty());
    assert_eq!(map[1].0, "Y");
    assert_eq!(map[1].1, vec!["Y".to_string()]);
}

#[test]
fn ast_printing() {
    let f = fix(Operator::LeastFixpoint, "X", modal(Operator::DiamondModality, "a", var("X")), Operator::NoBinder);
    let text = print_ast(&f, 0);
    assert_eq!(
        text,
        "FixPointExpr(LeastFixpoint)\r\n    Variable(X)\r\n    BinaryExpr(DiamondModality)\r\n        Action(\"a\")\r\n        Variable(X)\r\n"
    );
}

#[test]
fn formula_depth_counts_levels() {
    let f = fix(Operator::LeastFixpoint, "X", modal(Operator::DiamondModality, "a", var("X")), Operator::NoBinder);
    assert_eq!(formula_depth(&f), 3);
    assert_eq!(formula_depth(&truth()), 1);
}
