use vstd::prelude::*;
use crate::formula::{Node, Operator, binders, free_vars, well_formed, node_depth};
use crate::solver::{OpenMap, names_of};

verus! {

/// The variables bound in `n` by fixed points of polarity `pol`.
pub open spec fn binders_of(n: Node, pol: Operator) -> Set<Seq<char>>
    decreases n,
{
    match n {
        Node::BinaryExpr { lhs, rhs, .. } => binders_of(*lhs, pol).union(binders_of(*rhs, pol)),
        Node::FixPointExpr { op, variable, rhs, .. } =>
            if op == pol { binders_of(*rhs, pol).insert(variable@) } else { binders_of(*rhs, pol) },
        _ => Set::empty(),
    }
}

/// The variables bound in `n` by fixed points of polarity `pol` that have a
/// free variable (an open subformula).
pub open spec fn open_binders(n: Node, pol: Operator) -> Set<Seq<char>>
    decreases n,
{
    match n {
        Node::BinaryExpr { lhs, rhs, .. } => open_binders(*lhs, pol).union(open_binders(*rhs, pol)),
        Node::FixPointExpr { op, variable, rhs, .. } =>
            if op == pol && free_vars(n) != Set::<Seq<char>>::empty() {
                open_binders(*rhs, pol).insert(variable@)
            } else {
                open_binders(*rhs, pol)
            },
        _ => Set::empty(),
    }
}

/// For each fixed point of `n`, in pre-order: its variable, and the open
/// variables of its own polarity bound at or below it.
pub open spec fn open_entries(n: Node) -> Seq<(Seq<char>, Set<Seq<char>>)>
    decreases n,
{
    match n {
        Node::BinaryExpr { lhs, rhs, .. } => open_entries(*lhs) + open_entries(*rhs),
        Node::FixPointExpr { op, variable, rhs, .. } =>
            seq![(variable@, open_binders(n, op))] + open_entries(*rhs),
        _ => Seq::empty(),
    }
}

/// The entries of an `OpenMap` as names and sets of names.
pub open spec fn open_view(m: Seq<(String, Vec<String>)>) -> Seq<(Seq<char>, Set<Seq<char>>)> {
    Seq::new(m.len(), |i: int| (m[i].0@, names_of(m[i].1@)))
}

/// Binders of one polarity are binders.
pub proof fn lemma_binders_of_sub(n: Node, pol: Operator)
    ensures
        binders_of(n, pol).subset_of(binders(n)),
    decreases n,
{
    match n {
        Node::BinaryExpr { lhs, rhs, .. } => {
            lemma_binders_of_sub(*lhs, pol);
            lemma_binders_of_sub(*rhs, pol);
        },
        Node::FixPointExpr { rhs, .. } => {
            lemma_binders_of_sub(*rhs, pol);
        },
        _ => {},
    }
}

/// Appends the names of `b` to `a`.
fn add_names(a: &mut Vec<String>, b: &Vec<String>)
    ensures
        names_of(final(a)@) == names_of(old(a)@).union(names_of(b@)),
{
    let mut k: usize = 0;
    while k < b.len()
        invariant
            k <= b@.len(),
            names_of(a@) == names_of(old(a)@).union(names_of(b@.subrange(0, k as int))),
        decreases b@.len() - k,
    {
        let ghost before = a@;
        a.push(b[k].clone());
        proof {
            let bk = b@.subrange(0, k + 1);
            assert forall|s: Seq<char>| names_of(a@).contains(s) <==> names_of(old(a)@).union(names_of(bk)).contains(s) by {
                if names_of(a@).contains(s) {
                    let j = choose|j: int| 0 <= j < a@.len() && (#[trigger] a@[j])@ == s;
                    if j < before.len() {
                        assert(names_of(before).contains(s));
                        if names_of(b@.subrange(0, k as int)).contains(s) {
                            let q = choose|q: int| 0 <= q < k && (#[trigger] b@.subrange(0, k as int)[q])@ == s;
                            assert(bk[q] == b@.subrange(0, k as int)[q]);
                        }
                    } else {
                        assert(bk[k as int]@ == s);
                    }
                }
                if names_of(old(a)@).union(names_of(bk)).contains(s) {
                    if names_of(old(a)@).contains(s) {
                        assert(names_of(before).contains(s));
                        let j = choose|j: int| 0 <= j < before.len() && (#[trigger] before[j])@ == s;
                        assert(a@[j] == before[j]);
                    } else {
                        let q = choose|q: int| 0 <= q < k + 1 && (#[trigger] bk[q])@ == s;
                        if q < k {
                            assert(b@.subrange(0, k as int)[q] == bk[q]);
                            assert(names_of(b@.subrange(0, k as int)).contains(s));
                            assert(names_of(before).contains(s));
                            let j = choose|j: int| 0 <= j < before.len() && (#[trigger] before[j])@ == s;
                            assert(a@[j] == before[j]);
                        } else {
                            assert(a@[a@.len() - 1]@ == s);
                        }
                    }
                }
            }
            assert(names_of(a@) =~= names_of(old(a)@).union(names_of(bk)));
        }
        k = k + 1;
    }
    assert(b@.subrange(0, b@.len() as int) =~= b@);
}

/// The names of `a` other than `x`.
fn without_name(a: &Vec<String>, x: &String) -> (r: Vec<String>)
    ensures
        names_of(r@) == names_of(a@).remove(x@),
{
    let mut r: Vec<String> = Vec::new();
    let mut k: usize = 0;
    while k < a.len()
        invariant
            k <= a@.len(),
            names_of(r@) == names_of(a@.subrange(0, k as int)).remove(x@),
        decreases a@.len() - k,
    {
        let ghost before = r@;
        let ghost ak = a@.subrange(0, k + 1);
        if a[k] != *x {
            r.push(a[k].clone());
        }
        proof {
            assert forall|s: Seq<char>| names_of(r@).contains(s) <==> names_of(ak).remove(x@).contains(s) by {
                if names_of(r@).contains(s) {
                    let j = choose|j: int| 0 <= j < r@.len() && (#[trigger] r@[j])@ == s;
                    if j < before.len() {
                        assert(names_of(before).contains(s));
                        let q = choose|q: int| 0 <= q < k && (#[trigger] a@.subrange(0, k as int)[q])@ == s;
                        assert(ak[q] == a@.subrange(0, k as int)[q]);
                    } else {
                        assert(ak[k as int]@ == s);
                    }
                }
                if names_of(ak).remove(x@).contains(s) {
                    let q = choose|q: int| 0 <= q < k + 1 && (#[trigger] ak[q])@ == s;
                    if q < k {
                        assert(a@.subrange(0, k as int)[q] == ak[q]);
                        assert(names_of(a@.subrange(0, k as int)).contains(s));
                        assert(names_of(before).contains(s));
                        let j = choose|j: int| 0 <= j < before.len() && (#[trigger] before[j])@ == s;
                        assert(r@[j] == before[j]);
                    } else {
                        assert(r@[r@.len() - 1]@ == s);
                    }
                }
            }
            assert(names_of(r@) =~= names_of(ak).remove(x@));
        }
        k = k + 1;
    }
    assert(a@.subrange(0, a@.len() as int) =~= a@);
    r
}

/// The names `[x]`.
fn one_name(x: &String) -> (r: Vec<String>)
    ensures
        names_of(r@) == set![x@],
{
    let mut r: Vec<String> = Vec::new();
    r.push(x.clone());
    assert(r@[0]@ == x@);
    assert(names_of(r@) =~= set![x@]);
    r
}

/// Whether `x` is among the names `a`.
fn has_name(a: &Vec<String>, x: &String) -> (r: bool)
    ensures
        r == names_of(a@).contains(x@),
{
    let mut k: usize = 0;
    while k < a.len()
        invariant
            k <= a@.len(),
            forall|j: int| 0 <= j < k ==> (#[trigger] a@[j])@ != x@,
        decreases a@.len() - k,
    {
        if a[k] == *x {
            assert(names_of(a@).contains(x@)) by {
                assert(a@[k as int]@ == x@);
            }
            return true;
        }
        k = k + 1;
    }
    false
}

/// Whether the names `a` and `b` have none in common.
fn names_disjoint(a: &Vec<String>, b: &Vec<String>) -> (r: bool)
    ensures
        r == names_of(a@).disjoint(names_of(b@)),
{
    let mut k: usize = 0;
    while k < a.len()
        invariant
            k <= a@.len(),
            forall|j: int| 0 <= j < k ==> !names_of(b@).contains((#[trigger] a@[j])@),
        decreases a@.len() - k,
    {
        if has_name(b, &a[k]) {
            assert(names_of(a@).contains(a@[k as int]@));
            return false;
        }
        k = k + 1;
    }
    assert forall|s: Seq<char>| names_of(a@).contains(s) implies !names_of(b@).contains(s) by {
        let j = choose|j: int| 0 <= j < a@.len() && (#[trigger] a@[j])@ == s;
    }
    true
}

/// Whether `node` is well formed, with its free variables and binders.
fn check_node(node: &Node) -> (r: (bool, Vec<String>, Vec<String>))
    ensures
        r.0 == well_formed(*node),
        names_of(r.1@) == free_vars(*node),
        names_of(r.2@) == binders(*node),
    decreases node,
{
    proof { lemma_no_names(); }
    match node {
        Node::Variable(x) => (true, one_name(x), Vec::new()),
        Node::Action(_) => (false, Vec::new(), Vec::new()),
        Node::UnaryExpr { op } => (*op == Operator::SimpleTrue || *op == Operator::SimpleFalse, Vec::new(), Vec::new()),
        Node::BinaryExpr { op, lhs, rhs } => {
            let (lok, mut lfree, mut lb) = check_node(lhs);
            let (rok, rfree, rb) = check_node(rhs);
            let ok = if *op == Operator::Conjunction || *op == Operator::Disjunction {
                lok && rok && names_disjoint(&lb, &rfree)
            } else if *op == Operator::DiamondModality || *op == Operator::BoxModality {
                let is_action = match &**lhs {
                    Node::Action(_) => true,
                    _ => false,
                };
                is_action && rok
            } else {
                false
            };
            add_names(&mut lfree, &rfree);
            add_names(&mut lb, &rb);
            (ok, lfree, lb)
        },
        Node::FixPointExpr { op, variable, rhs, .. } => {
            let (ok, free, mut b) = check_node(rhs);
            let fine = (*op == Operator::LeastFixpoint || *op == Operator::GreatestFixpoint) && ok
                && !has_name(&b, variable) && names_disjoint(&b, &free);
            let rest = without_name(&free, variable);
            add_names(&mut b, &one_name(variable));
            proof {
                assert(names_of(b@) =~= binders(*node));
            }
            (fine, rest, b)
        },
    }
}

/// Whether `node` is a well-formed formula in which no variable is both
/// free and bound: the formulas that both evaluators accept.
pub fn check_formula(node: &Node) -> (r: bool)
    ensures
        r == (well_formed(*node) && free_vars(*node).disjoint(binders(*node))),
{
    let (ok, free, b) = check_node(node);
    ok && names_disjoint(&free, &b)
}

/// The free variables, open binders of each polarity, binders of each
/// polarity, and reset lists of a formula.
pub struct Variables {
    pub open_map: OpenMap,
    pub free: Vec<String>,
    pub open_mu: Vec<String>,
    pub open_nu: Vec<String>,
    pub mu: Vec<String>,
    pub nu: Vec<String>,
}

/// Collects the variables of `node` in one traversal.
pub fn find_variables(node: &Node) -> (r: Variables)
    requires
        well_formed(*node),
    ensures
        open_view(r.open_map@) == open_entries(*node),
        names_of(r.free@) == free_vars(*node),
        names_of(r.open_mu@) == open_binders(*node, Operator::LeastFixpoint),
        names_of(r.open_nu@) == open_binders(*node, Operator::GreatestFixpoint),
        names_of(r.mu@) == binders_of(*node, Operator::LeastFixpoint),
        names_of(r.nu@) == binders_of(*node, Operator::GreatestFixpoint),
    decreases node,
{
    let empty = Variables {
        open_map: Vec::new(), free: Vec::new(), open_mu: Vec::new(), open_nu: Vec::new(), mu: Vec::new(), nu: Vec::new(),
    };
    proof { lemma_no_names(); }
    match node {
        Node::Variable(x) => {
            let mut r = empty;
            r.free = one_name(x);
            assert(open_view(r.open_map@) =~= open_entries(*node));
            r
        },
        Node::BinaryExpr { op, lhs, rhs } => {
            if *op != Operator::Conjunction && *op != Operator::Disjunction {
                let b = find_variables(rhs);
                proof {
                    assert((**lhs) is Action);
                    assert(open_entries(**lhs) =~= Seq::<(Seq<char>, Set<Seq<char>>)>::empty());
                    assert(free_vars(**lhs) =~= Set::<Seq<char>>::empty());
                    assert(open_binders(**lhs, Operator::LeastFixpoint) =~= Set::<Seq<char>>::empty());
                    assert(open_binders(**lhs, Operator::GreatestFixpoint) =~= Set::<Seq<char>>::empty());
                    assert(binders_of(**lhs, Operator::LeastFixpoint) =~= Set::<Seq<char>>::empty());
                    assert(binders_of(**lhs, Operator::GreatestFixpoint) =~= Set::<Seq<char>>::empty());
                    assert(open_entries(*node) =~= open_entries(**rhs));
                    assert(free_vars(*node) =~= free_vars(**rhs));
                    assert(open_binders(*node, Operator::LeastFixpoint) =~= open_binders(**rhs, Operator::LeastFixpoint));
                    assert(open_binders(*node, Operator::GreatestFixpoint) =~= open_binders(**rhs, Operator::GreatestFixpoint));
                    assert(binders_of(*node, Operator::LeastFixpoint) =~= binders_of(**rhs, Operator::LeastFixpoint));
                    assert(binders_of(*node, Operator::GreatestFixpoint) =~= binders_of(**rhs, Operator::GreatestFixpoint));
                }
                return b;
            }
            let mut a = find_variables(lhs);
            let b = find_variables(rhs);
            let ghost am = a.open_map@;
            let mut bm = b.open_map;
            a.open_map.append(&mut bm);
            assert(open_view(a.open_map@) =~= open_view(am) + open_view(b.open_map@));
            add_names(&mut a.free, &b.free);
            add_names(&mut a.open_mu, &b.open_mu);
            add_names(&mut a.open_nu, &b.open_nu);
            add_names(&mut a.mu, &b.mu);
            add_names(&mut a.nu, &b.nu);
            a
        },
        Node::FixPointExpr { op, variable, rhs, .. } => {
            let b = find_variables(rhs);
            let free = without_name(&b.free, variable);
            let is_open = free.len() > 0;
            proof {
                if !is_open {
                    assert(names_of(free@) =~= Set::<Seq<char>>::empty());
                } else {
                    assert(names_of(free@).contains(free@[0]@));
                }
            }
            let mut open_mu = b.open_mu;
            let mut open_nu = b.open_nu;
            let mut mu = b.mu;
            let mut nu = b.nu;
            if *op == Operator::LeastFixpoint {
                add_names(&mut mu, &one_name(variable));
                if is_open {
                    add_names(&mut open_mu, &one_name(variable));
                }
            } else {
                add_names(&mut nu, &one_name(variable));
                if is_open {
                    add_names(&mut open_nu, &one_name(variable));
                }
            }
            let own = if *op == Operator::LeastFixpoint { copy_names(&open_mu) } else { copy_names(&open_nu) };
            let mut open_map: OpenMap = Vec::new();
            open_map.push((variable.clone(), own));
            let ghost bm = b.open_map@;
            let mut rest = b.open_map;
            open_map.append(&mut rest);
            proof {
                assert(names_of(mu@) =~= binders_of(*node, Operator::LeastFixpoint));
                assert(names_of(nu@) =~= binders_of(*node, Operator::GreatestFixpoint));
                assert(names_of(open_mu@) =~= open_binders(*node, Operator::LeastFixpoint));
                assert(names_of(open_nu@) =~= open_binders(*node, Operator::GreatestFixpoint));
                assert(open_view(open_map@) =~= seq![(variable@, open_binders(*node, *op))] + open_view(bm));
            }
            Variables { open_map, free, open_mu, open_nu, mu, nu }
        },
        _ => {
            assert(open_view(empty.open_map@) =~= open_entries(*node));
            empty
        },
    }
}

proof fn lemma_no_names()
    ensures
        names_of(Seq::<String>::empty()) == Set::<Seq<char>>::empty(),
{
    assert(names_of(Seq::<String>::empty()) =~= Set::<Seq<char>>::empty());
}

/// A copy of the names `a`.
fn copy_names(a: &Vec<String>) -> (r: Vec<String>)
    ensures
        names_of(r@) == names_of(a@),
{
    let mut r: Vec<String> = Vec::new();
    proof { lemma_no_names(); }
    add_names(&mut r, a);
    assert(names_of(r@) =~= names_of(a@));
    r
}

/// The reset lists of `node` for the Emerson-Lei evaluator, and its
/// greatest- and least-fixed-point variables.
pub fn find_open_variables(node: &Node) -> (r: (OpenMap, Vec<String>, Vec<String>))
    requires
        well_formed(*node),
    ensures
        open_view(r.0@) == open_entries(*node),
        names_of(r.1@) == binders_of(*node, Operator::GreatestFixpoint),
        names_of(r.2@) == binders_of(*node, Operator::LeastFixpoint),
{
    let v = find_variables(node);
    (v.open_map, v.nu, v.mu)
}

/// Whether the variable `x` occurs in `n`.
pub open spec fn occurs(n: Node, x: Seq<char>) -> bool
    decreases n,
{
    match n {
        Node::Variable(y) => y@ == x,
        Node::BinaryExpr { lhs, rhs, .. } => occurs(*lhs, x) || occurs(*rhs, x),
        Node::FixPointExpr { rhs, .. } => occurs(*rhs, x),
        _ => false,
    }
}

/// The greatest number of fixed points on a path from the root of `n`.
pub open spec fn nesting_depth(n: Node) -> int
    decreases n,
{
    match n {
        Node::BinaryExpr { lhs, rhs, .. } => max_of(nesting_depth(*lhs), nesting_depth(*rhs)),
        Node::FixPointExpr { rhs, .. } => nesting_depth(*rhs) + 1,
        _ => 0,
    }
}

/// As `nesting_depth`, counting only fixed points whose polarity differs
/// from that of the enclosing one (or that no other encloses).
pub open spec fn alternation_depth(n: Node) -> int
    decreases n,
{
    match n {
        Node::BinaryExpr { lhs, rhs, .. } => max_of(alternation_depth(*lhs), alternation_depth(*rhs)),
        Node::FixPointExpr { op, rhs, surrounding_binder, .. } =>
            alternation_depth(*rhs) + if op != surrounding_binder { 1int } else { 0 },
        _ => 0,
    }
}

/// As `alternation_depth`, counting only fixed points whose body uses their
/// own variable.
pub open spec fn dependent_alternation_depth(n: Node) -> int
    decreases n,
{
    match n {
        Node::BinaryExpr { lhs, rhs, .. } => max_of(dependent_alternation_depth(*lhs), dependent_alternation_depth(*rhs)),
        Node::FixPointExpr { op, variable, rhs, surrounding_binder } =>
            dependent_alternation_depth(*rhs) + if op != surrounding_binder && occurs(*rhs, variable@) { 1int } else { 0 },
        _ => 0,
    }
}

pub open spec fn max_of(a: int, b: int) -> int {
    if a >= b { a } else { b }
}

proof fn lemma_depths_bounded(n: Node)
    ensures
        0 <= dependent_alternation_depth(n) <= alternation_depth(n) <= nesting_depth(n) < node_depth(n),
    decreases n,
{
    match n {
        Node::BinaryExpr { lhs, rhs, .. } => {
            lemma_depths_bounded(*lhs);
            lemma_depths_bounded(*rhs);
        },
        Node::FixPointExpr { rhs, .. } => {
            lemma_depths_bounded(*rhs);
        },
        _ => {},
    }
}

/// Whether the variable `x` occurs in `node`.
fn find_visited_variables(node: &Node, x: &String) -> (r: bool)
    ensures
        r == occurs(*node, x@),
    decreases node,
{
    match node {
        Node::Variable(y) => *y == *x,
        Node::BinaryExpr { lhs, rhs, .. } => find_visited_variables(lhs, x) || find_visited_variables(rhs, x),
        Node::FixPointExpr { rhs, .. } => find_visited_variables(rhs, x),
        _ => false,
    }
}

/// The nesting, alternation and dependent alternation depths of `node`.
fn find_formula_depths(node: &Node) -> (r: (i64, i64, i64))
    requires
        node_depth(*node) <= i64::MAX,
    ensures
        r.0 == nesting_depth(*node),
        r.1 == alternation_depth(*node),
        r.2 == dependent_alternation_depth(*node),
    decreases node,
{
    proof { lemma_depths_bounded(*node); }
    match node {
        Node::BinaryExpr { lhs, rhs, .. } => {
            let (n1, a1, d1) = find_formula_depths(lhs);
            let (n2, a2, d2) = find_formula_depths(rhs);
            (if n1 >= n2 { n1 } else { n2 }, if a1 >= a2 { a1 } else { a2 }, if d1 >= d2 { d1 } else { d2 })
        },
        Node::FixPointExpr { op, variable, rhs, surrounding_binder } => {
            proof { lemma_depths_bounded(**rhs); }
            let (n, a, d) = find_formula_depths(rhs);
            if *surrounding_binder == *op {
                (n + 1, a, d)
            } else if find_visited_variables(rhs, variable) {
                (n + 1, a + 1, d + 1)
            } else {
                (n + 1, a + 1, d)
            }
        },
        _ => (0, 0, 0),
    }
}

/// The nesting depth, alternation depth and dependent alternation depth of
/// the formula `node`.
pub fn find_formula_statistics(node: &Node) -> (r: (i64, i64, i64))
    requires
        node_depth(*node) <= i64::MAX,
    ensures
        r.0 == nesting_depth(*node),
        r.1 == alternation_depth(*node),
        r.2 == dependent_alternation_depth(*node),
{
    find_formula_depths(node)
}

} // verus!
