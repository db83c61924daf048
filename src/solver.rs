use vstd::prelude::*;
use std::collections::HashSet;
use crate::ltl::{Ltl, bits, flags};
use crate::formula::{Formula, Node, Operator, binders, free_vars, well_formed};
use crate::analysis::{find_open_variables, lemma_binders_of_sub};

verus! {

/// A valuation of the recursion variables: each name to a set of states.
pub type Env = spec_fn(Seq<char>) -> Set<i64>;

/// The valuation that maps every variable to the empty set.
pub open spec fn empty_env() -> Env {
    |y: Seq<char>| Set::<i64>::empty()
}

/// `env` with `x` mapped to `f`.
pub open spec fn update(env: Env, x: Seq<char>, f: Set<i64>) -> Env {
    |y: Seq<char>| if y == x { f } else { env(y) }
}

/// Where the iteration of a fixed point starts: all states for `nu`, none for `mu`.
pub open spec fn fix_init(lts: Ltl, op: Operator) -> Set<i64> {
    if op == Operator::GreatestFixpoint { lts.states() } else { Set::empty() }
}

/// The set of states of `lts` that satisfy `g` under `env`. A fixed point is
/// iterated from its start until it repeats, at most `|S| + 1` times.
pub open spec fn sem(lts: Ltl, g: Node, env: Env) -> Set<i64>
    decreases g, 0nat,
{
    match g {
        Node::Variable(x) => env(x@),
        Node::Action(_) => Set::empty(),
        Node::UnaryExpr { op } => if op == Operator::SimpleTrue { lts.states() } else { Set::empty() },
        Node::BinaryExpr { op, lhs, rhs } => {
            if op == Operator::Conjunction {
                sem(lts, *lhs, env).intersect(sem(lts, *rhs, env))
            } else if op == Operator::Disjunction {
                sem(lts, *lhs, env).union(sem(lts, *rhs, env))
            } else {
                match *lhs {
                    Node::Action(a) => if op == Operator::DiamondModality {
                        lts.pre_exists(a@, sem(lts, *rhs, env))
                    } else {
                        lts.pre_forall(a@, sem(lts, *rhs, env))
                    },
                    _ => Set::empty(),
                }
            }
        },
        Node::FixPointExpr { op, variable, rhs, .. } =>
            fix_iter(lts, variable@, *rhs, env, fix_init(lts, op), (lts.nr_of_states + 1) as nat),
    }
}

/// Iterates `F := sem(g, env[x := F])` from `f` at most `k` times, stopping
/// as soon as `F` repeats.
pub open spec fn fix_iter(lts: Ltl, x: Seq<char>, g: Node, env: Env, f: Set<i64>, k: nat) -> Set<i64>
    decreases g, k + 1,
{
    if k == 0 {
        f
    } else {
        let f2 = sem(lts, g, update(env, x, f));
        if f2 == f { f } else { fix_iter(lts, x, g, env, f2, (k - 1) as nat) }
    }
}

/// The number of fixed-point iterations that evaluating `g` under `env`
/// takes: each evaluation of the body of a fixed point counts once.
pub open spec fn sem_iters(lts: Ltl, g: Node, env: Env) -> nat
    decreases g, 0nat,
{
    match g {
        Node::BinaryExpr { op, lhs, rhs } => {
            if op == Operator::Conjunction || op == Operator::Disjunction {
                sem_iters(lts, *lhs, env) + sem_iters(lts, *rhs, env)
            } else {
                match *lhs {
                    Node::Action(_) => sem_iters(lts, *rhs, env),
                    _ => 0,
                }
            }
        },
        Node::FixPointExpr { op, variable, rhs, .. } =>
            fix_iters(lts, variable@, *rhs, env, fix_init(lts, op), (lts.nr_of_states + 1) as nat),
        _ => 0,
    }
}

/// The iterations of `fix_iter` from `f` with at most `k` steps.
pub open spec fn fix_iters(lts: Ltl, x: Seq<char>, g: Node, env: Env, f: Set<i64>, k: nat) -> nat
    decreases g, k + 1,
{
    if k == 0 {
        0
    } else {
        let e = update(env, x, f);
        let f2 = sem(lts, g, e);
        1 + sem_iters(lts, g, e) + if f2 == f { 0 } else { fix_iters(lts, x, g, env, f2, (k - 1) as nat) }
    }
}

/// `a`, capped at the largest `i64`.
pub open spec fn saturated(a: int) -> int {
    if a > i64::MAX { i64::MAX as int } else { a }
}

/// `sem` depends only on the free variables of the formula.
pub proof fn lemma_sem_agree(lts: Ltl, g: Node, e1: Env, e2: Env)
    requires
        forall|y: Seq<char>| free_vars(g).contains(y) ==> e1(y) == e2(y),
    ensures
        sem(lts, g, e1) == sem(lts, g, e2),
        sem_iters(lts, g, e1) == sem_iters(lts, g, e2),
    decreases g, 0nat,
{
    match g {
        Node::BinaryExpr { op, lhs, rhs } => {
            assert(free_vars(g) == free_vars(*lhs).union(free_vars(*rhs)));
            assert forall|y: Seq<char>| free_vars(*lhs).contains(y) implies e1(y) == e2(y) by {
                assert(free_vars(g).contains(y));
            }
            assert forall|y: Seq<char>| free_vars(*rhs).contains(y) implies e1(y) == e2(y) by {
                assert(free_vars(g).contains(y));
            }
            lemma_sem_agree(lts, *lhs, e1, e2);
            lemma_sem_agree(lts, *rhs, e1, e2);
        },
        Node::FixPointExpr { op, variable, rhs, .. } => {
            assert(free_vars(g) == free_vars(*rhs).remove(variable@));
            assert forall|y: Seq<char>| free_vars(*rhs).contains(y) && y != variable@ implies e1(y) == e2(y) by {
                assert(free_vars(g).contains(y));
            }
            lemma_fix_agree(lts, variable@, *rhs, e1, e2, fix_init(lts, op), (lts.nr_of_states + 1) as nat);
        },
        Node::Variable(x) => {
            assert(free_vars(g).contains(x@));
        },
        _ => {},
    }
}

proof fn lemma_fix_agree(lts: Ltl, x: Seq<char>, g: Node, e1: Env, e2: Env, f: Set<i64>, k: nat)
    requires
        forall|y: Seq<char>| free_vars(g).contains(y) && y != x ==> e1(y) == e2(y),
    ensures
        fix_iter(lts, x, g, e1, f, k) == fix_iter(lts, x, g, e2, f, k),
        fix_iters(lts, x, g, e1, f, k) == fix_iters(lts, x, g, e2, f, k),
    decreases g, k + 1,
{
    if k > 0 {
        lemma_sem_agree(lts, g, update(e1, x, f), update(e2, x, f));
        let f2 = sem(lts, g, update(e1, x, f));
        if f2 != f {
            lemma_fix_agree(lts, x, g, e1, e2, f2, (k - 1) as nat);
        }
    }
}

/// `nu X . X` holds in every state and `mu X . X` in none.
pub proof fn lemma_trivial_fixpoints(lts: Ltl, x: String, sb: Operator, env: Env)
    requires
        lts.wf(),
    ensures
        sem(lts, Node::FixPointExpr {
            op: Operator::GreatestFixpoint, variable: x, rhs: Box::new(Node::Variable(x)), surrounding_binder: sb,
        }, env) == lts.states(),
        sem(lts, Node::FixPointExpr {
            op: Operator::LeastFixpoint, variable: x, rhs: Box::new(Node::Variable(x)), surrounding_binder: sb,
        }, env) == Set::<i64>::empty(),
{
    let k = (lts.nr_of_states + 1) as nat;
    assert(sem(lts, Node::Variable(x), update(env, x@, lts.states())) == lts.states());
    assert(sem(lts, Node::Variable(x), update(env, x@, Set::<i64>::empty())) == Set::<i64>::empty());
    assert(fix_iter(lts, x@, Node::Variable(x), env, lts.states(), k) == lts.states());
    assert(fix_iter(lts, x@, Node::Variable(x), env, Set::<i64>::empty(), k) == Set::<i64>::empty());
}

/// On a system with the single state 0 and no transitions, `nu X . [a] X`
/// holds exactly in state 0 and `mu X . <a> X` nowhere.
pub proof fn lemma_one_state(lts: Ltl, x: String, a: String, sb: Operator, env: Env)
    requires
        lts.wf(),
        lts.nr_of_states == 1,
        forall|s: i64, b: Seq<char>, t: i64| !#[trigger] lts.has_edge(s, b, t),
    ensures
        sem(lts, Node::FixPointExpr {
            op: Operator::GreatestFixpoint,
            variable: x,
            rhs: Box::new(Node::BinaryExpr { op: Operator::BoxModality, lhs: Box::new(Node::Action(a)), rhs: Box::new(Node::Variable(x)) }),
            surrounding_binder: sb,
        }, env) == set![0i64],
        sem(lts, Node::FixPointExpr {
            op: Operator::LeastFixpoint,
            variable: x,
            rhs: Box::new(Node::BinaryExpr { op: Operator::DiamondModality, lhs: Box::new(Node::Action(a)), rhs: Box::new(Node::Variable(x)) }),
            surrounding_binder: sb,
        }, env) == Set::<i64>::empty(),
{
    let k = (lts.nr_of_states + 1) as nat;
    let boxed = Node::BinaryExpr { op: Operator::BoxModality, lhs: Box::new(Node::Action(a)), rhs: Box::new(Node::Variable(x)) };
    let dia = Node::BinaryExpr { op: Operator::DiamondModality, lhs: Box::new(Node::Action(a)), rhs: Box::new(Node::Variable(x)) };
    assert(lts.states() =~= set![0i64]);
    assert(lts.pre_forall(a@, lts.states()) =~= lts.states());
    assert(sem(lts, boxed, update(env, x@, lts.states())) == lts.states());
    assert(fix_iter(lts, x@, boxed, env, lts.states(), k) == lts.states());
    assert(lts.pre_exists(a@, Set::<i64>::empty()) =~= Set::<i64>::empty());
    assert(sem(lts, dia, update(env, x@, Set::<i64>::empty())) == Set::<i64>::empty());
    assert(fix_iter(lts, x@, dia, env, Set::<i64>::empty(), k) == Set::<i64>::empty());
}

/// The values of the recursion variables during an evaluation, each name once.
pub struct Valuation {
    entries: Vec<(String, Vec<bool>)>,
}

impl Valuation {
    /// Names are distinct and every set has `n` flags.
    pub closed spec fn wf(&self, n: int) -> bool {
        &&& forall|i: int, j: int| 0 <= i < j < self.entries@.len()
            ==> (#[trigger] self.entries@[i]).0@ != (#[trigger] self.entries@[j]).0@
        &&& forall|i: int| 0 <= i < self.entries@.len() ==> (#[trigger] self.entries@[i]).1@.len() == n
    }

    /// The set that `y` has; empty where `y` has none.
    pub closed spec fn val(&self, y: Seq<char>) -> Set<i64> {
        if exists|k: int| 0 <= k < self.entries@.len() && (#[trigger] self.entries@[k]).0@ == y {
            bits(self.entries@[choose|k: int| 0 <= k < self.entries@.len() && (#[trigger] self.entries@[k]).0@ == y].1@)
        } else {
            Set::empty()
        }
    }

    /// The valuation as a function.
    pub open spec fn env(&self) -> Env {
        |y: Seq<char>| self.val(y)
    }

    pub fn new() -> (r: Self)
        ensures
            forall|n: int| r.wf(n),
            forall|y: Seq<char>| r.val(y) == Set::<i64>::empty(),
    {
        Valuation { entries: Vec::new() }
    }

    fn find(&self, x: &String) -> (r: Option<usize>)
        ensures
            r.is_some() ==> r.unwrap() < self.entries@.len() && self.entries@[r.unwrap() as int].0@ == x@,
            r.is_none() ==> forall|k: int| 0 <= k < self.entries@.len() ==> (#[trigger] self.entries@[k]).0@ != x@,
    {
        let mut k: usize = 0;
        while k < self.entries.len()
            invariant
                k <= self.entries@.len(),
                forall|j: int| 0 <= j < k ==> (#[trigger] self.entries@[j]).0@ != x@,
            decreases self.entries@.len() - k,
        {
            if self.entries[k].0 == *x {
                return Some(k);
            }
            k = k + 1;
        }
        None
    }

    /// A copy of the set of `x`, as `n` flags.
    pub fn lookup(&self, x: &String, n: usize) -> (r: Vec<bool>)
        requires
            self.wf(n as int),
        ensures
            r@.len() == n,
            bits(r@) == self.val(x@),
    {
        match self.find(x) {
            Some(k) => {
                proof {
                    let c = choose|c: int| 0 <= c < self.entries@.len() && (#[trigger] self.entries@[c]).0@ == x@;
                    if c != k as int {
                        assert(self.entries@[c].0@ != self.entries@[k as int].0@);
                    }
                }
                copy_flags(&self.entries[k].1)
            },
            None => no_flags(n),
        }
    }

    /// Gives `x` the set `f`.
    pub fn set(&mut self, x: &String, f: Vec<bool>, n: usize)
        requires
            old(self).wf(n as int),
            f@.len() == n,
        ensures
            final(self).wf(n as int),
            forall|y: Seq<char>| #[trigger] final(self).val(y) == if y == x@ { bits(f@) } else { old(self).val(y) },
    {
        let ghost fb = bits(f@);
        match self.find(x) {
            Some(k) => {
                let name = self.entries[k].0.clone();
                self.entries.set(k, (name, f));
                proof {
                    assert(self.entries@[k as int].0@ == x@);
                    assert forall|y: Seq<char>| #[trigger] self.val(y) == if y == x@ { fb } else { old(self).val(y) } by {
                        if y == x@ {
                            let c = choose|c: int| 0 <= c < self.entries@.len() && (#[trigger] self.entries@[c]).0@ == y;
                            if c != k as int {
                                assert(old(self).entries@[c].0@ != old(self).entries@[k as int].0@);
                            }
                        } else {
                            assert forall|j: int| 0 <= j < self.entries@.len() && j != k implies
                                #[trigger] self.entries@[j] == old(self).entries@[j] by {}
                            if exists|c: int| 0 <= c < old(self).entries@.len() && (#[trigger] old(self).entries@[c]).0@ == y {
                                let c = choose|c: int| 0 <= c < old(self).entries@.len() && (#[trigger] old(self).entries@[c]).0@ == y;
                                assert(self.entries@[c].0@ == y);
                            }
                            if exists|c: int| 0 <= c < self.entries@.len() && (#[trigger] self.entries@[c]).0@ == y {
                                let c = choose|c: int| 0 <= c < self.entries@.len() && (#[trigger] self.entries@[c]).0@ == y;
                                assert(old(self).entries@[c].0@ == y);
                            }
                        }
                    }
                }
            },
            None => {
                let name = x.clone();
                self.entries.push((name, f));
                proof {
                    let last = self.entries@.len() - 1;
                    assert forall|y: Seq<char>| #[trigger] self.val(y) == if y == x@ { fb } else { old(self).val(y) } by {
                        if y == x@ {
                            assert(self.entries@[last].0@ == y);
                            let c = choose|c: int| 0 <= c < self.entries@.len() && (#[trigger] self.entries@[c]).0@ == y;
                            if c != last {
                                assert(old(self).entries@[c].0@ != x@);
                            }
                        } else {
                            if exists|c: int| 0 <= c < old(self).entries@.len() && (#[trigger] old(self).entries@[c]).0@ == y {
                                let c = choose|c: int| 0 <= c < old(self).entries@.len() && (#[trigger] old(self).entries@[c]).0@ == y;
                                assert(self.entries@[c] == old(self).entries@[c]);
                            }
                            if exists|c: int| 0 <= c < self.entries@.len() && (#[trigger] self.entries@[c]).0@ == y {
                                let c = choose|c: int| 0 <= c < self.entries@.len() && (#[trigger] self.entries@[c]).0@ == y;
                                assert(self.entries@[c] == old(self).entries@[c]);
                            }
                        }
                    }
                }
            },
        }
    }
}

/// `n` flags, none set.
fn no_flags(n: usize) -> (r: Vec<bool>)
    ensures
        r@.len() == n,
        bits(r@) == Set::<i64>::empty(),
{
    let r = flags(n, false);
    assert(bits(r@) =~= Set::<i64>::empty());
    r
}

/// A copy of `v`.
fn copy_flags(v: &Vec<bool>) -> (r: Vec<bool>)
    ensures
        r@ == v@,
{
    let mut r: Vec<bool> = Vec::new();
    let mut i: usize = 0;
    while i < v.len()
        invariant
            i <= v@.len(),
            r@ == v@.subrange(0, i as int),
        decreases v@.len() - i,
    {
        r.push(v[i]);
        i = i + 1;
        assert(r@ =~= v@.subrange(0, i as int));
    }
    assert(v@.subrange(0, v@.len() as int) =~= v@);
    r
}

/// Whether `a` and `b` hold the same states.
fn same_flags(a: &Vec<bool>, b: &Vec<bool>) -> (r: bool)
    requires
        a@.len() == b@.len(),
        a@.len() <= i64::MAX,
    ensures
        r == (bits(a@) == bits(b@)),
{
    let mut i: usize = 0;
    while i < a.len()
        invariant
            i <= a@.len(),
            a@.len() == b@.len(),
            a@.len() <= i64::MAX,
            forall|j: int| 0 <= j < i ==> a@[j] == b@[j],
        decreases a@.len() - i,
    {
        if a[i] != b[i] {
            assert(bits(a@).contains(i as i64) != bits(b@).contains(i as i64));
            return false;
        }
        i = i + 1;
    }
    assert(bits(a@) =~= bits(b@));
    true
}

/// The states in both `a` and `b` (`both`), or in either.
fn combine_flags(a: &Vec<bool>, b: &Vec<bool>, both: bool) -> (r: Vec<bool>)
    requires
        a@.len() == b@.len(),
    ensures
        r@.len() == a@.len(),
        both ==> bits(r@) == bits(a@).intersect(bits(b@)),
        !both ==> bits(r@) == bits(a@).union(bits(b@)),
{
    let mut r: Vec<bool> = Vec::new();
    let mut i: usize = 0;
    while i < a.len()
        invariant
            i <= a@.len(),
            a@.len() == b@.len(),
            r@.len() == i,
            forall|j: int| 0 <= j < i ==> #[trigger] r@[j] == if both { a@[j] && b@[j] } else { a@[j] || b@[j] },
        decreases a@.len() - i,
    {
        r.push(if both { a[i] && b[i] } else { a[i] || b[i] });
        i = i + 1;
    }
    if both {
        assert(bits(r@) =~= bits(a@).intersect(bits(b@)));
    } else {
        assert(bits(r@) =~= bits(a@).union(bits(b@)));
    }
    r
}

/// Adds one to the iteration count, saturating.
fn count_iteration(iterations: &mut i64)
    ensures
        *final(iterations) == if *old(iterations) < i64::MAX { *old(iterations) + 1 } else { *old(iterations) as int },
{
    if *iterations < i64::MAX {
        *iterations = *iterations + 1;
    }
}

/// The states that satisfy `node`. Every fixed point starts its iteration
/// afresh; with `open` (Emerson-Lei), a fixed point whose polarity differs from
/// the enclosing one first also resets the variables that `open` lists for it.
pub fn eval(node: &Node, instance: &Ltl, variable_map: &mut Valuation, open: Option<&OpenMap>, iterations: &mut i64) -> (r: Vec<bool>)
    requires
        instance.wf(),
        well_formed(*node),
        old(variable_map).wf(instance.nr_of_states as int),
        *old(iterations) >= 0,
    ensures
        final(variable_map).wf(instance.nr_of_states as int),
        r@.len() == instance.nr_of_states,
        bits(r@) == sem(*instance, *node, old(variable_map).env()),
        forall|y: Seq<char>| !binders(*node).contains(y) ==> #[trigger] final(variable_map).val(y) == old(variable_map).val(y),
        *final(iterations) == saturated(*old(iterations) + sem_iters(*instance, *node, old(variable_map).env())),
        match *node {
            Node::FixPointExpr { variable, .. } => final(variable_map).val(variable@) == bits(r@),
            _ => true,
        },
    decreases node,
{
    let n = instance.transitions.len();
    match node {
        Node::Variable(x) => variable_map.lookup(x, n),
        Node::Action(_) => no_flags(n),
        Node::UnaryExpr { op } => {
            if *op == Operator::SimpleTrue {
                instance.all_flags()
            } else {
                no_flags(n)
            }
        },
        Node::BinaryExpr { op, lhs, rhs } => {
            if *op == Operator::Conjunction || *op == Operator::Disjunction {
                let ghost e0 = variable_map.env();
                let l = eval(lhs, instance, variable_map, open, iterations);
                let ghost e1 = variable_map.env();
                let r = eval(rhs, instance, variable_map, open, iterations);
                proof { lemma_sem_agree(*instance, **rhs, e1, e0); }
                combine_flags(&l, &r, *op == Operator::Conjunction)
            } else {
                match &**lhs {
                    Node::Action(a) => {
                        let r = eval(rhs, instance, variable_map, open, iterations);
                        instance.pre_image(a, &r, *op == Operator::DiamondModality)
                    },
                    _ => no_flags(n),
                }
            }
        },
        Node::FixPointExpr { op, variable, rhs, surrounding_binder } => {
            let ghost e0 = variable_map.env();
            let ghost x = variable@;
            let init = if *op == Operator::GreatestFixpoint { instance.all_flags() } else { no_flags(n) };
            if let Some(m) = open {
                if *op != *surrounding_binder {
                    reset_open(m, variable, rhs, &init, variable_map, n);
                }
            }
            variable_map.set(variable, copy_flags(&init), n);
            let mut cur = init;
            let mut fuel: u64 = n as u64 + 1;
            loop
                invariant_except_break
                    saturated(*iterations + fix_iters(*instance, x, **rhs, e0, bits(cur@), fuel as nat))
                        == saturated(*old(iterations) + sem_iters(*instance, *node, e0)),
                invariant
                    instance.wf(),
                    n == instance.nr_of_states,
                    *node == (Node::FixPointExpr { op: *op, variable: *variable, rhs: *rhs, surrounding_binder: *surrounding_binder }),
                    *iterations >= 0,
                    well_formed(**rhs),
                    !binders(**rhs).contains(x),
                    binders(**rhs).disjoint(free_vars(**rhs)),
                    variable@ == x,
                    variable_map.wf(n as int),
                    cur@.len() == n,
                    variable_map.val(x) == bits(cur@),
                    forall|y: Seq<char>| !binders(**rhs).contains(y) && y != x ==> #[trigger] variable_map.val(y) == e0(y),
                    fix_iter(*instance, x, **rhs, e0, bits(cur@), fuel as nat)
                        == sem(*instance, *node, e0),
                ensures
                    variable_map.wf(n as int),
                    cur@.len() == n,
                    *iterations == saturated(*old(iterations) + sem_iters(*instance, *node, e0)),
                    variable_map.val(x) == bits(cur@),
                    forall|y: Seq<char>| !binders(**rhs).contains(y) && y != x ==> #[trigger] variable_map.val(y) == e0(y),
                    bits(cur@) == sem(*instance, *node, e0),
                decreases fuel,
            {
                if fuel == 0 {
                    break;
                }
                let ghost ev = variable_map.env();
                let r = eval(rhs, instance, variable_map, open, iterations);
                proof {
                    assert forall|y: Seq<char>| free_vars(**rhs).contains(y) implies ev(y) == update(e0, x, bits(cur@))(y) by {
                        assert(!binders(**rhs).contains(y));
                    }
                    lemma_sem_agree(*instance, **rhs, ev, update(e0, x, bits(cur@)));
                }
                count_iteration(iterations);
                if same_flags(&r, &cur) {
                    break;
                }
                variable_map.set(variable, copy_flags(&r), n);
                cur = r;
                fuel = fuel - 1;
            }
            cur
        },
    }
}

/// The states of `instance` that satisfy `f`, evaluated naively, and the
/// number of fixed-point iterations (saturating).
pub fn execute(f: Formula, instance: Ltl) -> (r: (HashSet<i64>, i64))
    requires
        instance.wf(),
        well_formed(f.root_node),
    ensures
        r.0@ == sem(instance, f.root_node, empty_env()),
        r.1 == saturated(sem_iters(instance, f.root_node, empty_env()) as int),
{
    let mut variable_map = Valuation::new();
    let ghost e0 = variable_map.env();
    let mut iterations: i64 = 0;
    let v = eval(&f.root_node, &instance, &mut variable_map, None, &mut iterations);
    proof { lemma_sem_agree(instance, f.root_node, e0, empty_env()); }
    (instance.set_of(&v), iterations)
}

/// The states of `instance` that satisfy `f`, evaluated with the Emerson-Lei
/// resets, and the number of fixed-point iterations (saturating). The result
/// is the one of `execute`.
pub fn execute_improved(f: Formula, instance: Ltl) -> (r: (HashSet<i64>, i64))
    requires
        instance.wf(),
        well_formed(f.root_node),
        free_vars(f.root_node).disjoint(binders(f.root_node)),
    ensures
        r.0@ == sem(instance, f.root_node, empty_env()),
        r.1 == saturated(sem_iters(instance, f.root_node, empty_env()) as int),
{
    let (variables_open_map, variables_nu, variables_mu) = find_open_variables(&f.root_node);
    let mut variables_map = Valuation::new();
    let ghost e0 = variables_map.env();
    initialize_variable_map(&instance, &mut variables_map, &variables_nu, &variables_mu);
    let ghost e1 = variables_map.env();
    let mut iterations: i64 = 0;
    let v = eval(&f.root_node, &instance, &mut variables_map, Some(&variables_open_map), &mut iterations);
    proof {
        lemma_binders_of_sub(f.root_node, Operator::GreatestFixpoint);
        lemma_binders_of_sub(f.root_node, Operator::LeastFixpoint);
        assert forall|y: Seq<char>| free_vars(f.root_node).contains(y) implies e1(y) == empty_env()(y) by {
            assert(!binders(f.root_node).contains(y));
        }
        lemma_sem_agree(instance, f.root_node, e1, empty_env());
    }
    (instance.set_of(&v), iterations)
}

/// For each fixed-point variable, the variables to reset on entering it.
pub type OpenMap = Vec<(String, Vec<String>)>;

/// Resets to `init` each variable that `open` lists for `x`, where it is `x`
/// or bound in the body `g`.
fn reset_open(open: &OpenMap, x: &String, g: &Node, init: &Vec<bool>, variable_map: &mut Valuation, n: usize)
    requires
        old(variable_map).wf(n as int),
        init@.len() == n,
    ensures
        final(variable_map).wf(n as int),
        forall|y: Seq<char>| !binders(*g).contains(y) && y != x@ ==> #[trigger] final(variable_map).val(y) == old(variable_map).val(y),
{
    let mut k: usize = 0;
    while k < open.len()
        invariant
            k <= open@.len(),
            init@.len() == n,
            variable_map.wf(n as int),
            forall|y: Seq<char>| !binders(*g).contains(y) && y != x@ ==> #[trigger] variable_map.val(y) == old(variable_map).val(y),
        decreases open@.len() - k,
    {
        if open[k].0 == *x {
            let names = &open[k].1;
            let mut j: usize = 0;
            while j < names.len()
                invariant
                    j <= names@.len(),
                    init@.len() == n,
                    variable_map.wf(n as int),
                    forall|y: Seq<char>| !binders(*g).contains(y) && y != x@ ==> #[trigger] variable_map.val(y) == old(variable_map).val(y),
                decreases names@.len() - j,
            {
                let y = &names[j];
                if *y == *x || binds(g, y) {
                    variable_map.set(y, copy_flags(init), n);
                }
                j = j + 1;
            }
        }
        k = k + 1;
    }
}

/// Whether a fixed point in `node` binds `name`.
fn binds(node: &Node, name: &String) -> (r: bool)
    ensures
        r == binders(*node).contains(name@),
    decreases node,
{
    match node {
        Node::BinaryExpr { lhs, rhs, .. } => binds(lhs, name) || binds(rhs, name),
        Node::FixPointExpr { variable, rhs, .. } => *variable == *name || binds(rhs, name),
        _ => false,
    }
}

/// Gives each variable of `variables_nu` all states and each of
/// `variables_mu` none.
fn initialize_variable_map(instance: &Ltl, variable_map: &mut Valuation, variables_nu: &Vec<String>, variables_mu: &Vec<String>)
    requires
        instance.wf(),
        old(variable_map).wf(instance.nr_of_states as int),
    ensures
        final(variable_map).wf(instance.nr_of_states as int),
        forall|y: Seq<char>| !names_of(variables_nu@).contains(y) && !names_of(variables_mu@).contains(y)
            ==> #[trigger] final(variable_map).val(y) == old(variable_map).val(y),
{
    let n = instance.transitions.len();
    let mut k: usize = 0;
    while k < variables_nu.len()
        invariant
            k <= variables_nu@.len(),
            n == instance.nr_of_states,
            instance.wf(),
            variable_map.wf(n as int),
            forall|y: Seq<char>| !names_of(variables_nu@).contains(y) && !names_of(variables_mu@).contains(y)
                ==> #[trigger] variable_map.val(y) == old(variable_map).val(y),
        decreases variables_nu@.len() - k,
    {
        proof { assert(names_of(variables_nu@).contains(variables_nu@[k as int]@)); }
        variable_map.set(&variables_nu[k], instance.all_flags(), n);
        k = k + 1;
    }
    let mut k: usize = 0;
    while k < variables_mu.len()
        invariant
            k <= variables_mu@.len(),
            n == instance.nr_of_states,
            variable_map.wf(n as int),
            forall|y: Seq<char>| !names_of(variables_nu@).contains(y) && !names_of(variables_mu@).contains(y)
                ==> #[trigger] variable_map.val(y) == old(variable_map).val(y),
        decreases variables_mu@.len() - k,
    {
        proof { assert(names_of(variables_mu@).contains(variables_mu@[k as int]@)); }
        variable_map.set(&variables_mu[k], no_flags(n), n);
        k = k + 1;
    }
}

/// The names in `v`.
pub open spec fn names_of(v: Seq<String>) -> Set<Seq<char>> {
    Set::new(|s: Seq<char>| exists|k: int| 0 <= k < v.len() && (#[trigger] v[k])@ == s)
}


} // verus!
