use vstd::prelude::*;
use crate::formula::{Node, Operator};
use crate::ltl::Ltl;
use crate::solver::{Env, sem, fix_iter, fix_init, update};

verus! {

/// Every variable of `env` holds a set of states of `lts`.
pub open spec fn env_in(lts: Ltl, env: Env) -> bool {
    forall|y: Seq<char>| #[trigger] env(y).subset_of(lts.states())
}

/// `e1` gives every variable a subset of what `e2` gives it.
pub open spec fn env_le(e1: Env, e2: Env) -> bool {
    forall|y: Seq<char>| #[trigger] e1(y).subset_of(e2(y))
}

/// `k` steps of `F := sem(g, env[x := F])` from `f`.
pub open spec fn iterate(lts: Ltl, x: Seq<char>, g: Node, env: Env, f: Set<i64>, k: nat) -> Set<i64>
    decreases k,
{
    if k == 0 { f } else { sem(lts, g, update(env, x, iterate(lts, x, g, env, f, (k - 1) as nat))) }
}

/// The number of states below `k` in `f`.
pub open spec fn count(f: Set<i64>, k: int) -> int
    decreases k,
{
    if k <= 0 { 0 } else { count(f, k - 1) + if f.contains((k - 1) as i64) { 1int } else { 0 } }
}

proof fn lemma_count_range(f: Set<i64>, k: int)
    ensures
        0 <= count(f, k),
        k >= 0 ==> count(f, k) <= k,
    decreases k,
{
    if k > 0 {
        lemma_count_range(f, k - 1);
    }
}

proof fn lemma_count_grows(f: Set<i64>, h: Set<i64>, k: int, s: int)
    requires
        0 <= k <= i64::MAX,
        f.subset_of(h),
        0 <= s < k,
        h.contains(s as i64),
        !f.contains(s as i64),
    ensures
        count(f, k) < count(h, k),
    decreases k,
{
    if k - 1 > s {
        lemma_count_grows(f, h, k - 1, s);
    } else {
        lemma_count_le(f, h, k - 1);
    }
}

proof fn lemma_count_le(f: Set<i64>, h: Set<i64>, k: int)
    requires
        f.subset_of(h),
    ensures
        count(f, k) <= count(h, k),
    decreases k,
{
    if k > 0 {
        lemma_count_le(f, h, k - 1);
    }
}

/// A strictly larger set of states has more states.
proof fn lemma_count_strict(lts: Ltl, f: Set<i64>, h: Set<i64>)
    requires
        lts.nr_of_states >= 0,
        f.subset_of(h),
        h.subset_of(lts.states()),
        f != h,
    ensures
        count(f, lts.nr_of_states as int) < count(h, lts.nr_of_states as int),
{
    assert(!(f =~= h));
    let s = choose|s: i64| h.contains(s) && !f.contains(s);
    assert(lts.states().contains(s));
    lemma_count_grows(f, h, lts.nr_of_states as int, s as int);
}

/// `sem` is monotone in the valuation, and gives sets of states.
pub proof fn lemma_sem_monotone(lts: Ltl, g: Node, e1: Env, e2: Env)
    requires
        lts.wf(),
        env_in(lts, e1),
        env_in(lts, e2),
        env_le(e1, e2),
    ensures
        sem(lts, g, e1).subset_of(sem(lts, g, e2)),
        sem(lts, g, e1).subset_of(lts.states()),
        sem(lts, g, e2).subset_of(lts.states()),
    decreases g, 0nat,
{
    match g {
        Node::Variable(x) => {
            assert(e1(x@).subset_of(e2(x@)));
            assert(e1(x@).subset_of(lts.states()));
            assert(e2(x@).subset_of(lts.states()));
        },
        Node::BinaryExpr { op, lhs, rhs } => {
            lemma_sem_monotone(lts, *lhs, e1, e2);
            lemma_sem_monotone(lts, *rhs, e1, e2);
            let l1 = sem(lts, *rhs, e1);
            let l2 = sem(lts, *rhs, e2);
            if let Node::Action(a) = *lhs {
                assert forall|s: i64| lts.pre_exists(a@, l1).contains(s) implies lts.pre_exists(a@, l2).contains(s) by {
                    let t = choose|t: i64| #[trigger] lts.has_edge(s, a@, t) && l1.contains(t);
                    assert(lts.has_edge(s, a@, t) && l2.contains(t));
                }
            }
        },
        Node::FixPointExpr { op, variable, rhs, .. } => {
            lemma_fix_monotone(lts, variable@, *rhs, e1, e2, op);
        },
        _ => {},
    }
}

/// The iterates from the start of a fixed point form a chain of sets of
/// states: growing from the empty set, shrinking from all states.
proof fn lemma_iterate_chain(lts: Ltl, x: Seq<char>, g: Node, env: Env, op: Operator, k: nat)
    requires
        lts.wf(),
        env_in(lts, env),
    ensures
        iterate(lts, x, g, env, fix_init(lts, op), k).subset_of(lts.states()),
        op != Operator::GreatestFixpoint ==> iterate(lts, x, g, env, fix_init(lts, op), k).subset_of(
            iterate(lts, x, g, env, fix_init(lts, op), k + 1)),
        op == Operator::GreatestFixpoint ==> iterate(lts, x, g, env, fix_init(lts, op), k + 1).subset_of(
            iterate(lts, x, g, env, fix_init(lts, op), k)),
    decreases g, k + 1,
{
    let f0 = fix_init(lts, op);
    let fk = iterate(lts, x, g, env, f0, k);
    let fk1 = iterate(lts, x, g, env, f0, k + 1);
    if k == 0 {
        lemma_update_in(lts, env, x, f0);
        lemma_sem_monotone(lts, g, update(env, x, f0), update(env, x, f0));
    } else {
        let km = (k - 1) as nat;
        lemma_iterate_chain(lts, x, g, env, op, km);
        let fkm = iterate(lts, x, g, env, f0, km);
        lemma_update_in(lts, env, x, fkm);
        lemma_sem_monotone(lts, g, update(env, x, fkm), update(env, x, fkm));
        assert(fk == sem(lts, g, update(env, x, fkm)));
        lemma_update_in(lts, env, x, fk);
        if op != Operator::GreatestFixpoint {
            lemma_update_le(env, env, x, fkm, fk);
            lemma_sem_monotone(lts, g, update(env, x, fkm), update(env, x, fk));
        } else {
            lemma_update_le(env, env, x, fk, fkm);
            lemma_sem_monotone(lts, g, update(env, x, fk), update(env, x, fkm));
        }
    }
}

proof fn lemma_update_in(lts: Ltl, env: Env, x: Seq<char>, f: Set<i64>)
    requires
        env_in(lts, env),
        f.subset_of(lts.states()),
    ensures
        env_in(lts, update(env, x, f)),
{
    assert forall|y: Seq<char>| #[trigger] update(env, x, f)(y).subset_of(lts.states()) by {
        if y != x {
            assert(env(y).subset_of(lts.states()));
        }
    }
}

proof fn lemma_update_le(e1: Env, e2: Env, x: Seq<char>, f1: Set<i64>, f2: Set<i64>)
    requires
        env_le(e1, e2),
        f1.subset_of(f2),
    ensures
        env_le(update(e1, x, f1), update(e2, x, f2)),
{
    assert forall|y: Seq<char>| #[trigger] update(e1, x, f1)(y).subset_of(update(e2, x, f2)(y)) by {
        if y != x {
            assert(e1(y).subset_of(e2(y)));
        }
    }
}

/// Once two iterates agree, all later ones do.
proof fn lemma_iterate_settled(lts: Ltl, x: Seq<char>, g: Node, env: Env, f: Set<i64>, j: nat, m: nat)
    requires
        iterate(lts, x, g, env, f, j) == iterate(lts, x, g, env, f, j + 1),
    ensures
        iterate(lts, x, g, env, f, j + m) == iterate(lts, x, g, env, f, j),
    decreases m,
{
    if m > 0 {
        lemma_iterate_settled(lts, x, g, env, f, j, (m - 1) as nat);
        assert(iterate(lts, x, g, env, f, j + m) == sem(lts, g, update(env, x, iterate(lts, x, g, env, f, (j + m - 1) as nat))));
    }
}

/// The iterates settle within `|S|` steps.
proof fn lemma_iterate_settles(lts: Ltl, x: Seq<char>, g: Node, env: Env, op: Operator)
    requires
        lts.wf(),
        env_in(lts, env),
    ensures
        exists|j: nat| j <= lts.nr_of_states && #[trigger] iterate(lts, x, g, env, fix_init(lts, op), j)
            == iterate(lts, x, g, env, fix_init(lts, op), j + 1),
    decreases g, (lts.nr_of_states + 4) as nat,
{
    let n = lts.nr_of_states as int;
    let f0 = fix_init(lts, op);
    if !exists|j: nat| j <= n && #[trigger] iterate(lts, x, g, env, f0, j) == iterate(lts, x, g, env, f0, j + 1) {
        lemma_iterate_counts(lts, x, g, env, op, (n + 1) as nat);
        lemma_count_range(iterate(lts, x, g, env, f0, (n + 1) as nat), n);
        lemma_count_range(f0, n);
    }
}

proof fn lemma_iterate_counts(lts: Ltl, x: Seq<char>, g: Node, env: Env, op: Operator, k: nat)
    requires
        lts.wf(),
        env_in(lts, env),
        k <= lts.nr_of_states + 1,
        forall|j: nat| j <= lts.nr_of_states ==> #[trigger] iterate(lts, x, g, env, fix_init(lts, op), j)
            != iterate(lts, x, g, env, fix_init(lts, op), j + 1),
    ensures
        op != Operator::GreatestFixpoint ==> count(iterate(lts, x, g, env, fix_init(lts, op), k), lts.nr_of_states as int) >= k,
        op == Operator::GreatestFixpoint ==> count(iterate(lts, x, g, env, fix_init(lts, op), k), lts.nr_of_states as int)
            <= lts.nr_of_states - k,
    decreases g, k + 2,
{
    let n = lts.nr_of_states as int;
    let f0 = fix_init(lts, op);
    if k == 0 {
        lemma_count_range(f0, n);
        if op == Operator::GreatestFixpoint {
            lemma_count_all(lts, n);
        }
    } else {
        let km = (k - 1) as nat;
        lemma_iterate_counts(lts, x, g, env, op, km);
        lemma_iterate_chain(lts, x, g, env, op, km);
        lemma_iterate_chain(lts, x, g, env, op, k);
        let a = iterate(lts, x, g, env, f0, km);
        let b = iterate(lts, x, g, env, f0, k);
        assert(a != b);
        if op != Operator::GreatestFixpoint {
            lemma_count_strict(lts, a, b);
        } else {
            lemma_count_strict(lts, b, a);
        }
    }
}

proof fn lemma_count_all(lts: Ltl, k: int)
    requires
        0 <= k <= lts.nr_of_states,
    ensures
        count(lts.states(), k) == k,
    decreases k,
{
    if k > 0 {
        lemma_count_all(lts, k - 1);
        assert(lts.states().contains((k - 1) as i64));
    }
}

/// Iterating until a repeat, with `k` steps left after `j`, ends on the
/// iterate `j + k`.
proof fn lemma_fix_iter_is_iterate(lts: Ltl, x: Seq<char>, g: Node, env: Env, op: Operator, j: nat, k: nat)
    requires
        lts.wf(),
        env_in(lts, env),
        j + k == lts.nr_of_states + 1,
    ensures
        fix_iter(lts, x, g, env, iterate(lts, x, g, env, fix_init(lts, op), j), k)
            == iterate(lts, x, g, env, fix_init(lts, op), (lts.nr_of_states + 1) as nat),
    decreases k,
{
    let f0 = fix_init(lts, op);
    let n1 = (lts.nr_of_states + 1) as nat;
    if k > 0 {
        let f = iterate(lts, x, g, env, f0, j);
        assert(iterate(lts, x, g, env, f0, j + 1) == sem(lts, g, update(env, x, f)));
        if iterate(lts, x, g, env, f0, j + 1) == f {
            lemma_iterate_settled(lts, x, g, env, f0, j, k);
        } else {
            lemma_fix_iter_is_iterate(lts, x, g, env, op, j + 1, (k - 1) as nat);
        }
    }
}

/// The value of a fixed point is a fixed point of its body: the iterate
/// `|S| + 1`, which equals the next one.
proof fn lemma_fix_value(lts: Ltl, x: Seq<char>, g: Node, env: Env, op: Operator)
    requires
        lts.wf(),
        env_in(lts, env),
    ensures
        fix_iter(lts, x, g, env, fix_init(lts, op), (lts.nr_of_states + 1) as nat)
            == iterate(lts, x, g, env, fix_init(lts, op), (lts.nr_of_states + 1) as nat),
        iterate(lts, x, g, env, fix_init(lts, op), (lts.nr_of_states + 2) as nat)
            == iterate(lts, x, g, env, fix_init(lts, op), (lts.nr_of_states + 1) as nat),
    decreases g, (lts.nr_of_states + 5) as nat,
{
    let f0 = fix_init(lts, op);
    let n = lts.nr_of_states;
    lemma_fix_iter_is_iterate(lts, x, g, env, op, 0, (n + 1) as nat);
    lemma_iterate_settles(lts, x, g, env, op);
    let j = choose|j: nat| j <= n && #[trigger] iterate(lts, x, g, env, f0, j) == iterate(lts, x, g, env, f0, j + 1);
    lemma_iterate_settled(lts, x, g, env, f0, j, (n + 1 - j) as nat);
    lemma_iterate_settled(lts, x, g, env, f0, j, (n + 2 - j) as nat);
}

proof fn lemma_iterate_env_monotone(lts: Ltl, x: Seq<char>, g: Node, e1: Env, e2: Env, op: Operator, k: nat)
    requires
        lts.wf(),
        env_in(lts, e1),
        env_in(lts, e2),
        env_le(e1, e2),
    ensures
        iterate(lts, x, g, e1, fix_init(lts, op), k).subset_of(iterate(lts, x, g, e2, fix_init(lts, op), k)),
    decreases g, k + 1,
{
    if k > 0 {
        let km = (k - 1) as nat;
        let f0 = fix_init(lts, op);
        lemma_iterate_env_monotone(lts, x, g, e1, e2, op, km);
        lemma_iterate_chain(lts, x, g, e1, op, km);
        lemma_iterate_chain(lts, x, g, e2, op, km);
        let a = iterate(lts, x, g, e1, f0, km);
        let b = iterate(lts, x, g, e2, f0, km);
        lemma_update_in(lts, e1, x, a);
        lemma_update_in(lts, e2, x, b);
        lemma_update_le(e1, e2, x, a, b);
        lemma_sem_monotone(lts, g, update(e1, x, a), update(e2, x, b));
    }
}

proof fn lemma_fix_monotone(lts: Ltl, x: Seq<char>, g: Node, e1: Env, e2: Env, op: Operator)
    requires
        lts.wf(),
        env_in(lts, e1),
        env_in(lts, e2),
        env_le(e1, e2),
    ensures
        fix_iter(lts, x, g, e1, fix_init(lts, op), (lts.nr_of_states + 1) as nat).subset_of(
            fix_iter(lts, x, g, e2, fix_init(lts, op), (lts.nr_of_states + 1) as nat)),
        fix_iter(lts, x, g, e1, fix_init(lts, op), (lts.nr_of_states + 1) as nat).subset_of(lts.states()),
        fix_iter(lts, x, g, e2, fix_init(lts, op), (lts.nr_of_states + 1) as nat).subset_of(lts.states()),
    decreases g, (lts.nr_of_states + 6) as nat,
{
    let n1 = (lts.nr_of_states + 1) as nat;
    lemma_fix_value(lts, x, g, e1, op);
    lemma_fix_value(lts, x, g, e2, op);
    lemma_iterate_env_monotone(lts, x, g, e1, e2, op, n1);
    lemma_iterate_chain(lts, x, g, e1, op, n1);
    lemma_iterate_chain(lts, x, g, e2, op, n1);
}

proof fn lemma_iterate_bounds(lts: Ltl, x: Seq<char>, g: Node, env: Env, op: Operator, z: Set<i64>, k: nat)
    requires
        lts.wf(),
        env_in(lts, env),
        z.subset_of(lts.states()),
        sem(lts, g, update(env, x, z)) == z,
    ensures
        op != Operator::GreatestFixpoint ==> iterate(lts, x, g, env, fix_init(lts, op), k).subset_of(z),
        op == Operator::GreatestFixpoint ==> z.subset_of(iterate(lts, x, g, env, fix_init(lts, op), k)),
    decreases k,
{
    if k > 0 {
        let km = (k - 1) as nat;
        let a = iterate(lts, x, g, env, fix_init(lts, op), km);
        lemma_iterate_bounds(lts, x, g, env, op, z, km);
        lemma_iterate_chain(lts, x, g, env, op, km);
        lemma_update_in(lts, env, x, a);
        lemma_update_in(lts, env, x, z);
        if op != Operator::GreatestFixpoint {
            lemma_update_le(env, env, x, a, z);
            lemma_sem_monotone(lts, g, update(env, x, a), update(env, x, z));
        } else {
            lemma_update_le(env, env, x, z, a);
            lemma_sem_monotone(lts, g, update(env, x, z), update(env, x, a));
        }
    }
}

/// The naive evaluator's value of `mu x . g` (`nu x . g`) is the least
/// (greatest) fixed point of `F -> eval(g, A[x := F])` among the sets of
/// states.
pub proof fn lemma_fixpoint_extremal(lts: Ltl, op: Operator, x: Seq<char>, g: Node, env: Env)
    requires
        lts.wf(),
        env_in(lts, env),
        op == Operator::LeastFixpoint || op == Operator::GreatestFixpoint,
    ensures
        ({
            let r = fix_iter(lts, x, g, env, fix_init(lts, op), (lts.nr_of_states + 1) as nat);
            &&& r.subset_of(lts.states())
            &&& sem(lts, g, update(env, x, r)) == r
            &&& forall|z: Set<i64>| z.subset_of(lts.states()) && #[trigger] sem(lts, g, update(env, x, z)) == z ==>
                (if op == Operator::LeastFixpoint { r.subset_of(z) } else { z.subset_of(r) })
        }),
{
    let n1 = (lts.nr_of_states + 1) as nat;
    let f0 = fix_init(lts, op);
    lemma_fix_value(lts, x, g, env, op);
    lemma_iterate_chain(lts, x, g, env, op, n1);
    let r = iterate(lts, x, g, env, f0, n1);
    assert(iterate(lts, x, g, env, f0, n1 + 1) == sem(lts, g, update(env, x, r)));
    assert forall|z: Set<i64>| z.subset_of(lts.states()) && #[trigger] sem(lts, g, update(env, x, z)) == z implies
        (if op == Operator::LeastFixpoint { r.subset_of(z) } else { z.subset_of(r) }) by {
        lemma_iterate_bounds(lts, x, g, env, op, z, n1);
    }
}

} // verus!
