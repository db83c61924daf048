use vstd::prelude::*;
use crate::progress_measure::{
    Measures, mval, lex_cmp, m_le, min2, max2, lemma_lex_antisym, tail_zeroed, carry, prog_spec, prog_at,
    best_prog, lift_value,
};
use crate::vertex::Vertex;

verus! {

/// `b` to the power `n`.
pub open spec fn power(b: int, n: nat) -> int
    decreases n,
{
    if n == 0 { 1 } else { b * power(b, (n - 1) as nat) }
}

/// Every entry of `s` lies in `0..d`.
pub open spec fn bounded(s: Seq<i64>, d: int) -> bool {
    forall|i: int| 0 <= i < s.len() ==> 0 <= #[trigger] s[i] < d
}

/// The entries of `s` at even indices are zero.
pub open spec fn even_zero(s: Seq<i64>) -> bool {
    forall|i: int| 0 <= i < s.len() && i % 2 == 0 ==> #[trigger] s[i] == 0
}

/// A measure reachable by lifting: top, or a tuple of length `d` with
/// entries in `0..d`, zero at every even index.
pub open spec fn valid_measure(m: Option<Seq<i64>>, d: int) -> bool {
    match m {
        None => true,
        Some(s) => s.len() == d && bounded(s, d) && even_zero(s),
    }
}

/// Every measure of `data` is valid.
pub open spec fn valid_data(data: Seq<Measures>, d: int) -> bool {
    forall|i: int| 0 <= i < data.len() ==> valid_measure(mval(#[trigger] data[i]), d)
}

/// The entries `0..=i` of `s` read as a number in base `d`.
pub open spec fn rank_upto(s: Seq<i64>, i: int, d: int) -> int
    decreases i + 1,
{
    if i < 0 { 0 } else { rank_upto(s, i - 1, d) * d + s[i] }
}

/// The position of a valid measure in the lexicographic order; top is `d^d`.
pub open spec fn mrank(m: Option<Seq<i64>>, d: int) -> int {
    match m {
        None => power(d, d as nat),
        Some(s) => rank_upto(s, d - 1, d),
    }
}

/// How far the first `n` measures of `data` are from top, summed.
pub open spec fn potential(data: Seq<Measures>, d: int, n: int) -> int
    decreases n,
{
    if n <= 0 { 0 } else { potential(data, d, n - 1) + (power(d, d as nat) - mrank(mval(data[n - 1]), d)) }
}

proof fn lemma_rank_bounds(s: Seq<i64>, i: int, d: int)
    requires
        d >= 1,
        -1 <= i < s.len(),
        bounded(s, d),
    ensures
        0 <= rank_upto(s, i, d) < power(d, (i + 1) as nat),
    decreases i + 1,
{
    if i < 0 {
        assert(power(d, 0) == 1);
    } else {
        lemma_rank_bounds(s, i - 1, d);
        let r = rank_upto(s, i - 1, d);
        let pw = power(d, i as nat);
        assert(rank_upto(s, i, d) == r * d + s[i]);
        assert(i - 1 + 1 == i);
        assert(power(d, (i + 1) as nat) == d * pw);
        assert(0 <= r < pw);
        assert(0 <= s[i] < d);
        assert(r * d + s[i] < d * pw) by (nonlinear_arith)
            requires 0 <= r < pw, 0 <= s[i] < d, d >= 1;
        assert(0 <= r * d + s[i]) by (nonlinear_arith)
            requires 0 <= r, 0 <= s[i], d >= 1;
    }
}

proof fn lemma_rank_lt(a: Seq<i64>, b: Seq<i64>, j: int, k: int, d: int)
    requires
        d >= 1,
        0 <= j <= k < a.len(),
        k < b.len(),
        bounded(a, d),
        bounded(b, d),
        rank_upto(a, j, d) < rank_upto(b, j, d),
    ensures
        rank_upto(a, k, d) < rank_upto(b, k, d),
    decreases k - j,
{
    if k > j {
        lemma_rank_lt(a, b, j, k - 1, d);
        let ra = rank_upto(a, k - 1, d);
        let rb = rank_upto(b, k - 1, d);
        assert(0 <= a[k] < d && 0 <= b[k] < d);
        assert(ra * d + a[k] < rb * d + b[k]) by (nonlinear_arith)
            requires ra < rb, 0 <= a[k] < d, 0 <= b[k], d >= 1;
    }
}

proof fn lemma_lex_rank(a: Seq<i64>, b: Seq<i64>, i: int, k: int, d: int)
    requires
        d >= 1,
        0 <= i,
        k < a.len(),
        k < b.len(),
        bounded(a, d),
        bounded(b, d),
        i <= k,
        rank_upto(a, i - 1, d) == rank_upto(b, i - 1, d),
        lex_cmp(a, b, i, k) < 0,
    ensures
        rank_upto(a, k, d) < rank_upto(b, k, d),
    decreases k + 1 - i,
{
    if a[i] < b[i] {
        lemma_rank_lt(a, b, i, k, d);
    } else {
        if i < k {
            lemma_lex_rank(a, b, i + 1, k, d);
        }
    }
}

/// A valid measure strictly below another has a smaller rank.
pub proof fn lemma_mrank_lt(a: Option<Seq<i64>>, b: Option<Seq<i64>>, d: int)
    requires
        d >= 1,
        valid_measure(a, d),
        valid_measure(b, d),
        !m_le(b, a, d - 1),
    ensures
        mrank(a, d) < mrank(b, d),
        0 <= mrank(a, d),
{
    match a {
        None => {},
        Some(x) => {
            lemma_rank_bounds(x, d - 1, d);
            match b {
                None => {},
                Some(y) => {
                    lemma_lex_antisym(x, y, 0, d - 1);
                    lemma_lex_rank(x, y, 0, d - 1, d);
                },
            }
        },
    }
}

/// A valid measure has a rank between zero and that of top.
pub proof fn lemma_mrank_range(a: Option<Seq<i64>>, d: int)
    requires
        d >= 1,
        valid_measure(a, d),
    ensures
        0 <= mrank(a, d) <= power(d, d as nat),
{
    lemma_power_pos(d, d as nat);
    if let Some(x) = a {
        lemma_rank_bounds(x, d - 1, d);
    }
}

proof fn lemma_power_pos(b: int, n: nat)
    requires
        b >= 1,
    ensures
        power(b, n) >= 1,
    decreases n,
{
    if n > 0 {
        lemma_power_pos(b, (n - 1) as nat);
        assert(b * power(b, (n - 1) as nat) >= 1) by (nonlinear_arith)
            requires b >= 1, power(b, (n - 1) as nat) >= 1;
    }
}

/// The potential is never negative.
pub proof fn lemma_potential_nonneg(data: Seq<Measures>, d: int, n: int)
    requires
        d >= 1,
        n <= data.len(),
        valid_data(data, d),
    ensures
        potential(data, d, n) >= 0,
    decreases n,
{
    if n > 0 {
        lemma_potential_nonneg(data, d, n - 1);
        lemma_mrank_range(mval(data[n - 1]), d);
    }
}

/// Raising one measure lowers the potential.
pub proof fn lemma_potential_update(data: Seq<Measures>, v: int, m: Measures, d: int, n: int)
    requires
        d >= 1,
        0 <= v < data.len(),
        n <= data.len(),
        valid_data(data, d),
        valid_measure(mval(m), d),
        !m_le(mval(m), mval(data[v]), d - 1),
    ensures
        v < n ==> potential(data.update(v, m), d, n) < potential(data, d, n),
        v >= n ==> potential(data.update(v, m), d, n) == potential(data, d, n),
    decreases n,
{
    if n > 0 {
        lemma_potential_update(data, v, m, d, n - 1);
        if v == n - 1 {
            lemma_mrank_lt(mval(data[v]), mval(m), d);
        }
    }
}

proof fn lemma_carry_valid(r: Seq<i64>, i: int, d: int)
    requires
        1 <= d <= i64::MAX,
        r.len() == d,
        bounded(r, d),
        even_zero(r),
        -1 <= i < r.len(),
    ensures
        valid_measure(carry(r, i, d), d),
    decreases i + 1,
{
    if i >= 0 {
        if i % 2 == 1 && r[i] < d - 1 {
            let u = r.update(i, (r[i] + 1) as i64);
            assert forall|j: int| 0 <= j < u.len() implies 0 <= #[trigger] u[j] < d by {
                if j != i {
                    assert(u[j] == r[j]);
                }
            }
            assert forall|j: int| 0 <= j < u.len() && j % 2 == 0 implies #[trigger] u[j] == 0 by {
                assert(u[j] == r[j]);
            }
        } else if i % 2 == 1 {
            let u = r.update(i, 0i64);
            assert forall|j: int| 0 <= j < u.len() implies 0 <= #[trigger] u[j] < d by {
                if j != i {
                    assert(u[j] == r[j]);
                }
            }
            assert forall|j: int| 0 <= j < u.len() && j % 2 == 0 implies #[trigger] u[j] == 0 by {
                if j != i {
                    assert(u[j] == r[j]);
                }
            }
            lemma_carry_valid(u, i - 1, d);
        } else {
            lemma_carry_valid(r, i - 1, d);
        }
    }
}

/// `Prog` of a valid measure is valid.
pub proof fn lemma_prog_valid(mw: Option<Seq<i64>>, p: int, d: int)
    requires
        1 <= d <= i64::MAX,
        0 <= p < d,
        valid_measure(mw, d),
    ensures
        valid_measure(prog_spec(mw, p, d), d),
{
    if let Some(s) = mw {
        let t = tail_zeroed(s, p + 1);
        assert(bounded(t, d));
        assert(even_zero(t));
        if p % 2 != 0 {
            lemma_carry_valid(t, p, d);
        }
    }
}

/// The best `Prog` over valid measures is valid.
pub proof fn lemma_best_prog_valid(data: Seq<Measures>, succ: Seq<i64>, p: int, d: int, even: bool, n: int)
    requires
        1 <= d <= i64::MAX,
        0 <= p < d,
        1 <= n <= succ.len(),
        valid_data(data, d),
        forall|k: int| 0 <= k < succ.len() ==> 0 <= #[trigger] succ[k] < data.len(),
    ensures
        valid_measure(best_prog(data, succ, p, d, even, n), d),
    decreases n,
{
    lemma_prog_valid(mval(data[succ[n - 1] as int]), p, d);
    if n > 1 {
        lemma_best_prog_valid(data, succ, p, d, even, n - 1);
    } else {
        lemma_prog_valid(mval(data[succ[0] as int]), p, d);
    }
}

/// `Lift_v` over valid measures gives a valid measure.
pub proof fn lemma_lift_value_valid(data: Seq<Measures>, v: int, vx: Vertex, d: int)
    requires
        1 <= d <= i64::MAX,
        0 <= v < data.len(),
        0 <= vx.priority < d,
        vx.successors@.len() >= 1,
        valid_data(data, d),
        forall|k: int| 0 <= k < vx.successors@.len() ==> 0 <= #[trigger] vx.successors@[k] < data.len(),
    ensures
        valid_measure(lift_value(data, v, vx, d), d),
{
    lemma_best_prog_valid(data, vx.successors@, vx.priority as int, d, vx.owner == 0, vx.successors@.len() as int);
}

} // verus!
