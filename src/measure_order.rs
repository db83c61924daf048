use vstd::prelude::*;
use crate::progress_measure::{
    Measures, mval, lex_cmp, m_le, min2, max2, carry, prog_spec, prog_at, tail_zeroed, best_prog, lift_value,
    lemma_lex_refl, lemma_lex_antisym, lemma_lex_trans, lemma_m_le_total, lemma_m_le_trans,
};
use crate::potential::{bounded, valid_data, valid_measure};
use crate::vertex::Vertex;

verus! {

/// A tuple of a progress measure: length `d`, entries in `0..d`, zero at
/// every even index.
pub open spec fn tuple_ok(s: Seq<i64>, d: int) -> bool {
    &&& s.len() == d
    &&& bounded(s, d)
    &&& forall|j: int| 0 <= j < d && j % 2 == 0 ==> #[trigger] s[j] == 0
}

/// A measure is top or a well-formed tuple.
pub open spec fn measure_ok(m: Option<Seq<i64>>, d: int) -> bool {
    match m {
        None => true,
        Some(s) => tuple_ok(s, d),
    }
}

/// `lex_cmp` reads only the entries in `i..=k`.
proof fn lemma_lex_same_entries(a: Seq<i64>, b: Seq<i64>, a2: Seq<i64>, b2: Seq<i64>, i: int, k: int)
    requires
        forall|j: int| i <= j <= k ==> a[j] == a2[j] && b[j] == b2[j],
    ensures
        lex_cmp(a, b, i, k) == lex_cmp(a2, b2, i, k),
    decreases k + 1 - i,
{
    if i <= k {
        lemma_lex_same_entries(a, b, a2, b2, i + 1, k);
    }
}

/// `lex_cmp` on `lo..=i` decided by `lo..=i-1`, else by index `i`.
proof fn lemma_lex_last(a: Seq<i64>, b: Seq<i64>, lo: int, i: int)
    requires
        lo <= i,
    ensures
        lex_cmp(a, b, lo, i) == (if lex_cmp(a, b, lo, i - 1) != 0 {
            lex_cmp(a, b, lo, i - 1)
        } else if a[i] < b[i] {
            -1
        } else if a[i] > b[i] {
            1
        } else {
            0
        }),
    decreases i - lo,
{
    if lo < i {
        lemma_lex_last(a, b, lo + 1, i);
    } else {
        assert(lex_cmp(a, b, i + 1, i) == 0);
    }
}

proof fn lemma_tuple_update(s: Seq<i64>, i: int, v: i64, d: int)
    requires
        tuple_ok(s, d),
        0 <= i < d,
        0 <= v < d,
        i % 2 == 1 || v == 0,
    ensures
        tuple_ok(s.update(i, v), d),
{
    let t = s.update(i, v);
    assert forall|j: int| 0 <= j < t.len() implies 0 <= #[trigger] t[j] < d by {
        if j != i {
            assert(t[j] == s[j]);
        }
    }
    assert forall|j: int| 0 <= j < d && j % 2 == 0 implies #[trigger] t[j] == 0 by {
        if j != i {
            assert(t[j] == s[j]);
        }
    }
}

/// The increment is larger than the tuple on `0..=i`.
proof fn lemma_carry_above(r: Seq<i64>, i: int, d: int)
    requires
        1 <= d <= i64::MAX,
        tuple_ok(r, d),
        -1 <= i < d,
    ensures
        carry(r, i, d) is Some ==> lex_cmp(r, carry(r, i, d).unwrap(), 0, i) < 0,
        carry(r, i, d) is Some ==> tuple_ok(carry(r, i, d).unwrap(), d),
        carry(r, i, d) is Some ==> forall|j: int| i < j < d ==> #[trigger] carry(r, i, d).unwrap()[j] == r[j],
    decreases i + 1,
{
    if i >= 0 {
        if i % 2 == 1 && r[i] < d - 1 {
            let c = r.update(i, (r[i] + 1) as i64);
            lemma_tuple_update(r, i, (r[i] + 1) as i64, d);
            lemma_lex_same_entries(r, c, r, r, 0, i - 1);
            lemma_lex_refl(r, 0, i - 1);
            lemma_lex_last(r, c, 0, i);
        } else if i % 2 == 1 {
            let r2 = r.update(i, 0i64);
            lemma_tuple_update(r, i, 0i64, d);
            lemma_carry_above(r2, i - 1, d);
            if carry(r, i, d) is Some {
                let c = carry(r, i, d).unwrap();
                lemma_lex_same_entries(r2, c, r, c, 0, i - 1);
                lemma_lex_last(r, c, 0, i);
            }
        } else {
            lemma_carry_above(r, i - 1, d);
            if carry(r, i, d) is Some {
                let c = carry(r, i, d).unwrap();
                lemma_lex_last(r, c, 0, i);
            }
        }
    }
}

/// The increment is the least tuple above `r` on `0..=i`: at most any
/// well-formed `s` above `r`.
proof fn lemma_carry_least(r: Seq<i64>, s: Seq<i64>, i: int, d: int)
    requires
        1 <= d <= i64::MAX,
        tuple_ok(r, d),
        tuple_ok(s, d),
        -1 <= i < d,
        lex_cmp(r, s, 0, i) < 0,
    ensures
        carry(r, i, d) is Some,
        lex_cmp(carry(r, i, d).unwrap(), s, 0, i) <= 0,
    decreases i + 1,
{
    if i < 0 {
        assert(lex_cmp(r, s, 0, i) == 0);
    } else {
        lemma_lex_last(r, s, 0, i);
        if i % 2 == 1 && r[i] < d - 1 {
            let c = r.update(i, (r[i] + 1) as i64);
            lemma_lex_same_entries(c, s, r, s, 0, i - 1);
            lemma_lex_last(c, s, 0, i);
        } else if i % 2 == 1 {
            let r2 = r.update(i, 0i64);
            lemma_tuple_update(r, i, 0i64, d);
            assert(lex_cmp(r, s, 0, i - 1) < 0);
            lemma_lex_same_entries(r2, s, r, s, 0, i - 1);
            lemma_carry_least(r2, s, i - 1, d);
            lemma_carry_above(r2, i - 1, d);
            let c = carry(r2, i - 1, d).unwrap();
            lemma_lex_last(c, s, 0, i);
        } else {
            assert(r[i] == 0 && s[i] == 0);
            lemma_carry_least(r, s, i - 1, d);
            lemma_carry_above(r, i - 1, d);
            let c = carry(r, i - 1, d).unwrap();
            lemma_lex_last(c, s, 0, i);
        }
    }
}

/// The increment reads only the entries in `0..=i`.
proof fn lemma_carry_same(r1: Seq<i64>, r2: Seq<i64>, i: int, d: int)
    requires
        1 <= d <= i64::MAX,
        tuple_ok(r1, d),
        tuple_ok(r2, d),
        -1 <= i < d,
        forall|j: int| 0 <= j <= i ==> r1[j] == r2[j],
    ensures
        carry(r1, i, d) is Some <==> carry(r2, i, d) is Some,
        carry(r1, i, d) is Some ==> forall|j: int| 0 <= j <= i ==> #[trigger] carry(r1, i, d).unwrap()[j] == carry(r2, i, d).unwrap()[j],
    decreases i + 1,
{
    if i >= 0 {
        if i % 2 == 1 && r1[i] < d - 1 {
        } else if i % 2 == 1 {
            lemma_tuple_update(r1, i, 0i64, d);
            lemma_tuple_update(r2, i, 0i64, d);
            lemma_carry_same(r1.update(i, 0i64), r2.update(i, 0i64), i - 1, d);
            lemma_carry_above(r1.update(i, 0i64), i - 1, d);
            lemma_carry_above(r2.update(i, 0i64), i - 1, d);
        } else {
            lemma_carry_same(r1, r2, i - 1, d);
            lemma_carry_above(r1, i - 1, d);
            lemma_carry_above(r2, i - 1, d);
        }
    }
}

/// `Prog` is monotone in the measure of the successor: if
/// `rho(w) <=_p rho'(w)` then `Prog(rho, v, w) <=_p Prog(rho', v, w)`, for
/// well-formed measures and a priority `p` below `d`.
pub proof fn lemma_prog_monotone(a: Option<Seq<i64>>, b: Option<Seq<i64>>, p: int, d: int)
    requires
        1 <= d <= i64::MAX,
        0 <= p < d,
        measure_ok(a, d),
        measure_ok(b, d),
        m_le(a, b, p),
    ensures
        m_le(prog_spec(a, p, d), prog_spec(b, p, d), p),
{
    if let (Some(x), Some(y)) = (a, b) {
        let tx = tail_zeroed(x, p + 1);
        let ty = tail_zeroed(y, p + 1);
        lemma_lex_same_entries(tx, ty, x, y, 0, p);
        assert(tuple_ok(tx, d));
        assert(tuple_ok(ty, d));
        if p % 2 == 1 {
            let c1 = carry(tx, p, d);
            let c2 = carry(ty, p, d);
            lemma_carry_above(tx, p, d);
            lemma_carry_above(ty, p, d);
            if lex_cmp(tx, ty, 0, p) == 0 {
                lemma_lex_antisym(tx, ty, 0, p);
                assert forall|j: int| 0 <= j <= p implies tx[j] == ty[j] by {
                    lemma_lex_zero_upto(tx, ty, 0, p);
                }
                lemma_carry_same(tx, ty, p, d);
                if c1 is Some {
                    lemma_lex_same_entries(c1.unwrap(), c2.unwrap(), c2.unwrap(), c2.unwrap(), 0, p);
                    lemma_lex_refl(c2.unwrap(), 0, p);
                }
            } else {
                lemma_carry_least(tx, ty, p, d);
                if c2 is Some {
                    lemma_lex_trans(c1.unwrap(), ty, c2.unwrap(), 0, p);
                }
            }
        }
    }
}

proof fn lemma_lex_zero_upto(a: Seq<i64>, b: Seq<i64>, i: int, k: int)
    requires
        lex_cmp(a, b, i, k) == 0,
    ensures
        forall|j: int| i <= j <= k ==> a[j] == b[j],
    decreases k + 1 - i,
{
    if i <= k {
        lemma_lex_zero_upto(a, b, i + 1, k);
    }
}

/// `data` is at most `m` at every vertex.
pub open spec fn pointwise_le(data: Seq<Measures>, m: Seq<Measures>, d: int) -> bool {
    &&& data.len() == m.len()
    &&& forall|i: int| 0 <= i < data.len() ==> #[trigger] m_le(mval(data[i]), mval(m[i]), d - 1)
}

proof fn lemma_lex_shorter(a: Seq<i64>, b: Seq<i64>, p: int, k: int)
    requires
        0 <= p <= k,
        lex_cmp(a, b, 0, k) <= 0,
    ensures
        lex_cmp(a, b, 0, p) <= 0,
    decreases k - p,
{
    if p < k {
        lemma_lex_last(a, b, 0, k);
        lemma_lex_shorter(a, b, p, k - 1);
    }
}

proof fn lemma_lex_longer(a: Seq<i64>, b: Seq<i64>, p: int, k: int)
    requires
        0 <= p <= k,
        forall|j: int| p < j <= k ==> a[j] == b[j],
    ensures
        lex_cmp(a, b, 0, k) == lex_cmp(a, b, 0, p),
    decreases k - p,
{
    if p < k {
        lemma_lex_last(a, b, 0, k);
        lemma_lex_longer(a, b, p, k - 1);
    }
}

proof fn lemma_prog_tail(a: Option<Seq<i64>>, p: int, d: int)
    requires
        1 <= d <= i64::MAX,
        0 <= p < d,
        valid_measure(a, d),
    ensures
        prog_spec(a, p, d) is Some ==> forall|j: int| p < j < d ==> #[trigger] prog_spec(a, p, d).unwrap()[j] == 0,
{
    if let Some(x) = a {
        let t = tail_zeroed(x, p + 1);
        if p % 2 == 1 {
            assert(tuple_ok(t, d));
            lemma_carry_above(t, p, d);
        }
    }
}

/// `Prog` is monotone in the full order of measures.
pub proof fn lemma_prog_full_monotone(a: Option<Seq<i64>>, b: Option<Seq<i64>>, p: int, d: int)
    requires
        1 <= d <= i64::MAX,
        0 <= p < d,
        valid_measure(a, d),
        valid_measure(b, d),
        m_le(a, b, d - 1),
    ensures
        m_le(prog_spec(a, p, d), prog_spec(b, p, d), d - 1),
{
    if let (Some(x), Some(y)) = (a, b) {
        lemma_lex_shorter(x, y, p, d - 1);
    }
    assert(measure_ok(a, d));
    assert(measure_ok(b, d));
    lemma_prog_monotone(a, b, p, d);
    lemma_prog_tail(a, p, d);
    lemma_prog_tail(b, p, d);
    if let (Some(c1), Some(c2)) = (prog_spec(a, p, d), prog_spec(b, p, d)) {
        lemma_lex_longer(c1, c2, p, d - 1);
    }
}

proof fn lemma_min2_monotone(a1: Option<Seq<i64>>, a2: Option<Seq<i64>>, b1: Option<Seq<i64>>, b2: Option<Seq<i64>>, k: int)
    requires
        m_le(a1, a2, k),
        m_le(b1, b2, k),
    ensures
        m_le(min2(a1, b1, k), min2(a2, b2, k), k),
{
    lemma_m_le_total(a1, b1, k);
    lemma_m_le_total(a2, b2, k);
    if m_le(a2, b2, k) {
        if !m_le(a1, b1, k) {
            lemma_m_le_trans(b1, a1, a2, k);
        }
    } else {
        if m_le(a1, b1, k) {
            lemma_m_le_trans(a1, b1, b2, k);
        }
    }
}

proof fn lemma_max2_monotone(a1: Option<Seq<i64>>, a2: Option<Seq<i64>>, b1: Option<Seq<i64>>, b2: Option<Seq<i64>>, k: int)
    requires
        m_le(a1, a2, k),
        m_le(b1, b2, k),
    ensures
        m_le(max2(a1, b1, k), max2(a2, b2, k), k),
{
    lemma_m_le_total(a1, b1, k);
    lemma_m_le_total(a2, b2, k);
    if m_le(b2, a2, k) {
        if !m_le(b1, a1, k) {
            lemma_m_le_trans(b1, b2, a2, k);
        }
    } else {
        if m_le(b1, a1, k) {
            lemma_m_le_trans(a1, a2, b2, k);
        }
    }
}

proof fn lemma_best_prog_monotone(data: Seq<Measures>, m: Seq<Measures>, succ: Seq<i64>, p: int, d: int, even: bool, n: int)
    requires
        1 <= d <= i64::MAX,
        0 <= p < d,
        1 <= n <= succ.len(),
        valid_data(data, d),
        valid_data(m, d),
        pointwise_le(data, m, d),
        forall|k: int| 0 <= k < succ.len() ==> 0 <= #[trigger] succ[k] < data.len(),
    ensures
        m_le(best_prog(data, succ, p, d, even, n), best_prog(m, succ, p, d, even, n), d - 1),
    decreases n,
{
    let w = succ[n - 1] as int;
    assert(m_le(mval(data[w]), mval(m[w]), d - 1));
    assert(valid_measure(mval(data[w]), d));
    assert(valid_measure(mval(m[w]), d));
    lemma_prog_full_monotone(mval(data[w]), mval(m[w]), p, d);
    if n > 1 {
        lemma_best_prog_monotone(data, m, succ, p, d, even, n - 1);
        let a1 = best_prog(data, succ, p, d, even, n - 1);
        let a2 = best_prog(m, succ, p, d, even, n - 1);
        let b1 = prog_at(data, succ[n - 1], p, d);
        let b2 = prog_at(m, succ[n - 1], p, d);
        if even {
            lemma_min2_monotone(a1, a2, b1, b2, d - 1);
        } else {
            lemma_max2_monotone(a1, a2, b1, b2, d - 1);
        }
    }
}

/// Lifting below a measure that is stable at `v` stays below it.
pub proof fn lemma_lift_below_stable(data: Seq<Measures>, m: Seq<Measures>, v: int, vx: Vertex, d: int)
    requires
        1 <= d <= i64::MAX,
        0 <= v < data.len(),
        0 <= vx.priority < d,
        vx.successors@.len() >= 1,
        forall|k: int| 0 <= k < vx.successors@.len() ==> 0 <= #[trigger] vx.successors@[k] < data.len(),
        valid_data(data, d),
        valid_data(m, d),
        pointwise_le(data, m, d),
        lift_value(m, v, vx, d) == mval(m[v]),
    ensures
        m_le(lift_value(data, v, vx, d), mval(m[v]), d - 1),
{
    let n = vx.successors@.len() as int;
    lemma_best_prog_monotone(data, m, vx.successors@, vx.priority as int, d, vx.owner == 0, n);
    let x1 = best_prog(data, vx.successors@, vx.priority as int, d, vx.owner == 0, n);
    let x2 = best_prog(m, vx.successors@, vx.priority as int, d, vx.owner == 0, n);
    assert(m_le(mval(data[v]), mval(m[v]), d - 1));
    lemma_max2_monotone(mval(data[v]), mval(m[v]), x1, x2, d - 1);
}

} // verus!
