use vstd::prelude::*;
use crate::vertex::{Vertex, Vertices};
use crate::potential::{valid_data, valid_measure, potential, lemma_potential_nonneg, lemma_potential_update, lemma_lift_value_valid};
use crate::measure_order::{pointwise_le, lemma_lift_below_stable};

verus! {

/// A measure: `Some` tuple, or `None` for the top element.
pub type Measures = Option<Vec<i64>>;

/// A progress measure: one measure per vertex identifier.
pub struct ProgressMeasure {
    pub data: Vec<Measures>,
}

/// The mathematical value of a measure (`None` is top).
pub open spec fn mval(m: Measures) -> Option<Seq<i64>> {
    match m {
        Some(v) => Some(v@),
        None => None,
    }
}

/// `m` is the all-zero tuple of length `d`.
pub open spec fn is_zero_measure(m: Measures, d: int) -> bool {
    &&& m.is_some()
    &&& m.unwrap()@.len() == d
    &&& forall|j: int| 0 <= j < d ==> #[trigger] m.unwrap()@[j] == 0
}

/// `s` with every entry at an index `>= start` set to zero.
pub open spec fn tail_zeroed(s: Seq<i64>, start: int) -> Seq<i64> {
    Seq::new(s.len(), |i: int| if i >= start { 0i64 } else { s[i] })
}

/// Lexicographic increment of `r` at the odd indices `<= i`, each entry bounded
/// by `d - 1`, carrying to the left; `None` when every odd entry overflows.
pub open spec fn carry(r: Seq<i64>, i: int, d: int) -> Option<Seq<i64>>
    decreases i + 1,
{
    if i < 0 {
        None
    } else if i % 2 == 1 && r[i] < d - 1 {
        Some(r.update(i, (r[i] + 1) as i64))
    } else if i % 2 == 1 {
        carry(r.update(i, 0i64), i - 1, d)
    } else {
        carry(r, i - 1, d)
    }
}

/// `Prog` for a vertex of priority `p`, given the measure `mw` of its successor.
pub open spec fn prog_spec(mw: Option<Seq<i64>>, p: int, d: int) -> Option<Seq<i64>> {
    match mw {
        None => None,
        Some(s) => if p % 2 == 0 {
            Some(tail_zeroed(s, p + 1))
        } else {
            carry(tail_zeroed(s, p + 1), p, d)
        },
    }
}

/// Compares `a` and `b` lexicographically on the indices `i..=k`:
/// -1 when `a` is smaller, 1 when larger, 0 when equal there.
pub open spec fn lex_cmp(a: Seq<i64>, b: Seq<i64>, i: int, k: int) -> int
    decreases k + 1 - i,
{
    if i > k {
        0
    } else if a[i] < b[i] {
        -1
    } else if a[i] > b[i] {
        1
    } else {
        lex_cmp(a, b, i + 1, k)
    }
}

/// `a <=_k b`, top being the largest measure.
pub open spec fn m_le(a: Option<Seq<i64>>, b: Option<Seq<i64>>, k: int) -> bool {
    match b {
        None => true,
        Some(bs) => match a {
            None => false,
            Some(s) => lex_cmp(s, bs, 0, k) <= 0,
        },
    }
}

/// `a <_k b`, top being the largest measure.
pub open spec fn m_lt(a: Option<Seq<i64>>, b: Option<Seq<i64>>, k: int) -> bool {
    !m_le(b, a, k)
}

/// The smaller of two measures (the first on a tie).
pub open spec fn min2(a: Option<Seq<i64>>, b: Option<Seq<i64>>, k: int) -> Option<Seq<i64>> {
    if m_le(a, b, k) { a } else { b }
}

/// The larger of two measures (the first on a tie).
pub open spec fn max2(a: Option<Seq<i64>>, b: Option<Seq<i64>>, k: int) -> Option<Seq<i64>> {
    if m_le(b, a, k) { a } else { b }
}


/// `Prog` from the vertex of priority `p` to the successor `w`.
pub open spec fn prog_at(data: Seq<Measures>, w: i64, p: int, d: int) -> Option<Seq<i64>> {
    prog_spec(mval(data[w as int]), p, d)
}

/// The minimum (`even`) or maximum (otherwise) of `Prog` over the first `n`
/// successors in `succ`.
pub open spec fn best_prog(data: Seq<Measures>, succ: Seq<i64>, p: int, d: int, even: bool, n: int) -> Option<Seq<i64>>
    decreases n,
{
    if n <= 1 {
        prog_at(data, succ[0], p, d)
    } else {
        let prev = best_prog(data, succ, p, d, even, n - 1);
        let cur = prog_at(data, succ[n - 1], p, d);
        if even { min2(prev, cur, d - 1) } else { max2(prev, cur, d - 1) }
    }
}

/// The value of `Lift_v` at `v`, where `vx` is the vertex `v`.
pub open spec fn lift_value(data: Seq<Measures>, v: int, vx: Vertex, d: int) -> Option<Seq<i64>> {
    max2(
        mval(data[v]),
        best_prog(data, vx.successors@, vx.priority as int, d, vx.owner == 0, vx.successors@.len() as int),
        d - 1,
    )
}

/// Every tuple in `data` has length `d`.
pub open spec fn measures_have_len(data: Seq<Measures>, d: int) -> bool {
    forall|i: int| 0 <= i < data.len() && (#[trigger] data[i]).is_some() ==> data[i].unwrap()@.len() == d
}

/// The inputs on which `Lift_v` is defined: `v` is a vertex with successors,
/// all of them identifiers of `data`, and a priority below `d`.
pub open spec fn lift_ready(data: Seq<Measures>, vertices: Seq<Option<Vertex>>, v: int, d: int) -> bool {
    &&& 1 <= d <= usize::MAX
    &&& 0 <= v < data.len()
    &&& v < vertices.len()
    &&& vertices[v].is_some()
    &&& 0 <= vertices[v].unwrap().priority < d
    &&& vertices[v].unwrap().successors@.len() > 0
    &&& forall|k: int| 0 <= k < vertices[v].unwrap().successors@.len()
        ==> 0 <= #[trigger] vertices[v].unwrap().successors@[k] < data.len()
    &&& measures_have_len(data, d)
}

/// `lex_cmp` is reflexive.
pub proof fn lemma_lex_refl(a: Seq<i64>, i: int, k: int)
    ensures
        lex_cmp(a, a, i, k) == 0,
    decreases k + 1 - i,
{
    if i <= k {
        lemma_lex_refl(a, i + 1, k);
    }
}

/// `lex_cmp` is antisymmetric.
pub proof fn lemma_lex_antisym(a: Seq<i64>, b: Seq<i64>, i: int, k: int)
    ensures
        lex_cmp(a, b, i, k) == -lex_cmp(b, a, i, k),
    decreases k + 1 - i,
{
    if i <= k {
        lemma_lex_antisym(a, b, i + 1, k);
    }
}

/// `lex_cmp` is transitive.
pub proof fn lemma_lex_trans(a: Seq<i64>, b: Seq<i64>, c: Seq<i64>, i: int, k: int)
    requires
        lex_cmp(a, b, i, k) <= 0,
        lex_cmp(b, c, i, k) <= 0,
    ensures
        lex_cmp(a, c, i, k) <= 0,
        lex_cmp(a, b, i, k) < 0 || lex_cmp(b, c, i, k) < 0 ==> lex_cmp(a, c, i, k) < 0,
    decreases k + 1 - i,
{
    if i <= k {
        if a[i] == b[i] && b[i] == c[i] {
            lemma_lex_trans(a, b, c, i + 1, k);
        }
    }
}

/// `m_le` is reflexive.
pub proof fn lemma_m_le_refl(a: Option<Seq<i64>>, k: int)
    ensures
        m_le(a, a, k),
{
    if let Some(s) = a {
        lemma_lex_refl(s, 0, k);
    }
}

/// `m_le` is total.
pub proof fn lemma_m_le_total(a: Option<Seq<i64>>, b: Option<Seq<i64>>, k: int)
    ensures
        m_le(a, b, k) || m_le(b, a, k),
{
    if let (Some(x), Some(y)) = (a, b) {
        lemma_lex_antisym(x, y, 0, k);
    }
}

/// `m_le` is transitive.
pub proof fn lemma_m_le_trans(a: Option<Seq<i64>>, b: Option<Seq<i64>>, c: Option<Seq<i64>>, k: int)
    requires
        m_le(a, b, k),
        m_le(b, c, k),
    ensures
        m_le(a, c, k),
{
    if let (Some(x), Some(y), Some(z)) = (a, b, c) {
        lemma_lex_trans(x, y, z, 0, k);
    }
}

/// `best_prog` reads only the measures of the successors.
pub proof fn lemma_best_prog_frame(data1: Seq<Measures>, data2: Seq<Measures>, succ: Seq<i64>, p: int, d: int, even: bool, n: int)
    requires
        1 <= n <= succ.len(),
        forall|k: int| 0 <= k < n ==> mval(data1[#[trigger] succ[k] as int]) == mval(data2[succ[k] as int]),
    ensures
        best_prog(data1, succ, p, d, even, n) == best_prog(data2, succ, p, d, even, n),
    decreases n,
{
    assert(mval(data1[succ[n - 1] as int]) == mval(data2[succ[n - 1] as int]));
    if n > 1 {
        lemma_best_prog_frame(data1, data2, succ, p, d, even, n - 1);
    } else {
        assert(mval(data1[succ[0] as int]) == mval(data2[succ[0] as int]));
    }
}

/// Whether `n` is even.
pub fn _is_even(n: i64) -> (r: bool)
    ensures
        r == (n % 2 == 0),
{
    n % 2 == 0
}

/// `v` with every entry from index `start` on replaced by zero.
fn zero_tail(v: Vec<i64>, start: usize) -> (r: Vec<i64>)
    ensures
        r@ == tail_zeroed(v@, start as int),
{
    let mut v = v;
    let ghost orig = v@;
    let mut i: usize = start;
    while i < v.len()
        invariant
            start <= i,
            v@.len() == orig.len(),
            forall|j: int| 0 <= j < v@.len() ==> #[trigger] v@[j] == (if j >= start && j < i { 0i64 } else { orig[j] }),
        decreases v@.len() - i,
    {
        v.set(i, 0);
        i = i + 1;
    }
    assert(v@ =~= tail_zeroed(orig, start as int));
    v
}

/// `v` with every entry from index `tail_start` on replaced by zero.
pub fn _tail_zeros(v: Vec<i64>, tail_start: i64) -> (r: Vec<i64>)
    requires
        tail_start >= 0,
    ensures
        r@ == tail_zeroed(v@, tail_start as int),
{
    if tail_start as u64 >= v.len() as u64 {
        assert(v@ =~= tail_zeroed(v@, tail_start as int));
        return v;
    }
    zero_tail(v, tail_start as usize)
}

/// A copy of `v`.
fn copy_measure(v: &Vec<i64>) -> (r: Vec<i64>)
    ensures
        r@ == v@,
{
    let mut r: Vec<i64> = Vec::new();
    let mut i: usize = 0;
    while i < v.len()
        invariant
            i <= v@.len(),
            r@ == v@.subrange(0, i as int),
        decreases v@.len() - i,
    {
        r.push(v[i]);
        i = i + 1;
        assert(r@ =~= v@.subrange(0, i as int));
    }
    assert(v@.subrange(0, v@.len() as int) =~= v@);
    r
}

/// The all-zero tuple of length `n`.
fn zeros(n: usize) -> (r: Vec<i64>)
    ensures
        r@ == Seq::new(n as nat, |j: int| 0i64),
{
    let mut r: Vec<i64> = Vec::new();
    while r.len() < n
        invariant
            r@.len() <= n,
            forall|j: int| 0 <= j < r@.len() ==> #[trigger] r@[j] == 0i64,
        decreases n - r@.len(),
    {
        r.push(0);
    }
    assert(r@ =~= Seq::new(n as nat, |j: int| 0i64));
    r
}

/// `Prog` on the measure `mw` of a successor, for a vertex of priority `p`.
fn prog_of(mw: &Measures, p: i64, d: i64) -> (r: Measures)
    requires
        0 <= p,
        d >= 1,
        mw.is_some() ==> p < mw.unwrap()@.len(),
    ensures
        mval(r) == prog_spec(mval(*mw), p as int, d as int),
        r.is_some() ==> mw.is_some() && r.unwrap()@.len() == mw.unwrap()@.len(),
{
    match mw {
        None => None,
        Some(m) => {
            let n = m.len();
            let ew = zero_tail(copy_measure(m), p as usize + 1);
            if _is_even(p) {
                return Some(ew);
            }
            let mut ew = ew;
            let mut i: i64 = p;
            while i >= 0
                invariant
                    -1 <= i <= p,
                    p < ew@.len(),
                    ew@.len() == m@.len(),
                    mw.is_some() && mw.unwrap()@.len() == m@.len(),
                    ew@.len() <= usize::MAX,
                    d >= 1,
                    prog_spec(mval(*mw), p as int, d as int) == carry(tail_zeroed(m@, p + 1), p as int, d as int),
                    carry(ew@, i as int, d as int) == carry(tail_zeroed(m@, p + 1), p as int, d as int),
                decreases i + 1,
            {
                let iu = i as usize;
                assert(carry(ew@, i as int, d as int) == (if i % 2 == 1 && ew@[i as int] < d - 1 {
                    Some(ew@.update(i as int, (ew@[i as int] + 1) as i64))
                } else if i % 2 == 1 {
                    carry(ew@.update(i as int, 0i64), i - 1, d as int)
                } else {
                    carry(ew@, i - 1, d as int)
                }));
                if i % 2 == 1 {
                    if ew[iu] < d - 1 {
                        ew.set(iu, ew[iu] + 1);
                        return Some(ew);
                    }
                    ew.set(iu, 0);
                }
                i = i - 1;
            }
            None
        },
    }
}

/// Compares the first `n` entries of `a` and `b` lexicographically.
fn compare_prefix(a: &Vec<i64>, b: &Vec<i64>, n: usize) -> (r: i64)
    requires
        n <= a@.len(),
        n <= b@.len(),
    ensures
        r == lex_cmp(a@, b@, 0, n - 1),
{
    let mut i: usize = 0;
    while i < n
        invariant
            i <= n,
            n <= a@.len(),
            n <= b@.len(),
            lex_cmp(a@, b@, 0, n - 1) == lex_cmp(a@, b@, i as int, n - 1),
        decreases n - i,
    {
        if a[i] < b[i] {
            return -1;
        }
        if a[i] > b[i] {
            return 1;
        }
        i = i + 1;
    }
    0
}

/// `a <= b` on the first `n` entries, top being the largest.
fn measure_le(a: &Measures, b: &Measures, n: usize) -> (r: bool)
    requires
        a.is_some() ==> n <= a.unwrap()@.len(),
        b.is_some() ==> n <= b.unwrap()@.len(),
    ensures
        r == m_le(mval(*a), mval(*b), n - 1),
{
    match b {
        None => true,
        Some(y) => match a {
            None => false,
            Some(x) => compare_prefix(x, y, n) <= 0,
        },
    }
}

/// The length of the tuple `m` (zero for top).
pub open spec fn mlen(m: Measures) -> int {
    match m {
        Some(v) => v@.len() as int,
        None => 0,
    }
}

/// All tuples in `list` have one length.
pub open spec fn same_lengths(list: Seq<Measures>) -> bool {
    forall|i: int, j: int|
        0 <= i < list.len() && 0 <= j < list.len() && (#[trigger] list[i]).is_some() && (#[trigger] list[j]).is_some()
            ==> list[i].unwrap()@.len() == list[j].unwrap()@.len()
}

/// The least measure of `list`; top when every entry is top.
pub fn min_measures(list: Vec<Measures>) -> (r: Measures)
    requires
        same_lengths(list@),
    ensures
        r.is_none() <==> forall|i: int| 0 <= i < list@.len() ==> (#[trigger] list@[i]).is_none(),
        r.is_some() ==> exists|i: int| 0 <= i < list@.len() && mval(#[trigger] list@[i]) == mval(r),
        forall|i: int| 0 <= i < list@.len() && (#[trigger] list@[i]).is_some()
            ==> m_le(mval(r), mval(list@[i]), mlen(list@[i]) - 1),
{
    let mut best: Option<usize> = None;
    let mut i: usize = 0;
    while i < list.len()
        invariant
            i <= list@.len(),
            same_lengths(list@),
            best.is_none() <==> forall|j: int| 0 <= j < i ==> (#[trigger] list@[j]).is_none(),
            best.is_some() ==> best.unwrap() < i && list@[best.unwrap() as int].is_some(),
            best.is_some() ==> forall|j: int| 0 <= j < i && (#[trigger] list@[j]).is_some()
                ==> m_le(mval(list@[best.unwrap() as int]), mval(list@[j]), mlen(list@[j]) - 1),
        decreases list@.len() - i,
    {
        if let Some(x) = &list[i] {
            match best {
                None => {
                    proof { lemma_m_le_refl(mval(list@[i as int]), mlen(list@[i as int]) - 1); }
                    best = Some(i);
                },
                Some(b) => {
                    let y = list[b].as_ref().unwrap();
                    if compare_prefix(x, y, x.len()) < 0 {
                        proof {
                            let k = mlen(list@[i as int]) - 1;
                            lemma_m_le_refl(mval(list@[i as int]), k);
                            assert forall|j: int| 0 <= j < i + 1 && (#[trigger] list@[j]).is_some()
                                implies m_le(mval(list@[i as int]), mval(list@[j]), mlen(list@[j]) - 1) by {
                                if j < i {
                                    lemma_m_le_total(mval(list@[i as int]), mval(list@[b as int]), k);
                                    lemma_m_le_trans(mval(list@[i as int]), mval(list@[b as int]), mval(list@[j]), k);
                                }
                            }
                        }
                        best = Some(i);
                    } else {
                        proof {
                            lemma_lex_antisym(x@, y@, 0, x@.len() - 1);
                        }
                    }
                },
            }
        }
        i = i + 1;
    }
    match best {
        None => None,
        Some(b) => Some(copy_measure(list[b].as_ref().unwrap())),
    }
}

/// The greatest measure of `list`; top when some entry is top.
pub fn max_measures(list: Vec<Measures>) -> (r: Measures)
    requires
        list@.len() > 0,
        same_lengths(list@),
    ensures
        r.is_none() <==> exists|i: int| 0 <= i < list@.len() && (#[trigger] list@[i]).is_none(),
        exists|i: int| 0 <= i < list@.len() && mval(#[trigger] list@[i]) == mval(r),
        forall|i: int| 0 <= i < list@.len() ==> m_le(mval(#[trigger] list@[i]), mval(r), mlen(list@[i]) - 1),
{
    let mut best: usize = 0;
    let mut i: usize = 0;
    while i < list.len()
        invariant
            i <= list@.len(),
            best < list@.len(),
            same_lengths(list@),
            i > 0 ==> best < i,
            forall|j: int| 0 <= j < i ==> list@[j].is_some(),
            forall|j: int| 0 <= j < i ==> m_le(mval(#[trigger] list@[j]), mval(list@[best as int]), mlen(list@[j]) - 1),
        decreases list@.len() - i,
    {
        match &list[i] {
            None => {
                proof {
                    lemma_m_le_refl(None, 0);
                    assert forall|j: int| 0 <= j < list@.len() implies m_le(mval(#[trigger] list@[j]), mval(list@[i as int]), mlen(list@[j]) - 1) by {}
                }
                return None;
            },
            Some(x) => {
                if i == 0 {
                    proof { lemma_m_le_refl(mval(list@[0]), mlen(list@[0]) - 1); }
                    best = 0;
                } else {
                    let y = list[best].as_ref().unwrap();
                    if compare_prefix(y, x, x.len()) < 0 {
                        proof {
                            let k = mlen(list@[i as int]) - 1;
                            lemma_m_le_refl(mval(list@[i as int]), k);
                            assert forall|j: int| 0 <= j < i + 1
                                implies m_le(mval(#[trigger] list@[j]), mval(list@[i as int]), mlen(list@[j]) - 1) by {
                                if j < i {
                                    lemma_m_le_trans(mval(list@[j]), mval(list@[best as int]), mval(list@[i as int]), k);
                                }
                            }
                        }
                        best = i;
                    } else {
                        proof {
                            lemma_lex_antisym(x@, y@, 0, x@.len() - 1);
                        }
                    }
                }
            },
        }
        i = i + 1;
    }
    Some(copy_measure(list[best].as_ref().unwrap()))
}

impl ProgressMeasure {
    /// The all-zero measure of length `d` for each of the identifiers `0..id`.
    pub fn new(id: i64, d: i64) -> (r: Self)
        requires
            0 <= d <= usize::MAX,
        ensures
            r.data@.len() == (if id < 0 { 0 } else { id as int }),
            forall|i: int| 0 <= i < r.data@.len() ==> #[trigger] is_zero_measure(r.data@[i], d as int),
    {
        let mut data: Vec<Measures> = Vec::new();
        let mut i: i64 = 0;
        while i < id
            invariant
                0 <= i,
                id >= 0 ==> i <= id,
                id < 0 ==> i == 0,
                data@.len() == i,
                0 <= d <= usize::MAX,
                forall|k: int| 0 <= k < data@.len() ==> #[trigger] is_zero_measure(data@[k], d as int),
            decreases id - i,
        {
            data.push(Some(zeros(d as usize)));
            i = i + 1;
        }
        ProgressMeasure { data }
    }

    /// `Prog(self, v, w)` for `d = 1 + max priority`.
    pub fn prog(&self, v: Vertex, w: Vertex, d: i64) -> (r: Measures)
        requires
            0 <= w.identifier < self.data@.len(),
            0 <= v.priority,
            d >= 1,
            self.data@[w.identifier as int].is_some() ==> v.priority < self.data@[w.identifier as int].unwrap()@.len(),
        ensures
            mval(r) == prog_spec(mval(self.data@[w.identifier as int]), v.priority as int, d as int),
    {
        let n = self.data.len();
        let wi = w.identifier as usize;
        prog_of(&self.data[wi], v.priority, d)
    }

    /// One lifting step at `v`: raises its measure to the least (for the even
    /// owner) or greatest (odd owner) `Prog` over its successors, if that is
    /// larger. The flag tells whether the measure of `v` changed.
    fn lift_once(self, v: i64, vertices: &Vertices, d: i64) -> (res: (ProgressMeasure, bool))
        requires
            lift_ready(self.data@, vertices@, v as int, d as int),
        ensures
            res.0.data@.len() == self.data@.len(),
            mval(res.0.data@[v as int]) == lift_value(self.data@, v as int, vertices@[v as int].unwrap(), d as int),
            forall|i: int| 0 <= i < self.data@.len() && i != v ==> #[trigger] res.0.data@[i] == self.data@[i],
            res.1 == (mval(res.0.data@[v as int]) != mval(self.data@[v as int])),
            !res.1 ==> res.0.data@ == self.data@,
            res.1 ==> res.0.data@ == self.data@.update(v as int, res.0.data@[v as int]),
            measures_have_len(res.0.data@, d as int),
    {
        let n = self.data.len();
        let vi = v as usize;
        let vx = vertices[vi].as_ref().unwrap();
        let succ = &vx.successors;
        let p = vx.priority;
        let even = vx.owner == 0;
        let du = d as usize;
        let w0 = succ[0] as usize;
        let mut best = prog_of(&self.data[w0], p, d);
        let mut k: usize = 1;
        while k < succ.len()
            invariant
                1 <= k <= succ@.len(),
                lift_ready(self.data@, vertices@, v as int, d as int),
                n == self.data@.len(),
                vx == vertices@[v as int].unwrap(),
                succ@ == vx.successors@,
                p == vx.priority,
                even == (vx.owner == 0),
                du == d,
                mval(best) == best_prog(self.data@, succ@, p as int, d as int, even, k as int),
                best.is_some() ==> best.unwrap()@.len() == d,
            decreases succ@.len() - k,
        {
            let w = succ[k] as usize;
            let cur = prog_of(&self.data[w], p, d);
            if even {
                if !measure_le(&best, &cur, du) {
                    best = cur;
                }
            } else {
                if !measure_le(&cur, &best, du) {
                    best = cur;
                }
            }
            k = k + 1;
        }
        let updated = !measure_le(&best, &self.data[vi], du);
        proof {
            lemma_m_le_refl(mval(self.data@[v as int]), d - 1);
        }
        let mut pm = self;
        if updated {
            pm.data.set(vi, best);
        }
        (pm, updated)
    }

    /// `Lift_v`: repeats the lifting step at `v` until it changes nothing, so
    /// that lifting `v` again leaves the measure as it is. The flag tells
    /// whether the measure of `v` changed.
    pub fn lift_v(self, v: i64, vertices: &Vertices, d: i64) -> (res: (ProgressMeasure, bool))
        requires
            lift_ready(self.data@, vertices@, v as int, d as int),
            valid_data(self.data@, d as int),
        ensures
            res.0.data@.len() == self.data@.len(),
            valid_data(res.0.data@, d as int),
            forall|i: int| 0 <= i < self.data@.len() && i != v ==> #[trigger] res.0.data@[i] == self.data@[i],
            lift_value(res.0.data@, v as int, vertices@[v as int].unwrap(), d as int) == mval(res.0.data@[v as int]),
            m_le(mval(self.data@[v as int]), mval(res.0.data@[v as int]), d - 1),
            res.1 == (mval(res.0.data@[v as int]) != mval(self.data@[v as int])),
            !res.1 ==> res.0.data@ == self.data@,
            res.1 ==> res.0.data@ == self.data@.update(v as int, res.0.data@[v as int]),
            res.1 ==> potential(res.0.data@, d as int, self.data@.len() as int) < potential(self.data@, d as int, self.data@.len() as int),
            lift_value(self.data@, v as int, vertices@[v as int].unwrap(), d as int) == mval(self.data@[v as int]) ==> !res.1,
            forall|m: Seq<Measures>| valid_data(m, d as int) && pointwise_le(self.data@, m, d as int)
                && lift_value(m, v as int, vertices@[v as int].unwrap(), d as int) == mval(m[v as int])
                ==> #[trigger] pointwise_le(res.0.data@, m, d as int),
    {
        let ghost start = self.data@;
        let ghost n = start.len() as int;
        let ghost vx = vertices@[v as int].unwrap();
        let mut pm = self;
        let mut changed = false;
        proof { lemma_m_le_refl(mval(start[v as int]), d - 1); }
        loop
            invariant
                lift_ready(start, vertices@, v as int, d as int),
                valid_data(start, d as int),
                n == start.len(),
                vx == vertices@[v as int].unwrap(),
                pm.data@.len() == n,
                valid_data(pm.data@, d as int),
                pm.data@ == start.update(v as int, pm.data@[v as int]),
                m_le(mval(start[v as int]), mval(pm.data@[v as int]), d - 1),
                changed == (mval(pm.data@[v as int]) != mval(start[v as int])),
                !changed ==> pm.data@ == start,
                changed ==> potential(pm.data@, d as int, n) < potential(start, d as int, n),
                lift_value(start, v as int, vx, d as int) == mval(start[v as int]) ==> !changed,
                forall|m: Seq<Measures>| valid_data(m, d as int) && pointwise_le(start, m, d as int)
                    && lift_value(m, v as int, vx, d as int) == mval(m[v as int])
                    ==> #[trigger] pointwise_le(pm.data@, m, d as int),
            ensures
                pm.data@.len() == n,
                valid_data(pm.data@, d as int),
                pm.data@ == start.update(v as int, pm.data@[v as int]),
                m_le(mval(start[v as int]), mval(pm.data@[v as int]), d - 1),
                changed == (mval(pm.data@[v as int]) != mval(start[v as int])),
                !changed ==> pm.data@ == start,
                changed ==> potential(pm.data@, d as int, n) < potential(start, d as int, n),
                lift_value(pm.data@, v as int, vx, d as int) == mval(pm.data@[v as int]),
                lift_value(start, v as int, vx, d as int) == mval(start[v as int]) ==> !changed,
                forall|m: Seq<Measures>| valid_data(m, d as int) && pointwise_le(start, m, d as int)
                    && lift_value(m, v as int, vx, d as int) == mval(m[v as int])
                    ==> #[trigger] pointwise_le(pm.data@, m, d as int),
            decreases potential(pm.data@, d as int, n),
        {
            proof {
                lemma_potential_nonneg(pm.data@, d as int, n);
                assert(lift_ready(pm.data@, vertices@, v as int, d as int)) by {
                    assert forall|i: int| 0 <= i < pm.data@.len() && (#[trigger] pm.data@[i]).is_some()
                        implies pm.data@[i].unwrap()@.len() == d by {
                        assert(valid_measure(mval(pm.data@[i]), d as int));
                    }
                }
                lemma_lift_value_valid(pm.data@, v as int, vx, d as int);
            }
            let ghost before = pm.data@;
            let (next, upd) = pm.lift_once(v, vertices, d);
            if !upd {
                pm = next;
                break;
            }
            proof {
                assert(valid_data(next.data@, d as int)) by {
                    assert forall|i: int| 0 <= i < next.data@.len() implies valid_measure(mval(#[trigger] next.data@[i]), d as int) by {
                        if i != v {
                            assert(next.data@[i] == before[i]);
                        }
                    }
                }
                lemma_potential_update(before, v as int, next.data@[v as int], d as int, n);
                lemma_potential_nonneg(next.data@, d as int, n);
                let x = best_prog(before, vx.successors@, vx.priority as int, d as int, vx.owner == 0, vx.successors@.len() as int);
                lemma_m_le_total(x, mval(before[v as int]), d - 1);
                lemma_m_le_trans(mval(start[v as int]), mval(before[v as int]), mval(next.data@[v as int]), d - 1);
                assert(next.data@ =~= start.update(v as int, next.data@[v as int]));
                if mval(next.data@[v as int]) == mval(start[v as int]) {
                    lemma_m_le_antisym(mval(before[v as int]), mval(next.data@[v as int]), d as int);
                }
                assert forall|m: Seq<Measures>| valid_data(m, d as int) && pointwise_le(start, m, d as int)
                    && lift_value(m, v as int, vx, d as int) == mval(m[v as int])
                    implies #[trigger] pointwise_le(next.data@, m, d as int) by {
                    assert(pointwise_le(before, m, d as int));
                    lemma_lift_below_stable(before, m, v as int, vx, d as int);
                    assert forall|i: int| 0 <= i < next.data@.len() implies #[trigger] m_le(mval(next.data@[i]), mval(m[i]), d - 1) by {
                        if i != v {
                            assert(next.data@[i] == before[i]);
                        }
                    }
                }
            }
            pm = next;
            changed = true;
        }
        (pm, changed)
    }
}

/// `lex_cmp` is zero only on equal entries.
proof fn lemma_lex_zero(a: Seq<i64>, b: Seq<i64>, i: int, k: int)
    requires
        lex_cmp(a, b, i, k) == 0,
    ensures
        forall|j: int| i <= j <= k ==> a[j] == b[j],
    decreases k + 1 - i,
{
    if i <= k {
        lemma_lex_zero(a, b, i + 1, k);
    }
}

/// Two valid measures each at most the other are equal.
pub proof fn lemma_m_le_antisym(a: Option<Seq<i64>>, b: Option<Seq<i64>>, d: int)
    requires
        valid_measure(a, d),
        valid_measure(b, d),
        m_le(a, b, d - 1),
        m_le(b, a, d - 1),
    ensures
        a == b,
{
    if let (Some(x), Some(y)) = (a, b) {
        lemma_lex_antisym(x, y, 0, d - 1);
        lemma_lex_zero(x, y, 0, d - 1);
        assert(x =~= y);
    }
}

} // verus!
