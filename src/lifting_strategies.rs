use vstd::prelude::*;
use crate::vertex::{Vertex, Vertices};
use std::collections::{HashMap, VecDeque};
use crate::progress_measure::{ProgressMeasure, Measures, mval, lift_value, lift_ready, measures_have_len};
use crate::potential::{valid_data, valid_measure, potential, lemma_lift_value_valid, lemma_potential_nonneg};
use crate::measure_order::pointwise_le;
use crate::progress_measure::{is_zero_measure, lex_cmp, m_le, lemma_m_le_antisym};

verus! {

broadcast use vstd::std_specs::hash::group_hash_axioms;

/// Vertex `v` of `vertices` is present under its own identifier, has a
/// priority below `d`, and has successors, all of them identifiers of the game.
pub open spec fn vertex_ok(vertices: Seq<Option<Vertex>>, v: int, d: int) -> bool {
    &&& vertices[v].is_some()
    &&& vertices[v].unwrap().identifier == v
    &&& 0 <= vertices[v].unwrap().priority < d
    &&& vertices[v].unwrap().successors@.len() > 0
    &&& forall|k: int| 0 <= k < vertices[v].unwrap().successors@.len()
        ==> 0 <= #[trigger] vertices[v].unwrap().successors@[k] < vertices.len()
}

/// A well-formed parity game with `d = 1 + max priority`.
pub open spec fn game_ok(vertices: Seq<Option<Vertex>>, d: int) -> bool {
    &&& 1 <= d <= usize::MAX
    &&& vertices.len() <= i64::MAX
    &&& forall|v: int| 0 <= v < vertices.len() ==> #[trigger] vertex_ok(vertices, v, d)
}

/// Lifting `v` would not change `data`.
pub open spec fn stable_at(data: Seq<Measures>, vertices: Seq<Option<Vertex>>, v: int, d: int) -> bool {
    lift_value(data, v, vertices[v].unwrap(), d) == mval(data[v])
}

/// `data` is a stable progress measure: no vertex can be lifted.
pub open spec fn stable(data: Seq<Measures>, vertices: Seq<Option<Vertex>>, d: int) -> bool {
    forall|v: int| 0 <= v < vertices.len() ==> #[trigger] stable_at(data, vertices, v, d)
}

/// `a` is at most `b` in the lexicographic order of pairs.
pub open spec fn pair_le(a: (usize, usize), b: (usize, usize)) -> bool {
    a.0 < b.0 || (a.0 == b.0 && a.1 <= b.1)
}

/// Relies on `slice::sort`: the pairs are rearranged into ascending
/// lexicographic order.
#[verifier::external_body]
fn sort_pairs(v: &mut Vec<(usize, usize)>)
    ensures
        final(v)@.to_multiset() == old(v)@.to_multiset(),
        forall|i: int, j: int| 0 <= i < j < final(v)@.len() ==> pair_le(#[trigger] final(v)@[i], #[trigger] final(v)@[j]),
{
    v.sort();
}

/// What `Permutor::new_with_u64_key(len, seed)` yields.
pub uninterp spec fn permutation_of(len: u64, seed: u64) -> Seq<u64>;

/// Relies on `permutation_iterator::Permutor::new_with_u64_key`: a permutation
/// of `0..len` fixed by the key `seed`.
#[verifier::external_body]
fn keyed_permutation(len: u64, seed: u64) -> (r: Vec<u64>)
    ensures
        r@ == permutation_of(len, seed),
        forall|k: int| 0 <= k < r@.len() ==> #[trigger] r@[k] < len,
        forall|i: u64| i < len ==> #[trigger] r@.contains(i),
{
    permutation_iterator::Permutor::new_with_u64_key(len, seed).collect()
}

/// The number of successors of vertex `i` (zero where it is absent).
pub open spec fn succ_count(vertices: Seq<Option<Vertex>>, i: int) -> int {
    match vertices[i] {
        Some(x) => x.successors@.len() as int,
        None => 0,
    }
}

/// The present vertices, ordered by their number of successors (ascending,
/// or descending when `descending`), ties by position.
fn successor_order(vertices: &Vertices, descending: bool) -> (r: Vec<usize>)
    ensures
        forall|k: int| 0 <= k < r@.len() ==> (#[trigger] r@[k] as int) < vertices@.len() && vertices@[r@[k] as int].is_some(),
        forall|i: usize| (i as int) < vertices@.len() && vertices@[i as int].is_some() ==> #[trigger] r@.contains(i),
        forall|a: int, b: int| 0 <= a < b < r@.len() ==> if descending {
            succ_count(vertices@, #[trigger] r@[a] as int) >= succ_count(vertices@, #[trigger] r@[b] as int)
        } else {
            succ_count(vertices@, r@[a] as int) <= succ_count(vertices@, r@[b] as int)
        },
        r@.no_duplicates(),
        forall|a: int, b: int| 0 <= a < b < r@.len() && succ_count(vertices@, #[trigger] r@[a] as int)
            == succ_count(vertices@, #[trigger] r@[b] as int) ==> r@[a] < r@[b],
{
    let mut pairs: Vec<(usize, usize)> = Vec::new();
    let mut i: usize = 0;
    while i < vertices.len()
        invariant
            i <= vertices@.len(),
            forall|k: int| 0 <= k < pairs@.len() ==> (#[trigger] pairs@[k]).1 < i && vertices@[pairs@[k].1 as int].is_some()
                && pairs@[k].0 == (if descending { usize::MAX - succ_count(vertices@, pairs@[k].1 as int) } else { succ_count(vertices@, pairs@[k].1 as int) }),
            forall|j: usize| j < i && vertices@[j as int].is_some() ==> exists|k: int| 0 <= k < pairs@.len() && (#[trigger] pairs@[k]).1 == j,
            forall|a: int, b: int| 0 <= a < b < pairs@.len() ==> (#[trigger] pairs@[a]).1 < (#[trigger] pairs@[b]).1,
        decreases vertices@.len() - i,
    {
        let ghost old_pairs = pairs@;
        if let Some(x) = &vertices[i] {
            let c = x.successors.len();
            let key = if descending { usize::MAX - c } else { c };
            pairs.push((key, i));
        }
        proof {
            assert forall|j: usize| j < i + 1 && vertices@[j as int].is_some()
                implies exists|k: int| 0 <= k < pairs@.len() && (#[trigger] pairs@[k]).1 == j by {
                if j == i {
                    assert(pairs@[pairs@.len() - 1].1 == i);
                } else {
                    let k = choose|k: int| 0 <= k < old_pairs.len() && (#[trigger] old_pairs[k]).1 == j;
                    assert(pairs@[k] == old_pairs[k]);
                }
            }
        }
        i = i + 1;
    }
    let ghost before = pairs@;
    sort_pairs(&mut pairs);
    proof {
        before.to_multiset_ensures();
        pairs@.to_multiset_ensures();
        assert(before.no_duplicates()) by {
            assert forall|a: int, b: int| 0 <= a < before.len() && 0 <= b < before.len() && a != b implies before[a] != before[b] by {
                if a < b {
                    assert(before[a].1 < before[b].1);
                } else {
                    assert(before[b].1 < before[a].1);
                }
            }
        }
        before.lemma_multiset_has_no_duplicates();
        pairs@.lemma_multiset_has_no_duplicates_conv();
        assert forall|k: int| 0 <= k < pairs@.len() implies before.contains(#[trigger] pairs@[k]) by {
            assert(pairs@.contains(pairs@[k]));
            assert(pairs@.to_multiset().count(pairs@[k]) > 0);
        }
    }
    let mut r: Vec<usize> = Vec::new();
    let mut k: usize = 0;
    while k < pairs.len()
        invariant
            k <= pairs@.len(),
            r@.len() == k,
            forall|m: int| 0 <= m < k ==> #[trigger] r@[m] == pairs@[m].1,
        decreases pairs@.len() - k,
    {
        r.push(pairs[k].1);
        k = k + 1;
    }
    proof {
        assert forall|m: int| 0 <= m < r@.len() implies (#[trigger] r@[m] as int) < vertices@.len() && vertices@[r@[m] as int].is_some() by {
            assert(before.contains(pairs@[m]));
        }
        assert forall|j: usize| (j as int) < vertices@.len() && vertices@[j as int].is_some() implies #[trigger] r@.contains(j) by {
            let q = choose|q: int| 0 <= q < before.len() && (#[trigger] before[q]).1 == j;
            assert(before.contains(before[q]));
            assert(before.to_multiset().count(before[q]) > 0);
            assert(pairs@.contains(before[q]));
            let m = pairs@.index_of(before[q]);
            assert(r@[m] == j);
        }
        assert forall|a: int, b: int| 0 <= a < b < r@.len() implies if descending {
            succ_count(vertices@, #[trigger] r@[a] as int) >= succ_count(vertices@, #[trigger] r@[b] as int)
        } else {
            succ_count(vertices@, r@[a] as int) <= succ_count(vertices@, r@[b] as int)
        } by {
            assert(pair_le(pairs@[a], pairs@[b]));
            assert(before.contains(pairs@[a]));
            assert(before.contains(pairs@[b]));
        }
        assert forall|a: int, b: int| 0 <= a < b < r@.len() implies r@[a] != r@[b] && (succ_count(vertices@, #[trigger] r@[a] as int)
            == succ_count(vertices@, #[trigger] r@[b] as int) ==> r@[a] < r@[b]) by {
            assert(pair_le(pairs@[a], pairs@[b]));
            assert(pairs@[a] != pairs@[b]);
            assert(before.contains(pairs@[a]));
            assert(before.contains(pairs@[b]));
        }
    }
    r
}

/// The identifiers of the present vertices, by ascending number of successors.
pub fn least_successor_order(vertices: &Vertices) -> (r: Vec<i64>)
    requires
        vertices@.len() <= i64::MAX,
        forall|i: int| 0 <= i < vertices@.len() && (#[trigger] vertices@[i]).is_some() ==> vertices@[i].unwrap().identifier == i,
    ensures
        forall|k: int| 0 <= k < r@.len() ==> 0 <= #[trigger] r@[k] < vertices@.len() && vertices@[r@[k] as int].is_some(),
        forall|i: int| 0 <= i < vertices@.len() && (#[trigger] vertices@[i]).is_some() ==> r@.contains(i as i64),
        forall|a: int, b: int| 0 <= a < b < r@.len()
            ==> succ_count(vertices@, #[trigger] r@[a] as int) <= succ_count(vertices@, #[trigger] r@[b] as int),
        r@.no_duplicates(),
        forall|a: int, b: int| 0 <= a < b < r@.len() && succ_count(vertices@, #[trigger] r@[a] as int)
            == succ_count(vertices@, #[trigger] r@[b] as int) ==> r@[a] < r@[b],
{
    let order = successor_order(vertices, false);
    let r = identifiers_of(vertices, &order);
    let _n = vertices.len();
    proof {
        assert forall|i: int| 0 <= i < vertices@.len() && (#[trigger] vertices@[i]).is_some() implies r@.contains(i as i64) by {
            assert(order@.contains(i as usize));
        }
        assert forall|a: int, b: int| 0 <= a < r@.len() && 0 <= b < r@.len() && a != b implies r@[a] != r@[b] by {
            if a < b {
                assert(order@[a] != order@[b]);
            } else {
                assert(order@[b] != order@[a]);
            }
        }
    }
    r
}

/// The identifiers of the present vertices, by descending number of successors.
pub fn most_successor_order(vertices: &Vertices) -> (r: Vec<i64>)
    requires
        vertices@.len() <= i64::MAX,
        forall|i: int| 0 <= i < vertices@.len() && (#[trigger] vertices@[i]).is_some() ==> vertices@[i].unwrap().identifier == i,
    ensures
        forall|k: int| 0 <= k < r@.len() ==> 0 <= #[trigger] r@[k] < vertices@.len() && vertices@[r@[k] as int].is_some(),
        forall|i: int| 0 <= i < vertices@.len() && (#[trigger] vertices@[i]).is_some() ==> r@.contains(i as i64),
        forall|a: int, b: int| 0 <= a < b < r@.len()
            ==> succ_count(vertices@, #[trigger] r@[a] as int) >= succ_count(vertices@, #[trigger] r@[b] as int),
        r@.no_duplicates(),
        forall|a: int, b: int| 0 <= a < b < r@.len() && succ_count(vertices@, #[trigger] r@[a] as int)
            == succ_count(vertices@, #[trigger] r@[b] as int) ==> r@[a] < r@[b],
{
    let order = successor_order(vertices, true);
    let r = identifiers_of(vertices, &order);
    let _n = vertices.len();
    proof {
        assert forall|i: int| 0 <= i < vertices@.len() && (#[trigger] vertices@[i]).is_some() implies r@.contains(i as i64) by {
            assert(order@.contains(i as usize));
        }
        assert forall|a: int, b: int| 0 <= a < r@.len() && 0 <= b < r@.len() && a != b implies r@[a] != r@[b] by {
            if a < b {
                assert(order@[a] != order@[b]);
            } else {
                assert(order@[b] != order@[a]);
            }
        }
    }
    r
}

/// The identifiers of the vertices at the positions `order`.
fn identifiers_of(vertices: &Vertices, order: &Vec<usize>) -> (r: Vec<i64>)
    requires
        forall|i: int| 0 <= i < vertices@.len() && (#[trigger] vertices@[i]).is_some() ==> vertices@[i].unwrap().identifier == i,
        forall|k: int| 0 <= k < order@.len() ==> (#[trigger] order@[k] as int) < vertices@.len() && vertices@[order@[k] as int].is_some(),
    ensures
        r@.len() == order@.len(),
        forall|k: int| 0 <= k < r@.len() ==> #[trigger] r@[k] == order@[k] as int,
        forall|i: usize| #[trigger] order@.contains(i) ==> r@.contains(i as i64),
{
    let mut r: Vec<i64> = Vec::new();
    let mut k: usize = 0;
    while k < order.len()
        invariant
            k <= order@.len(),
            r@.len() == k,
            forall|i: int| 0 <= i < vertices@.len() && (#[trigger] vertices@[i]).is_some() ==> vertices@[i].unwrap().identifier == i,
            forall|j: int| 0 <= j < order@.len() ==> (#[trigger] order@[j] as int) < vertices@.len() && vertices@[order@[j] as int].is_some(),
            forall|m: int| 0 <= m < k ==> #[trigger] r@[m] == order@[m] as int,
        decreases order@.len() - k,
    {
        let i = order[k];
        let x = vertices[i].as_ref().unwrap();
        r.push(x.identifier);
        k = k + 1;
    }
    proof {
        assert forall|i: usize| #[trigger] order@.contains(i) implies r@.contains(i as i64) by {
            let m = order@.index_of(i);
            assert(r@[m] == i as i64);
        }
    }
    r
}

/// `top` marks `i` as having the top measure.
pub open spec fn is_top(top: Map<i64, bool>, i: i64) -> bool {
    top.contains_key(i) && top[i]
}

/// The identifiers below `n` of the present vertices that `top` does not
/// mark, ascending.
pub open spec fn initial_queue(vertices: Seq<Option<Vertex>>, top: Map<i64, bool>, n: int) -> Seq<i64>
    decreases n,
{
    if n <= 0 {
        Seq::empty()
    } else {
        let q = initial_queue(vertices, top, n - 1);
        if vertices[n - 1].is_some() && !is_top(top, (n - 1) as i64) { q.push((n - 1) as i64) } else { q }
    }
}

/// `pending` after appending, in order, each of `preds` that is neither in
/// the queue by then nor marked in `top`.
pub open spec fn enqueue(pending: Seq<i64>, preds: Seq<i64>, top: Map<i64, bool>) -> Seq<i64>
    decreases preds.len(),
{
    if preds.len() == 0 {
        pending
    } else {
        let p = enqueue(pending, preds.drop_last(), top);
        let w = preds.last();
        if !p.contains(w) && !is_top(top, w) { p.push(w) } else { p }
    }
}

/// Lifting by a queue of vertices: a vertex whose measure rose puts its
/// predecessors back in the queue.
pub struct PredecessorLiftingStrategy {
    queued: Vec<bool>,
    queue: VecDeque<i64>,
}

impl PredecessorLiftingStrategy {
    /// The queue, front first.
    pub closed spec fn pending(&self) -> Seq<i64> {
        self.queue@
    }

    /// The number of vertices the strategy schedules.
    pub closed spec fn size(&self) -> int {
        self.queued@.len() as int
    }

    /// Vertex `i` is in the queue.
    pub closed spec fn is_queued(&self, i: int) -> bool {
        self.queued@[i]
    }

    /// The flags agree with the queue, which holds each vertex at most once.
    pub closed spec fn wf(&self) -> bool {
        &&& forall|k: int| 0 <= k < self.queue@.len() ==> 0 <= #[trigger] self.queue@[k] < self.queued@.len()
        &&& forall|i: int| 0 <= i < self.queued@.len() ==> (#[trigger] self.queued@[i] <==> self.queue@.contains(i as i64))
        &&& self.queue@.no_duplicates()
        &&& self.queued@.len() <= i64::MAX
    }

    /// A well-formed strategy queues each vertex at most once, exactly the
    /// vertices it marks as queued.
    pub proof fn lemma_queue(&self)
        requires
            self.wf(),
        ensures
            forall|i: int| 0 <= i < self.size() ==> (#[trigger] self.is_queued(i) <==> self.pending().contains(i as i64)),
            forall|k: int| 0 <= k < self.pending().len() ==> 0 <= #[trigger] self.pending()[k] < self.size(),
            self.pending().no_duplicates(),
    {
    }

    /// Queues every present vertex that `top` does not mark, in order.
    pub fn new(vertices: &Vertices, top: &HashMap<i64, bool>) -> (r: Self)
        requires
            vertices@.len() <= i64::MAX,
        ensures
            r.wf(),
            r.size() == vertices@.len(),
            r.pending() == initial_queue(vertices@, top@, vertices@.len() as int),
            forall|i: int| 0 <= i < vertices@.len() ==>
                (#[trigger] r.is_queued(i) <==> vertices@[i].is_some() && !is_top(top@, i as i64)),
    {
        let n = vertices.len();
        let mut queued: Vec<bool> = Vec::new();
        let mut queue: VecDeque<i64> = VecDeque::new();
        let mut i: usize = 0;
        while i < n
            invariant
                n == vertices@.len(),
                n <= i64::MAX,
                i <= n,
                queued@.len() == i,
                forall|k: int| 0 <= k < queue@.len() ==> 0 <= #[trigger] queue@[k] < i,
                forall|j: int| 0 <= j < i ==> (#[trigger] queued@[j] <==> queue@.contains(j as i64)),
                forall|j: int| 0 <= j < i ==> (#[trigger] queued@[j] <==> vertices@[j].is_some() && !is_top(top@, j as i64)),
                queue@.no_duplicates(),
                queue@ == initial_queue(vertices@, top@, i as int),
            decreases n - i,
        {
            let id = i as i64;
            let marked = match top.get(&id) {
                Some(b) => *b,
                None => false,
            };
            assert(marked == is_top(top@, id));
            let take = vertices[i].is_some() && !marked;
            let ghost before = queue@;
            if take {
                queue.push_back(id);
            }
            queued.push(take);
            proof {
                assert forall|j: int| 0 <= j < i + 1 implies (#[trigger] queued@[j] <==> queue@.contains(j as i64)) by {
                    if j < i {
                        if before.contains(j as i64) {
                            let q = before.index_of(j as i64);
                            assert(queue@[q] == j as i64);
                        }
                        if queue@.contains(j as i64) {
                            let q = queue@.index_of(j as i64);
                            if q < before.len() {
                                assert(before[q] == j as i64);
                            }
                        }
                    } else {
                        if take {
                            assert(queue@[queue@.len() - 1] == id);
                        } else {
                            assert(queue@ == before);
                        }
                    }
                }
            }
            i = i + 1;
        }
        PredecessorLiftingStrategy { queued, queue }
    }

    /// Queues each vertex of `predecessors` that is neither queued nor marked
    /// in `top`.
    pub fn lifted(&mut self, predecessors: &Vec<i64>, top: &HashMap<i64, bool>)
        requires
            old(self).wf(),
            forall|k: int| 0 <= k < predecessors@.len() ==> 0 <= #[trigger] predecessors@[k] < old(self).size(),
        ensures
            final(self).wf(),
            final(self).size() == old(self).size(),
            final(self).pending().len() >= old(self).pending().len(),
            final(self).pending() == enqueue(old(self).pending(), predecessors@, top@),
            forall|i: int| 0 <= i < old(self).size() ==> (#[trigger] final(self).is_queued(i) <==> old(self).is_queued(i)
                || (predecessors@.contains(i as i64) && !is_top(top@, i as i64))),
    {
        let qn = self.queued.len();
        let mut k: usize = 0;
        while k < predecessors.len()
            invariant
                k <= predecessors@.len(),
                qn == self.queued@.len(),
                self.wf(),
                self.queued@.len() == old(self).queued@.len(),
                self.queue@.len() >= old(self).queue@.len(),
                self.queue@ == enqueue(old(self).queue@, predecessors@.subrange(0, k as int), top@),
                forall|j: int| 0 <= j < predecessors@.len() ==> 0 <= #[trigger] predecessors@[j] < old(self).queued@.len(),
                forall|i: int| 0 <= i < old(self).queued@.len() ==> (#[trigger] self.queued@[i] <==> old(self).queued@[i]
                    || (predecessors@.subrange(0, k as int).contains(i as i64) && !is_top(top@, i as i64))),
            decreases predecessors@.len() - k,
        {
            let w = predecessors[k];
            let wi = w as usize;
            let marked = match top.get(&w) {
                Some(b) => *b,
                None => false,
            };
            let ghost before = self.queue@;
            let ghost before_flags = self.queued@;
            assert(wi as int == w as int);
            assert(marked == is_top(top@, w));
            proof {
                let sub = predecessors@.subrange(0, k + 1);
                assert(sub.drop_last() =~= predecessors@.subrange(0, k as int));
                assert(sub.last() == w);
                assert(self.queued@[wi as int] == self.queue@.contains(w));
            }
            if !self.queued[wi] && !marked {
                self.queued.set(wi, true);
                self.queue.push_back(w);
                proof {
                    assert(!before.contains(w));
                    assert forall|i: int| 0 <= i < self.queued@.len() implies (#[trigger] self.queued@[i] <==> self.queue@.contains(i as i64)) by {
                        if before.contains(i as i64) {
                            let q = before.index_of(i as i64);
                            assert(self.queue@[q] == i as i64);
                        }
                        if self.queue@.contains(i as i64) {
                            let q = self.queue@.index_of(i as i64);
                            if q < before.len() {
                                assert(before[q] == i as i64);
                            }
                        }
                        if i == wi {
                            assert(self.queue@[self.queue@.len() - 1] == w);
                        }
                    }
                    assert(self.queue@.no_duplicates()) by {
                        assert forall|a: int, b: int| 0 <= a < b < self.queue@.len() implies self.queue@[a] != self.queue@[b] by {
                            if b == self.queue@.len() - 1 {
                                assert(before.contains(self.queue@[a]) || a >= before.len());
                            }
                        }
                    }
                }
            }
            proof {
                let sub = predecessors@.subrange(0, k + 1);
                assert forall|i: int| 0 <= i < old(self).queued@.len() implies (#[trigger] self.queued@[i] <==> old(self).queued@[i]
                    || (sub.contains(i as i64) && !is_top(top@, i as i64))) by {
                    assert(sub[k as int] == w);
                    if i != wi as int {
                        assert(self.queued@[i] == before_flags[i]);
                    }
                    if predecessors@.subrange(0, k as int).contains(i as i64) {
                        let q = predecessors@.subrange(0, k as int).index_of(i as i64);
                        assert(sub[q] == i as i64);
                    }
                    if sub.contains(i as i64) {
                        let q = sub.index_of(i as i64);
                        if q < k {
                            assert(predecessors@.subrange(0, k as int)[q] == i as i64);
                        }
                    }
                }
            }
            k = k + 1;
        }
        assert(predecessors@.subrange(0, predecessors@.len() as int) =~= predecessors@);
    }

    /// Takes the front of the queue.
    pub fn next(&mut self) -> (r: Option<i64>)
        requires
            old(self).wf(),
        ensures
            final(self).wf(),
            final(self).size() == old(self).size(),
            old(self).pending().len() == 0 ==> r.is_none() && final(self).pending() == old(self).pending(),
            old(self).pending().len() > 0 ==> r == Some(old(self).pending()[0])
                && final(self).pending() == old(self).pending().drop_first(),
            forall|i: int| 0 <= i < old(self).size() ==> (#[trigger] final(self).is_queued(i) <==> old(self).is_queued(i)
                && r != Some(i as i64)),
    {
        let ghost before = self.queue@;
        let qn = self.queued.len();
        match self.queue.pop_front() {
            Some(v) => {
                assert(before.contains(v));
                assert(0 <= v < qn);
                self.queued.set(v as usize, false);
                proof {
                    assert(before[0] == v);
                    assert forall|i: int| 0 <= i < self.queued@.len() implies (#[trigger] self.queued@[i] <==> self.queue@.contains(i as i64)) by {
                        if before.contains(i as i64) && i != v {
                            let q = before.index_of(i as i64);
                            assert(q > 0);
                            assert(self.queue@[q - 1] == i as i64);
                        }
                        if self.queue@.contains(i as i64) {
                            let q = self.queue@.index_of(i as i64);
                            assert(before[q + 1] == i as i64);
                            assert(before[0] != before[q + 1]);
                        }
                    }
                    assert(self.queue@.no_duplicates()) by {
                        assert forall|a: int, b: int| 0 <= a < b < self.queue@.len() implies self.queue@[a] != self.queue@[b] by {
                            assert(before[a + 1] != before[b + 1]);
                        }
                    }
                }
                Some(v)
            },
            None => None,
        }
    }
}

/// `data` is at most every stable measure of the game.
pub open spec fn below_stable(data: Seq<Measures>, vertices: Seq<Option<Vertex>>, d: int) -> bool {
    forall|m: Seq<Measures>| m.len() == data.len() && valid_data(m, d) && stable(m, vertices, d)
        ==> #[trigger] pointwise_le(data, m, d)
}

proof fn lemma_zeros_lex(z: Seq<i64>, y: Seq<i64>, i: int, k: int)
    requires
        forall|j: int| i <= j <= k ==> z[j] == 0 && y[j] >= 0,
    ensures
        lex_cmp(z, y, i, k) <= 0,
    decreases k + 1 - i,
{
    if i <= k {
        lemma_zeros_lex(z, y, i + 1, k);
    }
}

/// The all-zero measure is below every stable measure.
proof fn lemma_zeros_below(data: Seq<Measures>, vertices: Seq<Option<Vertex>>, d: int)
    requires
        d >= 1,
        forall|i: int| 0 <= i < data.len() ==> #[trigger] is_zero_measure(data[i], d),
    ensures
        below_stable(data, vertices, d),
{
    assert forall|m: Seq<Measures>| m.len() == data.len() && valid_data(m, d) && stable(m, vertices, d)
        implies #[trigger] pointwise_le(data, m, d) by {
        assert forall|i: int| 0 <= i < data.len() implies #[trigger] m_le(mval(data[i]), mval(m[i]), d - 1) by {
            assert(is_zero_measure(data[i], d));
            assert(valid_measure(mval(m[i]), d));
            if let Some(y) = mval(m[i]) {
                lemma_zeros_lex(data[i].unwrap()@, y, 0, d - 1);
            }
        }
    }
}

/// A lift keeps the measure below every stable measure.
proof fn lemma_lift_keeps_below(before: Seq<Measures>, after: Seq<Measures>, vertices: Seq<Option<Vertex>>, v: int, d: int)
    requires
        below_stable(before, vertices, d),
        0 <= v < vertices.len(),
        after.len() == before.len(),
        forall|m: Seq<Measures>| valid_data(m, d) && pointwise_le(before, m, d)
            && lift_value(m, v, vertices[v].unwrap(), d) == mval(m[v])
            ==> #[trigger] pointwise_le(after, m, d),
    ensures
        below_stable(after, vertices, d),
{
    assert forall|m: Seq<Measures>| m.len() == after.len() && valid_data(m, d) && stable(m, vertices, d)
        implies #[trigger] pointwise_le(after, m, d) by {
        assert(pointwise_le(before, m, d));
        assert(stable_at(m, vertices, v, d));
    }
}

/// Every strategy computes the same measure: a stable measure below every
/// stable measure is the least one, and there is only one such.
pub proof fn lemma_least_stable_unique(r1: Seq<Measures>, r2: Seq<Measures>, vertices: Seq<Option<Vertex>>, d: int)
    requires
        r1.len() == vertices.len(),
        r2.len() == vertices.len(),
        valid_data(r1, d),
        valid_data(r2, d),
        stable(r1, vertices, d),
        stable(r2, vertices, d),
        below_stable(r1, vertices, d),
        below_stable(r2, vertices, d),
    ensures
        forall|i: int| 0 <= i < r1.len() ==> #[trigger] mval(r1[i]) == mval(r2[i]),
{
    assert(pointwise_le(r1, r2, d));
    assert(pointwise_le(r2, r1, d));
    assert forall|i: int| 0 <= i < r1.len() implies #[trigger] mval(r1[i]) == mval(r2[i]) by {
        assert(m_le(mval(r1[i]), mval(r2[i]), d - 1));
        assert(m_le(mval(r2[i]), mval(r1[i]), d - 1));
        lemma_m_le_antisym(mval(r1[i]), mval(r2[i]), d);
    }
}

/// Lifts each vertex of `order` once, in that order. The flag tells whether
/// any lift changed the measure.
fn lift_pass(pm: ProgressMeasure, vertices: &Vertices, d: i64, order: &Vec<usize>) -> (res: (ProgressMeasure, bool))
    requires
        game_ok(vertices@, d as int),
        pm.data@.len() == vertices@.len(),
        valid_data(pm.data@, d as int),
        below_stable(pm.data@, vertices@, d as int),
        forall|k: int| 0 <= k < order@.len() ==> #[trigger] order@[k] < vertices@.len(),
    ensures
        res.0.data@.len() == pm.data@.len(),
        valid_data(res.0.data@, d as int),
        below_stable(res.0.data@, vertices@, d as int),
        !res.1 ==> res.0.data@ == pm.data@,
        !res.1 ==> forall|k: int| 0 <= k < order@.len() ==> stable_at(res.0.data@, vertices@, #[trigger] order@[k] as int, d as int),
        res.1 ==> potential(res.0.data@, d as int, pm.data@.len() as int) < potential(pm.data@, d as int, pm.data@.len() as int),
{
    let ghost n = pm.data@.len() as int;
    let ghost start = pm.data@;
    let mut cur = pm;
    let mut changed = false;
    let mut k: usize = 0;
    while k < order.len()
        invariant
            k <= order@.len(),
            game_ok(vertices@, d as int),
            cur.data@.len() == n,
            n == vertices@.len(),
            n == start.len(),
            valid_data(cur.data@, d as int),
            below_stable(cur.data@, vertices@, d as int),
            forall|j: int| 0 <= j < order@.len() ==> #[trigger] order@[j] < vertices@.len(),
            !changed ==> cur.data@ == start,
            !changed ==> forall|j: int| 0 <= j < k ==> stable_at(cur.data@, vertices@, #[trigger] order@[j] as int, d as int),
            changed ==> potential(cur.data@, d as int, n) < potential(start, d as int, n),
        decreases order@.len() - k,
    {
        let v = order[k];
        proof {
            assert(vertex_ok(vertices@, v as int, d as int));
            assert(measures_have_len(cur.data@, d as int)) by {
                assert forall|i: int| 0 <= i < cur.data@.len() && (#[trigger] cur.data@[i]).is_some()
                    implies cur.data@[i].unwrap()@.len() == d by {
                    assert(valid_measure(mval(cur.data@[i]), d as int));
                }
            }
            lemma_lift_value_valid(cur.data@, v as int, vertices@[v as int].unwrap(), d as int);
        }
        let ghost before = cur.data@;
        let (next, upd) = cur.lift_v(v as i64, vertices, d);
        proof {
            lemma_lift_keeps_below(before, next.data@, vertices@, v as int, d as int);
            assert(valid_data(next.data@, d as int)) by {
                assert forall|i: int| 0 <= i < next.data@.len() implies valid_measure(mval(#[trigger] next.data@[i]), d as int) by {
                    if i != v {
                        assert(next.data@[i] == before[i]);
                    }
                }
            }
        }
        if upd {
            changed = true;
        }
        cur = next;
        k = k + 1;
    }
    (cur, changed)
}

/// Lifts in passes over `order` until a pass changes nothing; `order` must
/// name every vertex.
pub fn solve_in_order(vertices: &Vertices, d: i64, order: &Vec<usize>) -> (r: ProgressMeasure)
    requires
        game_ok(vertices@, d as int),
        forall|k: int| 0 <= k < order@.len() ==> #[trigger] order@[k] < vertices@.len(),
        forall|v: usize| (v as int) < vertices@.len() ==> #[trigger] order@.contains(v),
    ensures
        r.data@.len() == vertices@.len(),
        valid_data(r.data@, d as int),
        stable(r.data@, vertices@, d as int),
        below_stable(r.data@, vertices@, d as int),
{
    let nv = vertices.len();
    let mut pm = ProgressMeasure::new(nv as i64, d);
    let ghost n = vertices@.len() as int;
    proof {
        assert forall|i: int| 0 <= i < pm.data@.len() implies valid_measure(mval(#[trigger] pm.data@[i]), d as int) by {
            assert(crate::progress_measure::is_zero_measure(pm.data@[i], d as int));
        }
        lemma_zeros_below(pm.data@, vertices@, d as int);
    }
    loop
        invariant
            game_ok(vertices@, d as int),
            forall|k: int| 0 <= k < order@.len() ==> #[trigger] order@[k] < vertices@.len(),
            forall|v: usize| (v as int) < vertices@.len() ==> #[trigger] order@.contains(v),
            pm.data@.len() == n,
            n == vertices@.len(),
            nv == n,
            valid_data(pm.data@, d as int),
            below_stable(pm.data@, vertices@, d as int),
        decreases potential(pm.data@, d as int, n),
    {
        proof { lemma_potential_nonneg(pm.data@, d as int, n); }
        let (next, upd) = lift_pass(pm, vertices, d, order);
        pm = next;
        if !upd {
            proof {
                assert forall|v: int| 0 <= v < vertices@.len() implies #[trigger] stable_at(pm.data@, vertices@, v, d as int) by {
                    assert(order@.contains(v as usize));
                    let k = order@.index_of(v as usize);
                    assert(order@[k] == v as usize);
                }
            }
            return pm;
        }
        proof { lemma_potential_nonneg(pm.data@, d as int, n); }
    }
}

/// The `k`-th successor of vertex `u`.
pub open spec fn succ_at(vertices: Seq<Option<Vertex>>, u: int, k: int) -> int {
    vertices[u].unwrap().successors@[k] as int
}

/// The number of successors of the present vertex `u`.
pub open spec fn succ_len(vertices: Seq<Option<Vertex>>, u: int) -> int {
    vertices[u].unwrap().successors@.len() as int
}

/// For each vertex, the vertices that have it as a successor.
fn predecessor_lists(vertices: &Vertices) -> (r: Vec<Vec<i64>>)
    requires
        vertices@.len() <= i64::MAX,
        forall|u: int| 0 <= u < vertices@.len() ==> (#[trigger] vertices@[u]).is_some(),
        forall|u: int, k: int| 0 <= u < vertices@.len() && 0 <= k < succ_len(vertices@, u)
            ==> 0 <= #[trigger] succ_at(vertices@, u, k) < vertices@.len(),
    ensures
        r@.len() == vertices@.len(),
        forall|v: int, k: int| 0 <= v < r@.len() && 0 <= k < r@[v]@.len() ==> 0 <= #[trigger] r@[v]@[k] < vertices@.len(),
        forall|u: int, k: int| 0 <= u < vertices@.len() && 0 <= k < succ_len(vertices@, u)
            ==> r@[#[trigger] succ_at(vertices@, u, k)]@.contains(u as i64),
{
    let n = vertices.len();
    let mut r: Vec<Vec<i64>> = Vec::new();
    while r.len() < n
        invariant
            r@.len() <= n,
            forall|v: int| 0 <= v < r@.len() ==> (#[trigger] r@[v])@.len() == 0,
        decreases n - r@.len(),
    {
        r.push(Vec::new());
    }
    let mut u: usize = 0;
    while u < n
        invariant
            n == vertices@.len(),
            n <= i64::MAX,
            u <= n,
            r@.len() == n,
            forall|u2: int| 0 <= u2 < vertices@.len() ==> (#[trigger] vertices@[u2]).is_some(),
            forall|u2: int, k: int| 0 <= u2 < vertices@.len() && 0 <= k < succ_len(vertices@, u2)
                ==> 0 <= #[trigger] succ_at(vertices@, u2, k) < vertices@.len(),
            forall|v: int, k: int| 0 <= v < r@.len() && 0 <= k < r@[v]@.len() ==> 0 <= #[trigger] r@[v]@[k] < n,
            forall|u2: int, k: int| 0 <= u2 < u && 0 <= k < succ_len(vertices@, u2)
                ==> r@[#[trigger] succ_at(vertices@, u2, k)]@.contains(u2 as i64),
        decreases n - u,
    {
        let x = vertices[u].as_ref().unwrap();
        let succ = &x.successors;
        let mut k: usize = 0;
        while k < succ.len()
            invariant
                n == vertices@.len(),
                n <= i64::MAX,
                u < n,
                r@.len() == n,
                vertices@[u as int] == Some(*x),
                *succ == x.successors,
                k <= succ@.len(),
                forall|u2: int, j: int| 0 <= u2 < vertices@.len() && 0 <= j < succ_len(vertices@, u2)
                    ==> 0 <= #[trigger] succ_at(vertices@, u2, j) < vertices@.len(),
                forall|v: int, j: int| 0 <= v < r@.len() && 0 <= j < r@[v]@.len() ==> 0 <= #[trigger] r@[v]@[j] < n,
                forall|u2: int, j: int| 0 <= u2 < u && 0 <= j < succ_len(vertices@, u2)
                    ==> r@[#[trigger] succ_at(vertices@, u2, j)]@.contains(u2 as i64),
                forall|j: int| 0 <= j < k ==> r@[#[trigger] succ_at(vertices@, u as int, j)]@.contains(u as i64),
            decreases succ@.len() - k,
        {
            assert(succ_at(vertices@, u as int, k as int) == succ@[k as int]);
            let w = succ[k] as usize;
            let ghost before = r@;
            r[w].push(u as i64);
            proof {
                assert forall|v: int, j: int| 0 <= v < r@.len() && 0 <= j < r@[v]@.len() implies 0 <= #[trigger] r@[v]@[j] < n by {
                    if v != w as int {
                        assert(r@[v] == before[v]);
                    } else if j < before[v]@.len() {
                        assert(r@[v]@[j] == before[v]@[j]);
                    }
                }
                assert forall|u2: int, j: int| 0 <= u2 < u && 0 <= j < succ_len(vertices@, u2)
                    implies r@[#[trigger] succ_at(vertices@, u2, j)]@.contains(u2 as i64) by {
                    let t = succ_at(vertices@, u2, j);
                    let q = before[t]@.index_of(u2 as i64);
                    assert(r@[t]@[q] == u2 as i64);
                }
                assert forall|j: int| 0 <= j < k + 1 implies r@[#[trigger] succ_at(vertices@, u as int, j)]@.contains(u as i64) by {
                    let t = succ_at(vertices@, u as int, j);
                    if j < k {
                        let q = before[t]@.index_of(u as i64);
                        assert(r@[t]@[q] == u as i64);
                    } else {
                        assert(r@[t]@[r@[t]@.len() - 1] == u as i64);
                    }
                }
            }
            k = k + 1;
        }
        u = u + 1;
    }
    r
}

/// Solves the game with the predecessor queue: starts with every vertex
/// queued and, after each lift that raises a measure, queues again the
/// predecessors that are not top. Stops when the queue is empty.
fn solve_by_predecessors(vertices: &Vertices, d: i64) -> (r: ProgressMeasure)
    requires
        game_ok(vertices@, d as int),
    ensures
        r.data@.len() == vertices@.len(),
        valid_data(r.data@, d as int),
        stable(r.data@, vertices@, d as int),
        below_stable(r.data@, vertices@, d as int),
{
    let nv = vertices.len();
    let ghost n = nv as int;
    proof {
        assert forall|u: int| 0 <= u < vertices@.len() implies (#[trigger] vertices@[u]).is_some() by {
            assert(vertex_ok(vertices@, u, d as int));
        }
        assert forall|u: int, k: int| 0 <= u < vertices@.len() && 0 <= k < succ_len(vertices@, u)
            implies 0 <= #[trigger] succ_at(vertices@, u, k) < vertices@.len() by {
            assert(vertex_ok(vertices@, u, d as int));
        }
    }
    let preds = predecessor_lists(vertices);
    let mut pm = ProgressMeasure::new(nv as i64, d);
    proof {
        assert forall|i: int| 0 <= i < pm.data@.len() implies valid_measure(mval(#[trigger] pm.data@[i]), d as int) && pm.data@[i].is_some() by {
            assert(crate::progress_measure::is_zero_measure(pm.data@[i], d as int));
        }
        lemma_zeros_below(pm.data@, vertices@, d as int);
    }
    let mut top: HashMap<i64, bool> = HashMap::new();
    let mut strategy = PredecessorLiftingStrategy::new(vertices, &top);
    proof {
        assert forall|u: int| 0 <= u < n implies #[trigger] strategy.is_queued(u) || stable_at(pm.data@, vertices@, u, d as int) by {
            assert(vertex_ok(vertices@, u, d as int));
        }
    }
    loop
        invariant
            game_ok(vertices@, d as int),
            nv == n,
            n == vertices@.len(),
            pm.data@.len() == n,
            valid_data(pm.data@, d as int),
            below_stable(pm.data@, vertices@, d as int),
            preds@.len() == n,
            forall|v: int, k: int| 0 <= v < preds@.len() && 0 <= k < preds@[v]@.len() ==> 0 <= #[trigger] preds@[v]@[k] < n,
            forall|u: int, k: int| 0 <= u < vertices@.len() && 0 <= k < succ_len(vertices@, u)
                ==> preds@[#[trigger] succ_at(vertices@, u, k)]@.contains(u as i64),
            strategy.wf(),
            strategy.size() == n,
            forall|i: int| 0 <= i < n ==> (is_top(top@, i as i64) <==> (#[trigger] pm.data@[i]).is_none()),
            forall|u: int| 0 <= u < n ==> #[trigger] strategy.is_queued(u) || stable_at(pm.data@, vertices@, u, d as int),
        decreases potential(pm.data@, d as int, n), strategy.pending().len(),
    {
        proof { lemma_potential_nonneg(pm.data@, d as int, n); }
        let ghost q0 = strategy.pending();
        match strategy.next() {
            None => {
                proof {
                    assert forall|u: int| 0 <= u < vertices@.len() implies #[trigger] stable_at(pm.data@, vertices@, u, d as int) by {
                        assert(!strategy.is_queued(u)) by {
                            if strategy.is_queued(u) {
                                assert(q0.len() == 0);
                            }
                        }
                    }
                }
                return pm;
            },
            Some(v) => {
                let vi = v as usize;
                proof {
                    assert(q0.contains(v));
                    assert(vertex_ok(vertices@, v as int, d as int));
                    assert(measures_have_len(pm.data@, d as int)) by {
                        assert forall|i: int| 0 <= i < pm.data@.len() && (#[trigger] pm.data@[i]).is_some()
                            implies pm.data@[i].unwrap()@.len() == d by {
                            assert(valid_measure(mval(pm.data@[i]), d as int));
                        }
                    }
                    lemma_lift_value_valid(pm.data@, v as int, vertices@[v as int].unwrap(), d as int);
                }
                let ghost before = pm.data@;
                let ghost queued_mid = strategy;
                let (next, upd) = pm.lift_v(v, vertices, d);
                proof {
                    lemma_lift_keeps_below(before, next.data@, vertices@, v as int, d as int);
                    assert(valid_data(next.data@, d as int)) by {
                        assert forall|i: int| 0 <= i < next.data@.len() implies valid_measure(mval(#[trigger] next.data@[i]), d as int) by {
                            if i != v {
                                assert(next.data@[i] == before[i]);
                            }
                        }
                    }
                }
                pm = next;
                proof { lemma_potential_nonneg(pm.data@, d as int, n); }
                if upd {
                    if pm.data[vi].is_none() {
                        top.insert(v, true);
                    }
                    proof {
                        assert(before[v as int].is_some());
                        assert forall|i: int| 0 <= i < n implies (is_top(top@, i as i64) <==> (#[trigger] pm.data@[i]).is_none()) by {
                            if i != v {
                                assert(pm.data@[i] == before[i]);
                            }
                        }
                    }
                    strategy.lifted(&preds[vi], &top);
                    proof {
                        let vx = vertices@[v as int].unwrap();
                        assert forall|u: int| 0 <= u < n implies #[trigger] strategy.is_queued(u) || stable_at(pm.data@, vertices@, u, d as int) by {
                            if !strategy.is_queued(u) {
                                let ux = vertices@[u].unwrap();
                                assert(vertex_ok(vertices@, u, d as int));
                                if preds@[v as int]@.contains(u as i64) {
                                    assert(is_top(top@, u as i64));
                                    assert(pm.data@[u].is_none());
                                } else {
                                    assert forall|k: int| 0 <= k < ux.successors@.len() implies #[trigger] ux.successors@[k] != v by {
                                        if ux.successors@[k] == v {
                                            assert(succ_at(vertices@, u, k) == v);
                                            assert(preds@[v as int]@.contains(u as i64));
                                        }
                                    }
                                    if u != v {
                                        assert(!queued_mid.is_queued(u));
                                        assert(stable_at(before, vertices@, u, d as int));
                                        assert forall|k: int| 0 <= k < ux.successors@.len() implies
                                            mval(pm.data@[#[trigger] ux.successors@[k] as int]) == mval(before[ux.successors@[k] as int]) by {
                                            assert(pm.data@[ux.successors@[k] as int] == before[ux.successors@[k] as int]);
                                        }
                                        crate::progress_measure::lemma_best_prog_frame(pm.data@, before, ux.successors@,
                                            ux.priority as int, d as int, ux.owner == 0, ux.successors@.len() as int);
                                        assert(pm.data@[u] == before[u]);
                                    }
                                }
                            }
                        }
                    }
                } else {
                    proof {
                        assert forall|u: int| 0 <= u < n implies #[trigger] strategy.is_queued(u) || stable_at(pm.data@, vertices@, u, d as int) by {
                            if u != v {
                                assert(queued_mid.is_queued(u) == strategy.is_queued(u));
                            }
                        }
                    }
                }
            },
        }
    }
}

/// How many halvings bring `c` to zero.
pub open spec fn halvings(c: int) -> int
    decreases c,
{
    if c <= 0 { 0 } else { 1 + halvings(c / 2) }
}

/// What the focus list still owes the loop: one plus the halvings of each credit.
pub open spec fn focus_weight(s: Seq<(i64, i64)>) -> int
    decreases s.len(),
{
    if s.len() == 0 { 0 } else { halvings(s[0].1 as int) + 1 + focus_weight(s.drop_first()) }
}

proof fn lemma_focus_weight_push(s: Seq<(i64, i64)>, x: (i64, i64))
    ensures
        focus_weight(s.push(x)) == focus_weight(s) + halvings(x.1 as int) + 1,
    decreases s.len(),
{
    let t = s.push(x);
    assert(t.len() > 0);
    assert(focus_weight(t) == halvings(t[0].1 as int) + 1 + focus_weight(t.drop_first()));
    if s.len() > 0 {
        assert(t[0] == s[0]);
        assert(t.drop_first() =~= s.drop_first().push(x));
        lemma_focus_weight_push(s.drop_first(), x);
    } else {
        assert(t[0] == x);
        assert(t.drop_first() =~= Seq::<(i64, i64)>::empty());
        assert(focus_weight(t.drop_first()) == 0);
    }
}

proof fn lemma_halvings_nonneg(c: int)
    ensures
        halvings(c) >= 0,
    decreases c,
{
    if c > 0 {
        lemma_halvings_nonneg(c / 2);
    }
}

proof fn lemma_focus_weight_nonneg(s: Seq<(i64, i64)>)
    ensures
        focus_weight(s) >= 0,
    decreases s.len(),
{
    if s.len() > 0 {
        lemma_halvings_nonneg(s[0].1 as int);
        lemma_focus_weight_nonneg(s.drop_first());
    }
}

/// The vertex `j + 1` places before `next` when going round `0..n`.
pub open spec fn behind(next: int, j: int, n: int) -> int {
    if next >= j + 1 { next - j - 1 } else { next + n - j - 1 }
}

/// Lifting that alternates sweeps over all vertices with rounds over a list
/// of recently lifted vertices, each with a credit.
pub struct FocusListLiftingStrategy {
    phase: i64,
    num_attempts: i64,
    num_failed: i64,
    next_vertex: i64,
    focus_list: VecDeque<(i64, i64)>,
}

impl FocusListLiftingStrategy {
    /// In the sweep, at vertex 0, with an empty list.
    pub fn new() -> (r: Self)
        ensures
            r.fresh(),
    {
        FocusListLiftingStrategy { phase: 1, num_attempts: 0, num_failed: 0, next_vertex: 0, focus_list: VecDeque::new() }
    }

    /// The state of a strategy that has not run.
    pub closed spec fn fresh(&self) -> bool {
        &&& self.phase == 1
        &&& self.num_attempts == 0
        &&& self.num_failed == 0
        &&& self.next_vertex == 0
        &&& self.focus_list@.len() == 0
    }

    /// Lifts until a sweep over all vertices in a row lifts none: in the
    /// sweep each raised vertex joins the list with credit 2; after a full
    /// sweep or when the list holds `max_size` vertices, the list is worked
    /// round: a raised vertex gains 2, another loses half its credit and
    /// leaves at zero; after `max_attempts` lifts or when the list empties,
    /// the sweep resumes.
    pub fn run(
        &mut self,
        progress_measure: &mut ProgressMeasure,
        vertices: &Vertices,
        d: i64,
        max_size: usize,
        max_attempts: i64,
    )
        requires
            old(self).fresh(),
            game_ok(vertices@, d as int),
            old(progress_measure).data@.len() == vertices@.len(),
            valid_data(old(progress_measure).data@, d as int),
            below_stable(old(progress_measure).data@, vertices@, d as int),
        ensures
            final(progress_measure).data@.len() == vertices@.len(),
            valid_data(final(progress_measure).data@, d as int),
            below_stable(final(progress_measure).data@, vertices@, d as int),
            stable(final(progress_measure).data@, vertices@, d as int),
    {
        let nv = vertices.len();
        let ghost n = nv as int;
        if nv == 0 {
            return;
        }
        let v_count = nv as i64;
        loop
            invariant_except_break
                self.num_failed < n,
            invariant
                game_ok(vertices@, d as int),
                nv == n,
                n == vertices@.len(),
                v_count == n,
                n >= 1,
                progress_measure.data@.len() == n,
                valid_data(progress_measure.data@, d as int),
                below_stable(progress_measure.data@, vertices@, d as int),
                self.phase == 1 || self.phase == 2,
                0 <= self.next_vertex < n,
                0 <= self.num_failed <= n,
                0 <= self.num_attempts,
                forall|k: int| 0 <= k < self.focus_list@.len() ==> 0 <= (#[trigger] self.focus_list@[k]).0 < n && self.focus_list@[k].1 >= 0,
                forall|j: int| 0 <= j < self.num_failed ==> #[trigger] stable_at(progress_measure.data@, vertices@,
                    behind(self.next_vertex as int, j, n), d as int),
            ensures
                progress_measure.data@.len() == n,
                valid_data(progress_measure.data@, d as int),
                below_stable(progress_measure.data@, vertices@, d as int),
                stable(progress_measure.data@, vertices@, d as int),
            decreases
                potential(progress_measure.data@, d as int, n),
                n - self.num_failed,
                if self.phase == 2 { focus_weight(self.focus_list@) + 1 } else { 0 },
        {
            proof {
                lemma_potential_nonneg(progress_measure.data@, d as int, n);
                lemma_focus_weight_nonneg(self.focus_list@);
            }
            if self.num_attempts < i64::MAX {
                self.num_attempts = self.num_attempts + 1;
            }
            if self.phase == 1 {
                let u = self.next_vertex;
                let did_update = lift_in_place(progress_measure, vertices, d, u);
                if did_update {
                    self.num_failed = 0;
                    self.focus_list.push_back((u, 2));
                } else {
                    self.num_failed = self.num_failed + 1;
                }
                let ghost old_next = self.next_vertex as int;
                self.next_vertex = if u + 1 == v_count { 0 } else { u + 1 };
                proof {
                    if !did_update {
                        assert forall|j: int| 0 <= j < self.num_failed implies #[trigger] stable_at(progress_measure.data@, vertices@,
                            behind(self.next_vertex as int, j, n), d as int) by {
                            if j > 0 {
                                assert(behind(self.next_vertex as int, j, n) == behind(old_next, j - 1, n));
                            } else {
                                assert(behind(self.next_vertex as int, 0, n) == u);
                            }
                        }
                    }
                }
                if self.num_failed == v_count {
                    proof {
                        assert forall|w: int| 0 <= w < vertices@.len() implies #[trigger] stable_at(progress_measure.data@, vertices@, w, d as int) by {
                            let j = if self.next_vertex >= w + 1 { self.next_vertex - w - 1 } else { self.next_vertex + n - w - 1 };
                            assert(behind(self.next_vertex as int, j, n) == w);
                        }
                    }
                    break;
                }
                if self.num_attempts == v_count || self.focus_list.len() == max_size {
                    self.phase = 2;
                    self.num_attempts = 0;
                }
            } else {
                let ghost before_list = self.focus_list@;
                match self.focus_list.pop_front() {
                    Some((v, credit)) => {
                        proof {
                            assert(before_list[0] == (v, credit));
                            assert(before_list.drop_first() == self.focus_list@);
                            assert(focus_weight(before_list) == halvings(credit as int) + 1 + focus_weight(self.focus_list@));
                            lemma_focus_weight_nonneg(self.focus_list@);
                            lemma_halvings_nonneg(credit as int);
                        }
                        let did_update = lift_in_place(progress_measure, vertices, d, v);
                        if did_update {
                            self.num_failed = 0;
                            let more = if credit < i64::MAX - 2 { credit + 2 } else { credit };
                            self.focus_list.push_back((v, more));
                        } else if credit > 0 {
                            self.focus_list.push_back((v, credit / 2));
                            proof {
                                lemma_focus_weight_push(before_list.drop_first(), (v, (credit / 2) as i64));
                                assert(halvings(credit as int) == 1 + halvings((credit / 2) as int));
                            }
                        }
                        if self.focus_list.len() == 0 || self.num_attempts == max_attempts {
                            self.focus_list.clear();
                            self.phase = 1;
                            self.num_attempts = 0;
                        }
                    },
                    None => {
                        self.phase = 1;
                        self.num_attempts = 0;
                    },
                }
            }
            proof {
                lemma_potential_nonneg(progress_measure.data@, d as int, n);
                lemma_focus_weight_nonneg(self.focus_list@);
            }
        }
    }
}

/// Lifts `v` in place; tells whether its measure changed.
fn lift_in_place(pm: &mut ProgressMeasure, vertices: &Vertices, d: i64, v: i64) -> (r: bool)
    requires
        game_ok(vertices@, d as int),
        old(pm).data@.len() == vertices@.len(),
        valid_data(old(pm).data@, d as int),
        below_stable(old(pm).data@, vertices@, d as int),
        0 <= v < vertices@.len(),
    ensures
        final(pm).data@.len() == old(pm).data@.len(),
        valid_data(final(pm).data@, d as int),
        below_stable(final(pm).data@, vertices@, d as int),
        !r ==> final(pm).data@ == old(pm).data@,
        !r ==> stable_at(old(pm).data@, vertices@, v as int, d as int),
        r ==> potential(final(pm).data@, d as int, old(pm).data@.len() as int)
            < potential(old(pm).data@, d as int, old(pm).data@.len() as int),
{
    let ghost n = old(pm).data@.len() as int;
    proof {
        assert(vertex_ok(vertices@, v as int, d as int));
        assert(measures_have_len(pm.data@, d as int)) by {
            assert forall|i: int| 0 <= i < pm.data@.len() && (#[trigger] pm.data@[i]).is_some()
                implies pm.data@[i].unwrap()@.len() == d by {
                assert(valid_measure(mval(pm.data@[i]), d as int));
            }
        }
        lemma_lift_value_valid(pm.data@, v as int, vertices@[v as int].unwrap(), d as int);
    }
    let ghost before = pm.data@;
    let mut cur = ProgressMeasure { data: Vec::new() };
    core::mem::swap(pm, &mut cur);
    let (next, upd) = cur.lift_v(v, vertices, d);
    proof {
        lemma_lift_keeps_below(before, next.data@, vertices@, v as int, d as int);
        assert(valid_data(next.data@, d as int)) by {
            assert forall|i: int| 0 <= i < next.data@.len() implies valid_measure(mval(#[trigger] next.data@[i]), d as int) by {
                if i != v {
                    assert(next.data@[i] == before[i]);
                }
            }
        }
    }
    *pm = next;
    upd
}

/// Whether `vertices` and `d` form a game that `solve` accepts.
pub fn check_game(vertices: &Vertices, d: i64) -> (r: bool)
    ensures
        r == game_ok(vertices@, d as int),
{
    let n = vertices.len();
    if d < 1 || (d as u64) > (usize::MAX as u64) || (n as u64) > (i64::MAX as u64) {
        return false;
    }
    let mut v: usize = 0;
    while v < n
        invariant
            n == vertices@.len(),
            n <= i64::MAX,
            1 <= d,
            v <= n,
            forall|u: int| 0 <= u < v ==> #[trigger] vertex_ok(vertices@, u, d as int),
        decreases n - v,
    {
        match &vertices[v] {
            None => {
                assert(!vertex_ok(vertices@, v as int, d as int));
                return false;
            },
            Some(x) => {
                if x.identifier != v as i64 || x.priority < 0 || x.priority >= d || x.successors.len() == 0 {
                    assert(!vertex_ok(vertices@, v as int, d as int));
                    return false;
                }
                let mut k: usize = 0;
                while k < x.successors.len()
                    invariant
                        n == vertices@.len(),
                        v < n,
                        vertices@[v as int] == Some(*x),
                        k <= x.successors@.len(),
                        forall|j: int| 0 <= j < k ==> 0 <= #[trigger] x.successors@[j] < n,
                    decreases x.successors@.len() - k,
                {
                    let w = x.successors[k];
                    if w < 0 || w as u64 >= n as u64 {
                        assert(vertices@[v as int].unwrap().successors@[k as int] == w);
                        assert(!vertex_ok(vertices@, v as int, d as int));
                        return false;
                    }
                    k = k + 1;
                }
                assert(vertex_ok(vertices@, v as int, d as int));
            },
        }
        v = v + 1;
    }
    true
}

/// How the lifting loop picks the next vertex.
pub enum LiftingStrategy {
    /// Identifiers `0, 1, ..., V - 1`.
    InputOrder,
    /// A permutation of the identifiers fixed by the seed.
    RandomOrder(u64),
    /// Ascending number of successors.
    LeastSuccessors,
    /// Descending number of successors.
    MostSuccessors,
    /// A queue, refilled with the predecessors of each vertex whose measure rose.
    PredecessorQueue,
    /// Sweeps and a focus list of at most the given size, worked round for
    /// at most the given number of lifts.
    FocusList(usize, i64),
}

/// The identifiers `0..n` in order.
fn input_order(n: usize) -> (r: Vec<usize>)
    ensures
        forall|k: int| 0 <= k < r@.len() ==> #[trigger] r@[k] < n,
        forall|v: usize| v < n ==> #[trigger] r@.contains(v),
{
    let mut r: Vec<usize> = Vec::new();
    let mut i: usize = 0;
    while i < n
        invariant
            i <= n,
            r@.len() == i,
            forall|k: int| 0 <= k < i ==> #[trigger] r@[k] == k,
        decreases n - i,
    {
        r.push(i);
        i = i + 1;
    }
    proof {
        assert forall|v: usize| v < n implies #[trigger] r@.contains(v) by {
            assert(r@[v as int] == v);
        }
    }
    r
}

/// The seeded permutation of `0..n`.
pub fn random_order(n: usize, seed: u64) -> (r: Vec<usize>)
    ensures
        r@ == permutation_of(n as u64, seed).map_values(|x: u64| x as usize),
        forall|k: int| 0 <= k < r@.len() ==> #[trigger] r@[k] < n,
        forall|v: usize| v < n ==> #[trigger] r@.contains(v),
{
    let p = keyed_permutation(n as u64, seed);
    let mut r: Vec<usize> = Vec::new();
    let mut k: usize = 0;
    while k < p.len()
        invariant
            k <= p@.len(),
            r@.len() == k,
            forall|j: int| 0 <= j < p@.len() ==> #[trigger] p@[j] < n as u64,
            forall|j: int| 0 <= j < k ==> #[trigger] r@[j] == p@[j] as usize && r@[j] < n,
            p@ == permutation_of(n as u64, seed),
        decreases p@.len() - k,
    {
        r.push(p[k] as usize);
        k = k + 1;
    }
    assert(r@ =~= permutation_of(n as u64, seed).map_values(|x: u64| x as usize));
    proof {
        assert forall|v: usize| v < n implies #[trigger] r@.contains(v) by {
            assert(p@.contains(v as u64));
            let j = p@.index_of(v as u64);
            assert(r@[j] == v);
        }
    }
    r
}

/// Solves the game: lifts from the all-zero measure until stable, visiting
/// vertices as `strategy` says.
pub fn solve(vertices: &Vertices, d: i64, strategy: LiftingStrategy) -> (r: ProgressMeasure)
    requires
        game_ok(vertices@, d as int),
    ensures
        r.data@.len() == vertices@.len(),
        valid_data(r.data@, d as int),
        stable(r.data@, vertices@, d as int),
        below_stable(r.data@, vertices@, d as int),
{
    let n = vertices.len();
    if let LiftingStrategy::PredecessorQueue = strategy {
        return solve_by_predecessors(vertices, d);
    }
    if let LiftingStrategy::FocusList(max_size, max_attempts) = strategy {
        let mut pm = ProgressMeasure::new(n as i64, d);
        proof {
            assert forall|i: int| 0 <= i < pm.data@.len() implies valid_measure(mval(#[trigger] pm.data@[i]), d as int) by {
                assert(crate::progress_measure::is_zero_measure(pm.data@[i], d as int));
            }
            lemma_zeros_below(pm.data@, vertices@, d as int);
        }
        let mut focus = FocusListLiftingStrategy::new();
        focus.run(&mut pm, vertices, d, max_size, max_attempts);
        return pm;
    }
    let order = match strategy {
        LiftingStrategy::InputOrder => input_order(n),
        LiftingStrategy::RandomOrder(seed) => random_order(n, seed),
        LiftingStrategy::LeastSuccessors => successor_order(vertices, false),
        LiftingStrategy::MostSuccessors => successor_order(vertices, true),
        _ => input_order(n),
    };
    proof {
        assert forall|v: usize| (v as int) < vertices@.len() implies #[trigger] order@.contains(v) by {
            assert(vertex_ok(vertices@, v as int, d as int));
        }
    }
    solve_in_order(vertices, d, &order)
}

} // verus!
