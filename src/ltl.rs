use vstd::prelude::*;
use std::collections::HashSet;

verus! {

broadcast use vstd::std_specs::hash::group_hash_axioms;

/// A labelled transition system over the states `0..nr_of_states`.
pub struct Ltl {
    pub first_state: i64,
    /// For each state, its outgoing transitions as `(label, target)`, each once.
    pub transitions: Vec<Vec<(String, i64)>>,
    pub nr_of_states: i64,
}

/// Why a transition was refused.
#[derive(Debug, PartialEq, Eq, Clone, Copy, Structural)]
pub enum TransitionError {
    /// The start state is not a state of the system.
    StartState,
    /// The end state is not a state of the system.
    EndState,
}

/// The states whose flag is set in `v`.
pub open spec fn bits(v: Seq<bool>) -> Set<i64> {
    Set::new(|s: i64| 0 <= s < v.len() && v[s as int])
}

impl Ltl {
    /// Every transition stays within the states.
    pub open spec fn wf(&self) -> bool {
        &&& 0 <= self.nr_of_states
        &&& self.transitions@.len() == self.nr_of_states
        &&& forall|s: int, k: int| 0 <= s < self.transitions@.len() && 0 <= k < self.transitions@[s]@.len()
            ==> 0 <= #[trigger] self.transitions@[s]@[k].1 < self.nr_of_states
        &&& forall|s: int, j: int, k: int| 0 <= s < self.transitions@.len() && 0 <= j < k < self.transitions@[s]@.len()
            ==> (#[trigger] self.transitions@[s]@[j]).0@ != (#[trigger] self.transitions@[s]@[k]).0@
                || self.transitions@[s]@[j].1 != self.transitions@[s]@[k].1
    }

    /// `s --a--> t` is a transition.
    pub open spec fn has_edge(&self, s: i64, a: Seq<char>, t: i64) -> bool {
        &&& 0 <= s < self.transitions@.len()
        &&& exists|k: int| 0 <= k < self.transitions@[s as int]@.len()
            && (#[trigger] self.transitions@[s as int]@[k]).0@ == a && self.transitions@[s as int]@[k].1 == t
    }

    /// All states.
    pub open spec fn states(&self) -> Set<i64> {
        Set::new(|s: i64| 0 <= s < self.nr_of_states)
    }

    /// `s` has some `a`-transition into `f`.
    pub open spec fn some_edge_into(&self, s: i64, a: Seq<char>, f: Set<i64>) -> bool {
        exists|t: i64| #[trigger] self.has_edge(s, a, t) && f.contains(t)
    }

    /// All `a`-transitions of `s` go into `f`.
    pub open spec fn all_edges_into(&self, s: i64, a: Seq<char>, f: Set<i64>) -> bool {
        forall|t: i64| #[trigger] self.has_edge(s, a, t) ==> f.contains(t)
    }

    /// The states with some `a`-transition into `f`.
    pub open spec fn pre_exists(&self, a: Seq<char>, f: Set<i64>) -> Set<i64> {
        Set::new(|s: i64| 0 <= s < self.nr_of_states && self.some_edge_into(s, a, f))
    }

    /// The states all of whose `a`-transitions go into `f`.
    pub open spec fn pre_forall(&self, a: Seq<char>, f: Set<i64>) -> Set<i64> {
        Set::new(|s: i64| 0 <= s < self.nr_of_states && self.all_edges_into(s, a, f))
    }

    /// Every state has all its `a`-transitions into the set of all states.
    pub proof fn lemma_pre_forall_all(&self, a: Seq<char>)
        requires
            self.wf(),
        ensures
            self.pre_forall(a, self.states()) == self.states(),
    {
        assert forall|s: i64, t: i64| #[trigger] self.has_edge(s, a, t) implies self.states().contains(t) by {
            let k = choose|k: int| 0 <= k < self.transitions@[s as int]@.len()
                && (#[trigger] self.transitions@[s as int]@[k]).0@ == a && self.transitions@[s as int]@[k].1 == t;
        }
        assert(self.pre_forall(a, self.states()) =~= self.states());
    }

    /// No state has a transition into the empty set.
    pub proof fn lemma_pre_exists_empty(&self, a: Seq<char>)
        ensures
            self.pre_exists(a, Set::empty()) == Set::<i64>::empty(),
    {
        assert(self.pre_exists(a, Set::empty()) =~= Set::<i64>::empty());
    }

    /// A state without `a`-transitions satisfies `[a] false` and not `<a> true`.
    pub proof fn lemma_deadlock(&self, s: i64, a: Seq<char>)
        requires
            0 <= s < self.nr_of_states,
            forall|t: i64| !#[trigger] self.has_edge(s, a, t),
        ensures
            self.pre_forall(a, Set::empty()).contains(s),
            !self.pre_exists(a, self.states()).contains(s),
    {
    }

    /// A system with the states `0..nr_of_states` and no transitions.
    pub fn new(first_state: i64, nr_of_transitions: i64, nr_of_states: i64) -> (r: Self)
        requires
            0 <= nr_of_states <= usize::MAX,
        ensures
            r.wf(),
            r.first_state == first_state,
            r.nr_of_states == nr_of_states,
            forall|s: i64, a: Seq<char>, t: i64| !r.has_edge(s, a, t),
    {
        let mut transitions: Vec<Vec<(String, i64)>> = Vec::new();
        let mut i: i64 = 0;
        while i < nr_of_states
            invariant
                0 <= i <= nr_of_states,
                transitions@.len() == i,
                forall|s: int| 0 <= s < transitions@.len() ==> (#[trigger] transitions@[s])@.len() == 0,
            decreases nr_of_states - i,
        {
            transitions.push(Vec::new());
            i = i + 1;
        }
        Ltl { first_state, transitions, nr_of_states }
    }

    /// Adds `start --label--> end`; a transition that is already there is not
    /// added again. Fails when either state is not a state of the system.
    pub fn add_transition(&mut self, start_state: i64, label: &str, end_state: i64) -> (r: Result<(), TransitionError>)
        requires
            old(self).wf(),
        ensures
            final(self).wf(),
            final(self).nr_of_states == old(self).nr_of_states,
            final(self).first_state == old(self).first_state,
            !(0 <= start_state < old(self).nr_of_states) ==> r == Err::<(), TransitionError>(TransitionError::StartState),
            (0 <= start_state < old(self).nr_of_states && !(0 <= end_state < old(self).nr_of_states))
                ==> r == Err::<(), TransitionError>(TransitionError::EndState),
            (0 <= start_state < old(self).nr_of_states && 0 <= end_state < old(self).nr_of_states) ==> r is Ok,
            r is Err ==> final(self).transitions@ == old(self).transitions@,
            r is Ok && old(self).has_edge(start_state, label@, end_state) ==> final(self).transitions@ == old(self).transitions@,
            forall|s: i64, a: Seq<char>, t: i64| #[trigger] final(self).has_edge(s, a, t) <==> old(self).has_edge(s, a, t)
                || (r is Ok && s == start_state && a == label@ && t == end_state),
    {
        if start_state < 0 || start_state >= self.nr_of_states {
            return Err(TransitionError::StartState);
        }
        if end_state < 0 || end_state >= self.nr_of_states {
            return Err(TransitionError::EndState);
        }
        let n = self.transitions.len();
        let si = start_state as usize;
        let name = label.to_owned();
        let mut k: usize = 0;
        let mut present = false;
        while k < self.transitions[si].len()
            invariant
                0 <= si < self.transitions@.len(),
                k <= self.transitions@[si as int]@.len(),
                name@ == label@,
                present == exists|j: int| 0 <= j < k && (#[trigger] self.transitions@[si as int]@[j]).0@ == label@
                    && self.transitions@[si as int]@[j].1 == end_state,
            decreases self.transitions@[si as int]@.len() - k,
        {
            if self.transitions[si][k].1 == end_state && self.transitions[si][k].0 == name {
                present = true;
            }
            k = k + 1;
        }
        if !present {
            let ghost before = *self;
            self.transitions[si].push((name, end_state));
            proof {
                assert(!before.has_edge(start_state, label@, end_state));
                let row = self.transitions@[si as int]@;
                assert forall|s: int, j: int, k: int| 0 <= s < self.transitions@.len() && 0 <= j < k < self.transitions@[s]@.len()
                    implies (#[trigger] self.transitions@[s]@[j]).0@ != (#[trigger] self.transitions@[s]@[k]).0@
                        || self.transitions@[s]@[j].1 != self.transitions@[s]@[k].1 by {
                    if s == si as int {
                        assert(self.transitions@[s]@[j] == before.transitions@[s]@[j]);
                        if k < row.len() - 1 {
                            assert(self.transitions@[s]@[k] == before.transitions@[s]@[k]);
                        }
                    } else {
                        assert(self.transitions@[s] == before.transitions@[s]);
                    }
                }
                assert forall|s: int, k: int| 0 <= s < self.transitions@.len() && 0 <= k < self.transitions@[s]@.len()
                    implies 0 <= #[trigger] self.transitions@[s]@[k].1 < self.nr_of_states by {
                    if s == si as int {
                        if k < row.len() - 1 {
                            assert(self.transitions@[s]@[k] == before.transitions@[s]@[k]);
                        }
                    } else {
                        assert(self.transitions@[s] == before.transitions@[s]);
                    }
                }
                assert forall|s: i64, a: Seq<char>, t: i64| #[trigger] self.has_edge(s, a, t) <==> before.has_edge(s, a, t)
                    || (s == start_state && a == label@ && t == end_state) by {
                    if s == start_state {
                        let row = self.transitions@[si as int]@;
                        if before.has_edge(s, a, t) {
                            let j = choose|j: int| 0 <= j < before.transitions@[s as int]@.len()
                                && (#[trigger] before.transitions@[s as int]@[j]).0@ == a && before.transitions@[s as int]@[j].1 == t;
                            assert(row[j] == before.transitions@[s as int]@[j]);
                        }
                        if s == start_state && a == label@ && t == end_state {
                            assert(row[row.len() - 1].0@ == label@);
                        }
                        if self.has_edge(s, a, t) {
                            let j = choose|j: int| 0 <= j < row.len() && (#[trigger] row[j]).0@ == a && row[j].1 == t;
                            if j < row.len() - 1 {
                                assert(row[j] == before.transitions@[s as int]@[j]);
                            }
                        }
                    } else {
                        if 0 <= s < self.transitions@.len() {
                            assert(self.transitions@[s as int] == before.transitions@[s as int]);
                        }
                    }
                }
            }
        }
        Ok(())
    }

    /// Whether `s` has an `a`-transition into `f` (`any`), or has all its
    /// `a`-transitions into `f` (otherwise).
    fn row_test(&self, s: usize, label: &String, f: &Vec<bool>, any: bool) -> (r: bool)
        requires
            self.wf(),
            s < self.transitions@.len(),
            f@.len() == self.nr_of_states,
        ensures
            any ==> (r == self.some_edge_into(s as i64, label@, bits(f@))),
            !any ==> (r == self.all_edges_into(s as i64, label@, bits(f@))),
    {
        let fl = f.len();
        let row = &self.transitions[s];
        let mut k: usize = 0;
        let mut found = false;
        while k < row.len()
            invariant
                self.wf(),
                s < self.transitions@.len(),
                f@.len() == self.nr_of_states,
                fl == f@.len(),
                *row == self.transitions@[s as int],
                k <= row@.len(),
                any ==> (found == exists|j: int| 0 <= j < k && (#[trigger] row@[j]).0@ == label@ && f@[row@[j].1 as int]),
                !any ==> (found == exists|j: int| 0 <= j < k && (#[trigger] row@[j]).0@ == label@ && !f@[row@[j].1 as int]),
            decreases row@.len() - k,
        {
            let t = row[k].1;
            assert(0 <= t < self.nr_of_states);
            if row[k].0 == *label && f[t as usize] == any {
                found = true;
            }
            k = k + 1;
        }
        proof {
            if any {
                if found {
                    let j = choose|j: int| 0 <= j < k && (#[trigger] row@[j]).0@ == label@ && f@[row@[j].1 as int];
                    assert(self.has_edge(s as i64, label@, row@[j].1));
                }
                if self.some_edge_into(s as i64, label@, bits(f@)) {
                    let t = choose|t: i64| #[trigger] self.has_edge(s as i64, label@, t) && bits(f@).contains(t);
                    let j = choose|j: int| 0 <= j < row@.len() && (#[trigger] row@[j]).0@ == label@ && row@[j].1 == t;
                    assert(f@[row@[j].1 as int]);
                }
            } else {
                if found {
                    let j = choose|j: int| 0 <= j < k && (#[trigger] row@[j]).0@ == label@ && !f@[row@[j].1 as int];
                    assert(self.has_edge(s as i64, label@, row@[j].1));
                    assert(!bits(f@).contains(row@[j].1));
                } else {
                    assert forall|t: i64| #[trigger] self.has_edge(s as i64, label@, t) implies bits(f@).contains(t) by {
                        let j = choose|j: int| 0 <= j < row@.len() && (#[trigger] row@[j]).0@ == label@ && row@[j].1 == t;
                        assert(f@[row@[j].1 as int]);
                    }
                }
            }
        }
        if any { found } else { !found }
    }

    /// The flags of `pre_exists(label, f)` (`any`) or `pre_forall(label, f)`.
    pub fn pre_image(&self, label: &String, f: &Vec<bool>, any: bool) -> (r: Vec<bool>)
        requires
            self.wf(),
            f@.len() == self.nr_of_states,
        ensures
            r@.len() == self.nr_of_states,
            any ==> bits(r@) == self.pre_exists(label@, bits(f@)),
            !any ==> bits(r@) == self.pre_forall(label@, bits(f@)),
    {
        let n = self.transitions.len();
        let mut r: Vec<bool> = Vec::new();
        let mut s: usize = 0;
        while s < n
            invariant
                self.wf(),
                n == self.transitions@.len(),
                f@.len() == self.nr_of_states,
                s <= n,
                r@.len() == s,
                forall|j: int| 0 <= j < s ==> #[trigger] r@[j] == (if any {
                    self.some_edge_into(j as i64, label@, bits(f@))
                } else {
                    self.all_edges_into(j as i64, label@, bits(f@))
                }),
            decreases n - s,
        {
            let b = self.row_test(s, label, f, any);
            r.push(b);
            s = s + 1;
        }
        proof {
            if any {
                assert forall|x: i64| bits(r@).contains(x) <==> self.pre_exists(label@, bits(f@)).contains(x) by {
                    if 0 <= x < n {
                        assert(r@[x as int] == self.some_edge_into(x, label@, bits(f@)));
                    }
                }
                assert(bits(r@) =~= self.pre_exists(label@, bits(f@)));
            } else {
                assert forall|x: i64| bits(r@).contains(x) <==> self.pre_forall(label@, bits(f@)).contains(x) by {
                    if 0 <= x < n {
                        assert(r@[x as int] == self.all_edges_into(x, label@, bits(f@)));
                    }
                }
                assert(bits(r@) =~= self.pre_forall(label@, bits(f@)));
            }
        }
        r
    }

    /// The flags of all states.
    pub fn all_flags(&self) -> (r: Vec<bool>)
        requires
            self.wf(),
        ensures
            r@.len() == self.nr_of_states,
            bits(r@) == self.states(),
    {
        let n = self.transitions.len();
        let r = flags(n, true);
        assert(bits(r@) =~= self.states());
        r
    }

    /// `f` as flags over the states.
    fn flags_of(&self, f: &HashSet<i64>) -> (r: Vec<bool>)
        requires
            self.wf(),
        ensures
            r@.len() == self.nr_of_states,
            bits(r@) == f@.intersect(self.states()),
    {
        let n = self.transitions.len();
        let mut r: Vec<bool> = Vec::new();
        let mut s: usize = 0;
        while s < n
            invariant
                n == self.transitions@.len(),
                self.wf(),
                s <= n,
                r@.len() == s,
                forall|j: int| 0 <= j < s ==> #[trigger] r@[j] == f@.contains(j as i64),
            decreases n - s,
        {
            r.push(f.contains(&(s as i64)));
            s = s + 1;
        }
        assert(bits(r@) =~= f@.intersect(self.states()));
        r
    }

    /// The set of states `s` whose flag is set.
    pub fn set_of(&self, v: &Vec<bool>) -> (r: HashSet<i64>)
        requires
            v@.len() <= i64::MAX,
        ensures
            r@ == bits(v@),
    {
        let mut r: HashSet<i64> = HashSet::new();
        let mut s: usize = 0;
        while s < v.len()
            invariant
                s <= v@.len(),
                v@.len() <= i64::MAX,
                r@ == Set::new(|x: i64| 0 <= x < s && v@[x as int]),
            decreases v@.len() - s,
        {
            if v[s] {
                r.insert(s as i64);
            }
            s = s + 1;
            assert(r@ =~= Set::new(|x: i64| 0 <= x < s && v@[x as int]));
        }
        assert(r@ =~= bits(v@));
        r
    }

    /// `pre_forall` and `pre_exists` look only at the states among their targets.
    proof fn lemma_pre_in_states(&self, a: Seq<char>, f: Set<i64>)
        requires
            self.wf(),
        ensures
            self.pre_exists(a, f.intersect(self.states())) == self.pre_exists(a, f),
            self.pre_forall(a, f.intersect(self.states())) == self.pre_forall(a, f),
    {
        assert forall|s: i64, t: i64| #[trigger] self.has_edge(s, a, t) implies 0 <= t < self.nr_of_states by {
            let k = choose|k: int| 0 <= k < self.transitions@[s as int]@.len()
                && (#[trigger] self.transitions@[s as int]@[k]).0@ == a && self.transitions@[s as int]@[k].1 == t;
        }
        assert(self.pre_exists(a, f.intersect(self.states())) =~= self.pre_exists(a, f));
        assert(self.pre_forall(a, f.intersect(self.states())) =~= self.pre_forall(a, f));
    }

    /// All states, `S`.
    pub fn get_all_states(&self) -> (r: HashSet<i64>)
        requires
            self.wf(),
        ensures
            r@ == self.states(),
    {
        let v = self.all_flags();
        self.set_of(&v)
    }

    /// `[label] out_states`: the states all of whose `label`-transitions go
    /// into `out_states`.
    pub fn get_box_modality(&self, label: String, out_states: HashSet<i64>) -> (r: HashSet<i64>)
        requires
            self.wf(),
        ensures
            r@ == self.pre_forall(label@, out_states@),
    {
        let f = self.flags_of(&out_states);
        let v = self.pre_image(&label, &f, false);
        proof { self.lemma_pre_in_states(label@, out_states@); }
        self.set_of(&v)
    }

    /// `<label> out_states`: the states with some `label`-transition into
    /// `out_states`.
    pub fn get_diamond_modality(&self, label: String, out_states: HashSet<i64>) -> (r: HashSet<i64>)
        requires
            self.wf(),
        ensures
            r@ == self.pre_exists(label@, out_states@),
    {
        let f = self.flags_of(&out_states);
        let v = self.pre_image(&label, &f, true);
        proof { self.lemma_pre_in_states(label@, out_states@); }
        self.set_of(&v)
    }
}

/// `n` flags, each `value`.
pub fn flags(n: usize, value: bool) -> (r: Vec<bool>)
    ensures
        r@.len() == n,
        forall|j: int| 0 <= j < n ==> #[trigger] r@[j] == value,
{
    let mut r: Vec<bool> = Vec::new();
    while r.len() < n
        invariant
            r@.len() <= n,
            forall|j: int| 0 <= j < r@.len() ==> #[trigger] r@[j] == value,
        decreases n - r@.len(),
    {
        r.push(value);
    }
    r
}

} // verus!
