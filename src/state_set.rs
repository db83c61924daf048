use vstd::prelude::*;

verus! {

/// A set of states: all of them, or those listed.
pub struct StateSet {
    pub all_states: bool,
    pub states: Option<Vec<i64>>,
}

/// The union of two sets.
pub trait Union: Sized {
    /// The set is well formed.
    spec fn is_valid(&self) -> bool;

    /// `r` is the union of `a` and `b`.
    spec fn is_union(a: &Self, b: &Self, r: &Self) -> bool;

    fn union(&self, other: Self) -> (r: Self)
        requires
            self.is_valid(),
            other.is_valid(),
        ensures
            r.is_valid(),
            Self::is_union(self, &other, &r);
}

/// The intersection of two sets.
pub trait Intersect: Sized {
    /// The set is well formed.
    spec fn is_valid(&self) -> bool;

    /// `r` is the intersection of `a` and `b`.
    spec fn is_intersection(a: &Self, b: &Self, r: &Self) -> bool;

    fn intersect(&self, other: Self) -> (r: Self)
        requires
            self.is_valid(),
            other.is_valid(),
        ensures
            r.is_valid(),
            Self::is_intersection(self, &other, &r);
}

impl StateSet {
    /// A listed set has its list.
    pub open spec fn valid(&self) -> bool {
        !self.all_states ==> self.states.is_some()
    }

    /// The listed states (meaningful when not all states).
    pub open spec fn listed(&self) -> Set<i64> {
        match self.states {
            Some(v) => v@.to_set(),
            None => Set::empty(),
        }
    }
}

/// The elements of `s`, each once, in the order of their first occurrence.
pub open spec fn first_occurrences(s: Seq<i64>) -> Seq<i64>
    decreases s.len(),
{
    if s.len() == 0 {
        Seq::empty()
    } else {
        let p = first_occurrences(s.drop_last());
        if p.contains(s.last()) { p } else { p.push(s.last()) }
    }
}

/// `first_occurrences` keeps the set and repeats nothing.
pub proof fn lemma_first_occurrences(s: Seq<i64>)
    ensures
        first_occurrences(s).to_set() == s.to_set(),
        first_occurrences(s).no_duplicates(),
    decreases s.len(),
{
    if s.len() > 0 {
        let t = s.drop_last();
        lemma_first_occurrences(t);
        let p = first_occurrences(t);
        assert(s =~= t.push(s.last()));
        let f = first_occurrences(s);
        assert forall|x: i64| f.contains(x) <==> s.contains(x) by {
            assert(p.to_set().contains(x) == t.to_set().contains(x));
            assert(s.contains(x) <==> (t.contains(x) || x == s.last())) by {
                if s.contains(x) {
                    let i = choose|i: int| 0 <= i < s.len() && s[i] == x;
                    if i < s.len() - 1 {
                        assert(t[i] == x);
                    }
                }
                if t.contains(x) {
                    let i = choose|i: int| 0 <= i < t.len() && t[i] == x;
                    assert(s[i] == x);
                }
                assert(s[s.len() - 1] == s.last());
            }
            if p.contains(s.last()) {
                assert(f == p);
            } else {
                assert(f == p.push(s.last()));
                assert(f.contains(x) <==> (p.contains(x) || x == s.last())) by {
                    if f.contains(x) {
                        let i = choose|i: int| 0 <= i < f.len() && f[i] == x;
                        if i < p.len() {
                            assert(p[i] == x);
                        }
                    }
                    if p.contains(x) {
                        let i = choose|i: int| 0 <= i < p.len() && p[i] == x;
                        assert(f[i] == x);
                    }
                    if x == s.last() {
                        assert(f[p.len() as int] == x);
                    }
                }
            }
        }
        if !p.contains(s.last()) {
            assert forall|a: int, b: int| 0 <= a < b < f.len() implies f[a] != f[b] by {
                if b == p.len() {
                    assert(p.contains(p[a]));
                } else {
                    assert(p[a] != p[b]);
                }
            }
        }
        assert(first_occurrences(s).to_set() =~= s.to_set());
    }
}

/// Relies on `array_tool::vec::Union::union`: the elements of `a` and then
/// `b`, each once, in the order of their first occurrence.
#[verifier::external_body]
fn union_ids(a: &Vec<i64>, b: Vec<i64>) -> (r: Vec<i64>)
    ensures
        r@ == first_occurrences(a@ + b@),
{
    array_tool::vec::Union::union(a, b)
}

/// Relies on `array_tool::vec::Intersect::intersect`: the elements of `a`
/// that are in `b`, each once.
#[verifier::external_body]
fn intersect_ids(a: &Vec<i64>, b: Vec<i64>) -> (r: Vec<i64>)
    ensures
        r@.to_set() == a@.to_set().intersect(b@.to_set()),
        r@.no_duplicates(),
{
    array_tool::vec::Intersect::intersect(a, b)
}

/// A copy of `v`.
fn copy_ids(v: &Vec<i64>) -> (r: Vec<i64>)
    ensures
        r@ == v@,
{
    let mut r: Vec<i64> = Vec::new();
    let mut i: usize = 0;
    while i < v.len()
        invariant
            i <= v@.len(),
            r@ == v@.subrange(0, i as int),
        decreases v@.len() - i,
    {
        r.push(v[i]);
        i = i + 1;
        assert(r@ =~= v@.subrange(0, i as int));
    }
    assert(v@.subrange(0, v@.len() as int) =~= v@);
    r
}

impl Union for StateSet {
    open spec fn is_valid(&self) -> bool {
        self.valid()
    }

    /// All states when either is; else the listed states of both, each once.
    open spec fn is_union(a: &Self, b: &Self, r: &Self) -> bool {
        if a.all_states || b.all_states {
            r.all_states && r.states.is_none()
        } else {
            &&& !r.all_states
            &&& r.states.is_some()
            &&& r.states.unwrap()@ == first_occurrences(a.states.unwrap()@ + b.states.unwrap()@)
            &&& r.listed() == a.listed().union(b.listed())
            &&& r.states.unwrap()@.no_duplicates()
        }
    }

    fn union(&self, r: StateSet) -> (out: StateSet) {
        if self.all_states || r.all_states {
            return StateSet { all_states: true, states: None };
        }
        let a = self.states.as_ref().unwrap();
        let b = r.states.unwrap();
        let ghost both = a@ + b@;
        let v = union_ids(a, b);
        proof {
            lemma_first_occurrences(both);
            assert(both.to_set() =~= a@.to_set().union(b@.to_set())) by {
                assert forall|x: i64| both.contains(x) <==> (a@.contains(x) || b@.contains(x)) by {
                    if both.contains(x) {
                        let i = choose|i: int| 0 <= i < both.len() && both[i] == x;
                        if i < a@.len() {
                            assert(a@[i] == x);
                        } else {
                            assert(b@[i - a@.len()] == x);
                        }
                    }
                    if a@.contains(x) {
                        let i = choose|i: int| 0 <= i < a@.len() && a@[i] == x;
                        assert(both[i] == x);
                    }
                    if b@.contains(x) {
                        let i = choose|i: int| 0 <= i < b@.len() && b@[i] == x;
                        assert(both[a@.len() + i] == x);
                    }
                }
            }
        }
        StateSet { all_states: false, states: Some(v) }
    }
}

impl Intersect for StateSet {
    open spec fn is_valid(&self) -> bool {
        self.valid()
    }

    /// The other set when one is all states; else the listed states in
    /// both, each once.
    open spec fn is_intersection(a: &Self, b: &Self, r: &Self) -> bool {
        if a.all_states {
            r.all_states == b.all_states && r.states == b.states
        } else if b.all_states {
            !r.all_states && r.states.is_some() && r.states.unwrap()@ == a.states.unwrap()@
        } else {
            &&& !r.all_states
            &&& r.states.is_some()
            &&& r.listed() == a.listed().intersect(b.listed())
            &&& r.states.unwrap()@.no_duplicates()
        }
    }

    fn intersect(&self, r: StateSet) -> (out: StateSet) {
        if self.all_states {
            return r;
        }
        let a = self.states.as_ref().unwrap();
        if r.all_states {
            return StateSet { all_states: false, states: Some(copy_ids(a)) };
        }
        let b = r.states.unwrap();
        let v = intersect_ids(a, b);
        StateSet { all_states: false, states: Some(v) }
    }
}

} // verus!
