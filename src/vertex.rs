use vstd::prelude::*;

verus! {

/// A vertex of a parity game. `owner` 0 is the even player, any other value
/// the odd player.
#[derive(Clone, Debug)]
pub struct Vertex {
    pub identifier: i64,
    pub priority: i64,
    pub owner: i64,
    pub successors: Vec<i64>,
}

/// Vertices indexed by identifier; `None` where an identifier is unused.
pub type Vertices = Vec<Option<Vertex>>;

impl Vertex {
    pub fn new(identifier: i64, priority: i64, owner: i64, successors: Vec<i64>) -> (r: Self)
        ensures
            r.identifier == identifier,
            r.priority == priority,
            r.owner == owner,
            r.successors@ == successors@,
    {
        Vertex { identifier, priority, owner, successors }
    }
}

} // verus!
