use vstd::prelude::*;

verus! {

/// A state of the automaton. It carries nothing: what a state means is its
/// set of outgoing edges, which the store keeps.
#[derive(Debug)]
pub struct Node {}

impl Node {
    pub fn new() -> (n: Self)
        ensures
            n == (Node {}),
    {
        Node {}
    }
}

impl Default for Node {
    fn default() -> (n: Self)
        ensures
            n == (Node {}),
    {
        Node::new()
    }
}

} // verus!
