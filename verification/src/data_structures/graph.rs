use crate::error::Error;
use vstd::prelude::*;

verus! {

/// A space of cells named by ids of type `I`, each holding a node of type
/// `N`. The caller's map implements it; the algorithms of this crate read a
/// map through it and never change it.
///
/// The four `spec` functions are the model of the map: what it is, as far
/// as this crate reads it. Each method returns what the model says, so that
/// asking twice gives the same answer. What this crate proves of a map, it
/// proves of the model; it holds of a map whose methods keep to it.
///
/// In compiled code the model functions are methods like the others, which
/// nothing calls.
pub trait Graph<I, N> {
    /// Whether `id` names a cell of the graph.
    spec fn has(&self, id: I) -> bool;

    /// The node of cell `id`; it means something only where `has(id)`.
    spec fn node_at(&self, id: I) -> N;

    /// Whether one step leads from `from` to `to`.
    spec fn linked(&self, from: I, to: I) -> bool;

    /// What the step from `from` to `to` costs, in whole units.
    spec fn step_cost(&self, from: I, to: I) -> u64;

    fn contains(&self, id: &I) -> (found: bool)
        ensures
            found == self.has(*id),
    ;

    /// Looks the node of `id` up. An id that the graph does not contain is
    /// answered by `Error::OutOfBounds`.
    fn node(&self, id: &I) -> (node: Result<&N, Error>)
        ensures
            match node {
                Ok(n) => self.has(*id) && *n == self.node_at(*id),
                Err(e) => !self.has(*id) && e == Error::OutOfBounds,
            },
    ;

    /// The cells that one step from `id` leads to, in an order of the
    /// graph's choice.
    fn neighbors(&self, id: &I) -> (next: Vec<I>)
        ensures
            forall|to: I| next@.contains(to) <==> self.linked(*id, to),
    ;

    fn cost(&self, from: &I, to: &I) -> (cost: u64)
        ensures
            cost == self.step_cost(*from, *to),
    ;
}

} // verus!
