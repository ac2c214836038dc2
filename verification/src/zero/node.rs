//! One entry of the search tree.

use crate::zero::range::IdxRange;
use vstd::prelude::*;

verus! {

/// A node of the search tree. `M` is a move of the game, `P` a prior
/// probability and `V` a bundle of values.
#[derive(Debug, Clone)]
pub struct Node<M, P, V> {
    /// The parent, which the root does not have.
    pub parent: Option<usize>,
    /// The move that leads from the parent to this node.
    pub last_move: Option<M>,
    /// The children, once the node has been expanded.
    pub children: Option<IdxRange>,
    /// The evaluation of this position by the network, once it has arrived.
    pub net_values: Option<V>,
    /// The prior probability that the parent's evaluation gave to this node.
    pub net_policy: P,
    /// How many evaluations have been propagated through this node.
    pub complete_visits: u64,
    /// How many selections have passed through this node and still wait for
    /// their evaluation.
    pub virtual_visits: u64,
    /// The sum of the values propagated through this node.
    pub sum_values: V,
}

impl<M, P, V> Node<M, P, V> {
    /// A node that has not been visited, with prior `p` and a sum of values of
    /// `zero`.
    pub fn new(parent: Option<usize>, last_move: Option<M>, p: P, zero: V) -> (r: Self)
        ensures
            r.parent == parent,
            r.last_move == last_move,
            r.children is None,
            r.net_values is None,
            r.net_policy == p,
            r.complete_visits == 0,
            r.virtual_visits == 0,
            r.sum_values == zero,
    {
        Node {
            parent,
            last_move,
            children: None,
            net_values: None,
            net_policy: p,
            complete_visits: 0,
            virtual_visits: 0,
            sum_values: zero,
        }
    }

    /// All visits, the finished and the waiting ones.
    pub open spec fn spec_total_visits(&self) -> int {
        self.complete_visits + self.virtual_visits
    }

    /// Whether the node has been expanded and still waits for its evaluation.
    pub open spec fn in_flight(&self) -> bool {
        self.children is Some && self.net_values is None
    }

    /// All visits, the finished and the waiting ones.
    pub fn total_visits(&self) -> (r: u64)
        requires
            self.spec_total_visits() <= u64::MAX,
        ensures
            r == self.spec_total_visits(),
    {
        self.complete_visits + self.virtual_visits
    }
}

} // verus!
