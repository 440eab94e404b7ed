//! Search nodes and the open set that hands them out, cheapest first.

use vstd::prelude::*;
use crate::moves::PathStep;

verus! {

/// A snapshot of the search: a state, the steps that led to it, their count
/// and the state's priority.
#[derive(Debug, PartialEq, Eq)]
pub struct Node {
    /// The state's values.
    pub values: Vec<i64>,
    /// The steps from the root to this state, in order.
    pub path: Vec<PathStep>,
    /// Number of steps since the root.
    pub depth: usize,
    /// The state's heuristic; smaller is served first.
    pub estimated_cost: u128,
}

/// What a [`Node`] holds, as mathematical values.
pub struct NodeView {
    pub values: Seq<i64>,
    pub path: Seq<PathStep>,
    pub depth: nat,
    pub estimated_cost: nat,
}

impl View for Node {
    type V = NodeView;

    open spec fn view(&self) -> NodeView {
        NodeView {
            values: self.values@,
            path: self.path@,
            depth: self.depth as nat,
            estimated_cost: self.estimated_cost as nat,
        }
    }
}

/// Index of the first node of least cost among the first `n` nodes of `s`.
pub open spec fn first_min_upto(s: Seq<NodeView>, n: int) -> int
    decreases n,
{
    if n <= 1 {
        0
    } else {
        let best = first_min_upto(s, n - 1);
        if s[n - 1].estimated_cost < s[best].estimated_cost {
            n - 1
        } else {
            best
        }
    }
}

/// Index of the node that leaves a non-empty open set next: the one of least
/// cost, and among those of equal cost the one that entered first.
pub open spec fn first_min_index(s: Seq<NodeView>) -> int {
    first_min_upto(s, s.len() as int)
}

/// The index chosen among the first `n` nodes is one of theirs; no node
/// among them costs less, and none before it costs as little.
pub proof fn lemma_first_min_upto(s: Seq<NodeView>, n: int)
    requires
        1 <= n <= s.len(),
    ensures
        0 <= first_min_upto(s, n) < n,
        forall|t: int|
            0 <= t < n ==> s[first_min_upto(s, n)].estimated_cost <= (#[trigger] s[t]).estimated_cost,
        forall|t: int|
            0 <= t < first_min_upto(s, n) ==> s[first_min_upto(s, n)].estimated_cost < (
            #[trigger] s[t]).estimated_cost,
    decreases n,
{
    if n > 1 {
        lemma_first_min_upto(s, n - 1);
    }
}

/// The open set: nodes in the order in which they entered.
pub struct Frontier {
    nodes: Vec<Node>,
}

impl View for Frontier {
    type V = Seq<NodeView>;

    closed spec fn view(&self) -> Seq<NodeView> {
        self.nodes@.map_values(|n: Node| n@)
    }
}

impl Frontier {
    /// An empty open set.
    pub fn new() -> (frontier: Frontier)
        ensures
            frontier@ == Seq::<NodeView>::empty(),
    {
        let frontier = Frontier { nodes: Vec::new() };
        assert(frontier@ =~= Seq::<NodeView>::empty());
        frontier
    }

    /// Number of nodes waiting.
    pub fn len(&self) -> (n: usize)
        ensures
            n == self@.len(),
    {
        self.nodes.len()
    }

    /// Whether no node is waiting.
    pub fn is_empty(&self) -> (empty: bool)
        ensures
            empty == (self@.len() == 0),
    {
        self.nodes.len() == 0
    }

    /// Adds a node behind all that are waiting.
    pub fn push(&mut self, node: Node)
        ensures
            final(self)@ == old(self)@.push(node@),
    {
        self.nodes.push(node);
        assert(self@ =~= old(self)@.push(node@));
    }

    /// Takes out the node of least cost; among nodes of equal cost, the one
    /// that entered first. Returns `None` when no node is waiting.
    pub fn pop_min(&mut self) -> (popped: Option<Node>)
        ensures
            match popped {
                Some(node) => {
                    &&& old(self)@.len() > 0
                    &&& 0 <= first_min_index(old(self)@) < old(self)@.len()
                    &&& node@ == old(self)@[first_min_index(old(self)@)]
                    &&& final(self)@ == old(self)@.remove(first_min_index(old(self)@))
                    &&& forall|t: int|
                        0 <= t < old(self)@.len() ==> node@.estimated_cost <= (
                        #[trigger] old(self)@[t]).estimated_cost
                    &&& forall|t: int|
                        0 <= t < first_min_index(old(self)@) ==> node@.estimated_cost < (
                        #[trigger] old(self)@[t]).estimated_cost
                },
                None => old(self)@.len() == 0 && final(self)@ == old(self)@,
            },
    {
        if self.nodes.len() == 0 {
            return None;
        }
        proof {
            lemma_first_min_upto(self@, self@.len() as int);
        }
        let mut best: usize = 0;
        let mut i: usize = 1;
        while i < self.nodes.len()
            invariant
                1 <= i <= self.nodes.len(),
                best < i,
                best == first_min_upto(self@, i as int),
            decreases self.nodes.len() - i,
        {
            if self.nodes[i].estimated_cost < self.nodes[best].estimated_cost {
                best = i;
            }
            i = i + 1;
        }
        let node = self.nodes.remove(best);
        assert(self@ =~= old(self)@.remove(best as int));
        Some(node)
    }
}

} // verus!
