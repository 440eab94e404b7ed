//! The search as a mathematical function of its inputs.
//!
//! A search state is the open set, in order of entry, and the table of
//! states seen. One round takes the cheapest node out and, unless the node is
//! at the depth horizon, offers each of its successors to the table. The
//! outcome of a search is what repeating rounds from the root leads to: the
//! first node taken out that holds a value within the margin, or nothing once
//! the open set is empty.

use vstd::prelude::*;
use crate::frontier::{first_min_index, lemma_first_min_upto, NodeView};
use crate::heuristic::heuristic;
use crate::moves::{
    combine_three_at, combine_three_step, combine_two_at, combine_two_step, split_three_at,
    split_three_step, split_two_at, split_two_step, PathStep,
};
use crate::partition::has_close;
use crate::visited::admits;

verus! {

/// The open set and the table of seen states.
pub struct SearchState {
    pub frontier: Seq<NodeView>,
    pub visited: Map<Seq<i64>, nat>,
}

/// The node that starts a search: the inputs, no step taken.
pub open spec fn root_node(inputs: Seq<i64>, target: i64) -> NodeView {
    NodeView {
        values: inputs,
        path: Seq::empty(),
        depth: 0,
        estimated_cost: heuristic(inputs, target),
    }
}

/// The state that a search starts from: the root waits, and is recorded at
/// depth zero.
pub open spec fn initial_state(inputs: Seq<i64>, target: i64) -> SearchState {
    SearchState {
        frontier: Seq::empty().push(root_node(inputs, target)),
        visited: Map::empty().insert(inputs, 0nat),
    }
}

/// The node one step below `parent` whose state is `values`.
pub open spec fn child(parent: NodeView, values: Seq<i64>, step: PathStep, target: i64) -> NodeView {
    NodeView {
        values,
        path: parent.path.push(step),
        depth: parent.depth + 1,
        estimated_cost: heuristic(values, target),
    }
}

/// The child of `node` that splits the value at `i` into two.
pub open spec fn child_split_two(node: NodeView, i: int, target: i64) -> NodeView {
    child(node, split_two_at(node.values, i), split_two_step(node.values, i), target)
}

/// The child of `node` that splits the value at `i` into three.
pub open spec fn child_split_three(node: NodeView, i: int, target: i64) -> NodeView {
    child(node, split_three_at(node.values, i), split_three_step(node.values, i), target)
}

/// The child of `node` that sums the values at `i` and `j`.
pub open spec fn child_combine_two(node: NodeView, i: int, j: int, target: i64) -> NodeView {
    child(node, combine_two_at(node.values, i, j), combine_two_step(node.values, i, j), target)
}

/// The child of `node` that sums the values at `i`, `j` and `k`.
pub open spec fn child_combine_three(node: NodeView, i: int, j: int, k: int, target: i64) -> NodeView {
    child(
        node,
        combine_three_at(node.values, i, j, k),
        combine_three_step(node.values, i, j, k),
        target,
    )
}

/// Offers a node to the table: where its state is new, or was recorded only
/// at a strictly greater depth, the node joins the open set and the table
/// records its depth. Otherwise nothing changes.
pub open spec fn offer(st: SearchState, node: NodeView) -> SearchState {
    if admits(st.visited, node.values, node.depth) {
        SearchState {
            frontier: st.frontier.push(node),
            visited: st.visited.insert(node.values, node.depth),
        }
    } else {
        st
    }
}

/// The state after offering the sums of the values at `i`, `j` and each
/// index from `j + 1` up to, not including, `k`.
pub open spec fn offer_triples_with(
    st: SearchState,
    node: NodeView,
    target: i64,
    i: int,
    j: int,
    k: int,
) -> SearchState
    decreases k - j,
{
    if k <= j + 1 {
        st
    } else {
        offer(
            offer_triples_with(st, node, target, i, j, k - 1),
            child_combine_three(node, i, j, k - 1, target),
        )
    }
}

/// The state after offering, for each second index from `i + 1` up to, not
/// including, `j`, every sum of three values that starts with those two.
pub open spec fn offer_triples(st: SearchState, node: NodeView, target: i64, i: int, j: int) -> SearchState
    decreases j - i,
{
    if j <= i + 1 {
        st
    } else {
        offer_triples_with(
            offer_triples(st, node, target, i, j - 1),
            node,
            target,
            i,
            j - 1,
            node.values.len() as int,
        )
    }
}

/// The state after offering the sums of the value at `i` and each index from
/// `i + 1` up to, not including, `j`.
pub open spec fn offer_pairs(st: SearchState, node: NodeView, target: i64, i: int, j: int) -> SearchState
    decreases j - i,
{
    if j <= i + 1 {
        st
    } else {
        offer(offer_pairs(st, node, target, i, j - 1), child_combine_two(node, i, j - 1, target))
    }
}

/// The state after offering every successor whose first index is `i`: the
/// two splits, then the sums of two, then the sums of three.
pub open spec fn offer_from(st: SearchState, node: NodeView, target: i64, i: int) -> SearchState {
    let n = node.values.len() as int;
    let halves = offer(st, child_split_two(node, i, target));
    let thirds = offer(halves, child_split_three(node, i, target));
    let pairs = offer_pairs(thirds, node, target, i, n);
    offer_triples(pairs, node, target, i, n)
}

/// The state after offering every successor whose first index is below `i`.
pub open spec fn offer_upto(st: SearchState, node: NodeView, target: i64, i: int) -> SearchState
    decreases i,
{
    if i <= 0 {
        st
    } else {
        offer_from(offer_upto(st, node, target, i - 1), node, target, i - 1)
    }
}

/// The state after offering every successor of `node`, in the order of
/// generation.
pub open spec fn expand(st: SearchState, node: NodeView, target: i64) -> SearchState {
    offer_upto(st, node, target, node.values.len() as int)
}

/// The node that leaves the open set next.
pub open spec fn next_node(st: SearchState) -> NodeView {
    st.frontier[first_min_index(st.frontier)]
}

/// The state once the next node has left the open set.
pub open spec fn after_pop(st: SearchState) -> SearchState {
    SearchState { frontier: st.frontier.remove(first_min_index(st.frontier)), visited: st.visited }
}

/// One round on a node that does not end the search: a node at the horizon
/// is dropped, any other is expanded.
pub open spec fn advance(st: SearchState, target: i64, max_depth: nat) -> SearchState {
    if next_node(st).depth >= max_depth {
        after_pop(st)
    } else {
        expand(after_pop(st), next_node(st), target)
    }
}

/// An upper bound on the number of successors of a state of `len` values.
pub open spec fn branching(len: nat) -> nat {
    len * (2 + len + len * len)
}

/// An upper bound on the number of rounds that a node of `len` values can
/// cause, itself and all that descend from it, with `remaining` levels left
/// above the horizon.
pub open spec fn weight(remaining: nat, len: nat) -> nat
    decreases remaining,
{
    if remaining == 0 {
        1
    } else {
        1 + branching(len) * weight((remaining - 1) as nat, len + 2)
    }
}

/// Levels left between a depth and the horizon.
pub open spec fn levels_left(depth: nat, max_depth: nat) -> nat {
    if depth < max_depth {
        (max_depth - depth) as nat
    } else {
        0
    }
}

/// The weight of a node under the horizon `max_depth`.
pub open spec fn node_weight(node: NodeView, max_depth: nat) -> nat {
    weight(levels_left(node.depth, max_depth), node.values.len())
}

/// Sum of the weights of the nodes of an open set: a bound on the rounds
/// left.
pub open spec fn measure(frontier: Seq<NodeView>, max_depth: nat) -> nat
    decreases frontier.len(),
{
    if frontier.len() == 0 {
        0
    } else {
        measure(frontier.drop_last(), max_depth) + node_weight(frontier.last(), max_depth)
    }
}

/// Every node weighs at least one round: its own.
pub proof fn lemma_weight_positive(remaining: nat, len: nat)
    ensures
        weight(remaining, len) >= 1,
{
}

/// A longer state weighs no less.
pub proof fn lemma_weight_monotone(remaining: nat, a: nat, b: nat)
    requires
        a <= b,
    ensures
        weight(remaining, a) <= weight(remaining, b),
    decreases remaining,
{
    if remaining > 0 {
        lemma_weight_monotone((remaining - 1) as nat, a + 2, b + 2);
        let wa = weight((remaining - 1) as nat, a + 2);
        let wb = weight((remaining - 1) as nat, b + 2);
        assert(branching(a) <= branching(b)) by (nonlinear_arith)
            requires
                a <= b,
        ;
        assert(branching(a) * wa <= branching(b) * wb) by (nonlinear_arith)
            requires
                branching(a) <= branching(b),
                wa <= wb,
        ;
    }
}

/// A node that joins the open set adds its weight.
pub proof fn lemma_measure_push(frontier: Seq<NodeView>, node: NodeView, max_depth: nat)
    ensures
        measure(frontier.push(node), max_depth) == measure(frontier, max_depth) + node_weight(
            node,
            max_depth,
        ),
{
    assert(frontier.push(node).drop_last() =~= frontier);
}

/// A node that leaves the open set takes its weight along.
pub proof fn lemma_measure_remove(frontier: Seq<NodeView>, idx: int, max_depth: nat)
    requires
        0 <= idx < frontier.len(),
    ensures
        measure(frontier.remove(idx), max_depth) + node_weight(frontier[idx], max_depth) == measure(
            frontier,
            max_depth,
        ),
    decreases frontier.len(),
{
    if idx == frontier.len() - 1 {
        assert(frontier.remove(idx) =~= frontier.drop_last());
    } else {
        lemma_measure_remove(frontier.drop_last(), idx, max_depth);
        assert(frontier.remove(idx).drop_last() =~= frontier.drop_last().remove(idx));
        assert(frontier.remove(idx).last() == frontier.last());
    }
}

/// An offer adds at most the offered node's weight.
pub proof fn lemma_offer_measure(st: SearchState, node: NodeView, max_depth: nat, w: nat)
    requires
        node_weight(node, max_depth) <= w,
    ensures
        measure(offer(st, node).frontier, max_depth) <= measure(st.frontier, max_depth) + w,
{
    lemma_measure_push(st.frontier, node, max_depth);
}

/// The weight that bounds each child of a node below the horizon.
pub open spec fn child_bound(node: NodeView, max_depth: nat) -> nat {
    weight((levels_left(node.depth, max_depth) - 1) as nat, node.values.len() + 2)
}

/// No child of a node below the horizon weighs more than the bound.
pub proof fn lemma_child_weight(node: NodeView, c: NodeView, max_depth: nat)
    requires
        node.depth < max_depth,
        c.depth == node.depth + 1,
        c.values.len() <= node.values.len() + 2,
    ensures
        node_weight(c, max_depth) <= child_bound(node, max_depth),
{
    lemma_weight_monotone(levels_left(c.depth, max_depth), c.values.len(), node.values.len() + 2);
}

/// The sums of three that share their first two indices add at most one
/// bound each.
pub proof fn lemma_triples_with_measure(
    st: SearchState,
    node: NodeView,
    target: i64,
    i: int,
    j: int,
    k: int,
    max_depth: nat,
)
    requires
        node.depth < max_depth,
        0 <= i < j < k <= node.values.len(),
    ensures
        measure(offer_triples_with(st, node, target, i, j, k).frontier, max_depth) <= measure(
            st.frontier,
            max_depth,
        ) + (k - j - 1) * child_bound(node, max_depth),
    decreases k - j,
{
    let w = child_bound(node, max_depth);
    if k <= j + 1 {
        assert((k - j - 1) * w == 0) by (nonlinear_arith)
            requires
                k - j - 1 == 0,
        ;
    } else {
        lemma_triples_with_measure(st, node, target, i, j, k - 1, max_depth);
        let c = child_combine_three(node, i, j, k - 1, target);
        lemma_child_weight(node, c, max_depth);
        lemma_offer_measure(offer_triples_with(st, node, target, i, j, k - 1), c, max_depth, w);
        assert((k - j - 1) * w == (k - 1 - j - 1) * w + w) by (nonlinear_arith);
    }
}

/// The sums of three from one first index add at most as many bounds as the
/// state has values, for each second index.
pub proof fn lemma_triples_measure(
    st: SearchState,
    node: NodeView,
    target: i64,
    i: int,
    j: int,
    max_depth: nat,
)
    requires
        node.depth < max_depth,
        0 <= i < j <= node.values.len(),
    ensures
        measure(offer_triples(st, node, target, i, j).frontier, max_depth) <= measure(
            st.frontier,
            max_depth,
        ) + (j - i - 1) * (node.values.len() * child_bound(node, max_depth)),
    decreases j - i,
{
    let w = child_bound(node, max_depth);
    let n = node.values.len() as int;
    if j <= i + 1 {
        assert((j - i - 1) * (n * w) == 0) by (nonlinear_arith)
            requires
                j - i - 1 == 0,
        ;
    } else {
        lemma_triples_measure(st, node, target, i, j - 1, max_depth);
        let before = offer_triples(st, node, target, i, j - 1);
        if j - 1 < n - 1 {
            lemma_triples_with_measure(before, node, target, i, j - 1, n, max_depth);
        }
        assert((n - (j - 1) - 1) * w <= n * w) by (nonlinear_arith)
            requires
                0 <= n - (j - 1) - 1 <= n,
                w >= 0,
        ;
        assert((j - i - 1) * (n * w) == (j - 1 - i - 1) * (n * w) + n * w) by (nonlinear_arith);
    }
}

/// The sums of two from one first index add at most one bound each.
pub proof fn lemma_pairs_measure(
    st: SearchState,
    node: NodeView,
    target: i64,
    i: int,
    j: int,
    max_depth: nat,
)
    requires
        node.depth < max_depth,
        0 <= i < j <= node.values.len(),
    ensures
        measure(offer_pairs(st, node, target, i, j).frontier, max_depth) <= measure(
            st.frontier,
            max_depth,
        ) + (j - i - 1) * child_bound(node, max_depth),
    decreases j - i,
{
    let w = child_bound(node, max_depth);
    if j <= i + 1 {
        assert((j - i - 1) * w == 0) by (nonlinear_arith)
            requires
                j - i - 1 == 0,
        ;
    } else {
        lemma_pairs_measure(st, node, target, i, j - 1, max_depth);
        let c = child_combine_two(node, i, j - 1, target);
        lemma_child_weight(node, c, max_depth);
        lemma_offer_measure(offer_pairs(st, node, target, i, j - 1), c, max_depth, w);
        assert((j - i - 1) * w == (j - 1 - i - 1) * w + w) by (nonlinear_arith);
    }
}

/// The successors from one first index add at most `2 + n + n * n` bounds,
/// for a state of `n` values.
pub proof fn lemma_from_measure(st: SearchState, node: NodeView, target: i64, i: int, max_depth: nat)
    requires
        node.depth < max_depth,
        0 <= i < node.values.len(),
    ensures
        measure(offer_from(st, node, target, i).frontier, max_depth) <= measure(
            st.frontier,
            max_depth,
        ) + (2 + node.values.len() + node.values.len() * node.values.len()) * child_bound(
            node,
            max_depth,
        ),
{
    let w = child_bound(node, max_depth);
    let n = node.values.len() as int;
    let c2 = child_split_two(node, i, target);
    let c3 = child_split_three(node, i, target);
    let halves = offer(st, c2);
    let thirds = offer(halves, c3);
    let pairs = offer_pairs(thirds, node, target, i, n);
    lemma_child_weight(node, c2, max_depth);
    lemma_child_weight(node, c3, max_depth);
    lemma_offer_measure(st, c2, max_depth, w);
    lemma_offer_measure(halves, c3, max_depth, w);
    lemma_pairs_measure(thirds, node, target, i, n, max_depth);
    lemma_triples_measure(pairs, node, target, i, n, max_depth);
    assert((n - i - 1) * w <= n * w) by (nonlinear_arith)
        requires
            0 <= n - i - 1 <= n,
            w >= 0,
    ;
    assert((n - i - 1) * (n * w) <= n * n * w) by (nonlinear_arith)
        requires
            0 <= n - i - 1 <= n,
            w >= 0,
            n >= 0,
    ;
    assert((2 + n + n * n) * w == w + w + n * w + n * n * w) by (nonlinear_arith);
}

/// The successors from the first indices below `i` add at most `i` times as
/// much.
pub proof fn lemma_upto_measure(st: SearchState, node: NodeView, target: i64, i: int, max_depth: nat)
    requires
        node.depth < max_depth,
        0 <= i <= node.values.len(),
    ensures
        measure(offer_upto(st, node, target, i).frontier, max_depth) <= measure(
            st.frontier,
            max_depth,
        ) + i * ((2 + node.values.len() + node.values.len() * node.values.len()) * child_bound(
            node,
            max_depth,
        )),
    decreases i,
{
    let w = child_bound(node, max_depth);
    let n = node.values.len() as int;
    let unit = (2 + n + n * n) * w;
    if i <= 0 {
        assert(i * unit == 0) by (nonlinear_arith)
            requires
                i == 0,
        ;
    } else {
        lemma_upto_measure(st, node, target, i - 1, max_depth);
        lemma_from_measure(offer_upto(st, node, target, i - 1), node, target, i - 1, max_depth);
        assert(i * unit == (i - 1) * unit + unit) by (nonlinear_arith);
    }
}

/// Every round lowers the measure.
pub proof fn lemma_advance_decreases(st: SearchState, target: i64, max_depth: nat)
    requires
        st.frontier.len() > 0,
    ensures
        measure(advance(st, target, max_depth).frontier, max_depth) < measure(
            st.frontier,
            max_depth,
        ),
{
    let idx = first_min_index(st.frontier);
    lemma_first_min_upto(st.frontier, st.frontier.len() as int);
    lemma_measure_remove(st.frontier, idx, max_depth);
    let node = next_node(st);
    lemma_weight_positive(levels_left(node.depth, max_depth), node.values.len());
    if node.depth < max_depth {
        let n = node.values.len() as int;
        let w = child_bound(node, max_depth);
        lemma_upto_measure(after_pop(st), node, target, n, max_depth);
        let b = branching(n as nat) as int;
        assert(n * ((2 + n + n * n) * w) == b * w) by (nonlinear_arith)
            requires
                b == n * (2 + n + n * n),
        ;
        assert(node_weight(node, max_depth) == 1 + b * w);
    }
}

/// The node on which a search that continues from `st` ends, if it ends on
/// one: the first node taken out that holds a value within the margin.
pub open spec fn run(st: SearchState, target: i64, margin: i64, max_depth: nat) -> Option<NodeView>
    decreases measure(st.frontier, max_depth),
{
    if st.frontier.len() == 0 {
        None
    } else if has_close(next_node(st).values, target, margin) {
        Some(next_node(st))
    } else {
        proof {
            lemma_advance_decreases(st, target, max_depth);
        }
        run(advance(st, target, max_depth), target, margin, max_depth)
    }
}

/// The node on which the search from `inputs` ends, or `None` where it runs
/// out of nodes.
pub open spec fn search_outcome(inputs: Seq<i64>, target: i64, margin: i64, max_depth: nat) -> Option<
    NodeView,
> {
    run(initial_state(inputs, target), target, margin, max_depth)
}

} // verus!
