//! What holds of every search: the node it ends on lies within the horizon
//! and is reached by its own path, and a search that ends on no node has
//! left no state within the horizon unexamined.

use vstd::prelude::*;
use crate::expansion::{
    child_of, covered, kept_by_offers, lemma_expand_covers, lemma_expand_keeps,
};
use crate::frontier::{first_min_index, lemma_first_min_upto, NodeView};
use crate::heuristic::heuristic;
use crate::model::{
    advance, after_pop, expand, initial_state, lemma_advance_decreases, measure, next_node, offer,
    root_node, run, search_outcome, SearchState,
};
use crate::moves::{is_successor, PathStep};
use crate::partition::has_close;
use crate::reach::{
    follows, lemma_path_conserves, lemma_step_is_successor, path_is_exact, step_applies, total,
};

verus! {

/// What the search keeps true of every node it holds: the node's path is as
/// long as its depth, within the horizon, and leads from the root to the
/// node's state; its cost is the heuristic of its state.
pub open spec fn good_node(
    node: NodeView,
    root: Seq<i64>,
    target: i64,
    max_depth: nat,
) -> bool {
    &&& node.path.len() == node.depth
    &&& node.depth <= max_depth
    &&& follows(root, node.path, node.values)
    &&& node.estimated_cost == heuristic(node.values, target)
}

/// Whether a node for `state` waits in the open set at the depth that the
/// table records for the state.
pub open spec fn waiting(st: SearchState, state: Seq<i64>) -> bool {
    exists|idx: int|
        0 <= idx < st.frontier.len() && (#[trigger] st.frontier[idx]).values == state
            && st.frontier[idx].depth == st.visited[state]
}

/// Whether `state` has been dealt with at its recorded depth: it holds no
/// value within the margin and, unless it lies at the horizon, the table
/// holds each of its successors one step below it or less.
pub open spec fn settled(
    st: SearchState,
    state: Seq<i64>,
    target: i64,
    margin: i64,
    max_depth: nat,
) -> bool {
    &&& !has_close(state, target, margin)
    &&& (st.visited[state] >= max_depth || forall|t: Seq<i64>| #[trigger]
        is_successor(state, t) ==> covered(st.visited, t, st.visited[state] + 1))
}

/// Whether `state` is the state of the node `held`, recorded at that node's
/// depth.
pub open spec fn in_hand(st: SearchState, state: Seq<i64>, held: Option<NodeView>) -> bool {
    match held {
        Some(node) => state == node.values && st.visited[state] == node.depth,
        None => false,
    }
}

/// The invariant of the search, between rounds (`held` is `None`) and while
/// the node `held` is being expanded: the table holds the root; every
/// waiting node is good and in the table at its depth or less; every state
/// of the table waits at its recorded depth, is settled, or is in hand.
pub open spec fn consistent(
    st: SearchState,
    root: Seq<i64>,
    target: i64,
    margin: i64,
    max_depth: nat,
    held: Option<NodeView>,
) -> bool {
    &&& covered(st.visited, root, 0)
    &&& forall|idx: int|
        0 <= idx < st.frontier.len() ==> good_node(
            #[trigger] st.frontier[idx],
            root,
            target,
            max_depth,
        ) && covered(st.visited, st.frontier[idx].values, st.frontier[idx].depth)
    &&& forall|s: Seq<i64>| #[trigger]
        st.visited.contains_key(s) ==> waiting(st, s) || settled(st, s, target, margin, max_depth)
            || in_hand(st, s, held)
}

/// The state that a search starts from is consistent.
pub proof fn lemma_initial_consistent(inputs: Seq<i64>, target: i64, margin: i64, max_depth: nat)
    ensures
        consistent(initial_state(inputs, target), inputs, target, margin, max_depth, None),
{
    let st = initial_state(inputs, target);
    assert(st.frontier[0] == root_node(inputs, target));
    assert forall|s: Seq<i64>| #[trigger] st.visited.contains_key(s) implies waiting(st, s) by {
        assert(st.frontier[0].values == s);
    }
}

/// The offer of a good node keeps a search state consistent.
pub proof fn lemma_offer_consistent(
    st: SearchState,
    c: NodeView,
    root: Seq<i64>,
    target: i64,
    margin: i64,
    max_depth: nat,
    held: Option<NodeView>,
)
    requires
        consistent(st, root, target, margin, max_depth, held),
        good_node(c, root, target, max_depth),
    ensures
        consistent(offer(st, c), root, target, margin, max_depth, held),
{
    let after = offer(st, c);
    if after != st {
        assert forall|idx: int| 0 <= idx < after.frontier.len() implies good_node(
            #[trigger] after.frontier[idx],
            root,
            target,
            max_depth,
        ) && covered(after.visited, after.frontier[idx].values, after.frontier[idx].depth) by {
            if idx < st.frontier.len() {
                assert(after.frontier[idx] == st.frontier[idx]);
            }
        }
        assert forall|s: Seq<i64>| #[trigger] after.visited.contains_key(s) implies waiting(
            after,
            s,
        ) || settled(after, s, target, margin, max_depth) || in_hand(after, s, held) by {
            if s == c.values {
                assert(after.frontier[st.frontier.len() as int] == c);
            } else {
                assert(st.visited.contains_key(s));
                if waiting(st, s) {
                    let idx = choose|idx: int|
                        0 <= idx < st.frontier.len() && (#[trigger] st.frontier[idx]).values == s
                            && st.frontier[idx].depth == st.visited[s];
                    assert(after.frontier[idx] == st.frontier[idx]);
                } else if settled(st, s, target, margin, max_depth) {
                    if st.visited[s] < max_depth {
                        assert forall|t: Seq<i64>| #[trigger] is_successor(s, t) implies covered(
                            after.visited,
                            t,
                            after.visited[s] + 1,
                        ) by {
                            assert(covered(st.visited, t, st.visited[s] + 1));
                        }
                    }
                }
            }
        }
    }
}

/// The property of a search state that it is consistent while `node` is
/// being expanded.
pub open spec fn consistent_with(
    node: NodeView,
    root: Seq<i64>,
    target: i64,
    margin: i64,
    max_depth: nat,
) -> spec_fn(SearchState) -> bool {
    |st: SearchState| consistent(st, root, target, margin, max_depth, Some(node))
}

/// The children of a good node below the horizon are good.
pub proof fn lemma_child_good(
    node: NodeView,
    c: NodeView,
    root: Seq<i64>,
    target: i64,
    max_depth: nat,
)
    requires
        good_node(node, root, target, max_depth),
        node.depth < max_depth,
        child_of(node, c, target),
    ensures
        good_node(c, root, target, max_depth),
{
    assert(follows(root, c.path.drop_last(), node.values));
    assert(step_applies(node.values, c.path.last(), c.values));
}

/// One round keeps a search state consistent.
pub proof fn lemma_advance_consistent(
    st: SearchState,
    root: Seq<i64>,
    target: i64,
    margin: i64,
    max_depth: nat,
)
    requires
        consistent(st, root, target, margin, max_depth, None),
        st.frontier.len() > 0,
        !has_close(next_node(st).values, target, margin),
    ensures
        consistent(advance(st, target, max_depth), root, target, margin, max_depth, None),
{
    let at = first_min_index(st.frontier);
    lemma_first_min_upto(st.frontier, st.frontier.len() as int);
    let node = next_node(st);
    let rest = after_pop(st);
    assert(good_node(node, root, target, max_depth));
    // with the node in hand, what is left is consistent
    assert forall|idx: int| 0 <= idx < rest.frontier.len() implies good_node(
        #[trigger] rest.frontier[idx],
        root,
        target,
        max_depth,
    ) && covered(rest.visited, rest.frontier[idx].values, rest.frontier[idx].depth) by {
        if idx < at {
            assert(rest.frontier[idx] == st.frontier[idx]);
        } else {
            assert(rest.frontier[idx] == st.frontier[idx + 1]);
        }
    }
    assert forall|s: Seq<i64>| #[trigger] rest.visited.contains_key(s) implies waiting(rest, s)
        || settled(rest, s, target, margin, max_depth) || in_hand(rest, s, Some(node)) by {
        if waiting(st, s) {
            let idx = choose|idx: int|
                0 <= idx < st.frontier.len() && (#[trigger] st.frontier[idx]).values == s
                    && st.frontier[idx].depth == st.visited[s];
            if idx < at {
                assert(rest.frontier[idx] == st.frontier[idx]);
            } else if idx > at {
                assert(rest.frontier[idx - 1] == st.frontier[idx]);
            }
        } else {
            assert(settled(st, s, target, margin, max_depth));
        }
    }
    assert(consistent(rest, root, target, margin, max_depth, Some(node)));
    if node.depth >= max_depth {
        assert forall|s: Seq<i64>| #[trigger] rest.visited.contains_key(s) implies waiting(rest, s)
            || settled(rest, s, target, margin, max_depth) by {
            if in_hand(rest, s, Some(node)) {
                assert(settled(rest, s, target, margin, max_depth));
            }
        }
    } else {
        let p = consistent_with(node, root, target, margin, max_depth);
        assert forall|s: SearchState, c: NodeView| p(s) && child_of(node, c, target) implies p(
            #[trigger] offer(s, c),
        ) by {
            lemma_child_good(node, c, root, target, max_depth);
            lemma_offer_consistent(s, c, root, target, margin, max_depth, Some(node));
        }
        assert(p(rest));
        lemma_expand_keeps(p, rest, node, target);
        let after = expand(rest, node, target);
        assert(p(after));
        lemma_expand_covers(rest, node, target);
        assert forall|s: Seq<i64>| #[trigger] after.visited.contains_key(s) implies waiting(
            after,
            s,
        ) || settled(after, s, target, margin, max_depth) by {
            if in_hand(after, s, Some(node)) {
                assert forall|t: Seq<i64>| #[trigger] is_successor(s, t) implies covered(
                    after.visited,
                    t,
                    after.visited[s] + 1,
                ) by {}
                assert(settled(after, s, target, margin, max_depth));
            }
        }
    }
}

/// Once the open set is empty, the table of a consistent state holds every
/// state that a path within the horizon leads to, no deeper than the path is
/// long, and no such state holds a value within the margin.
pub proof fn lemma_drained_covers(
    st: SearchState,
    root: Seq<i64>,
    target: i64,
    margin: i64,
    max_depth: nat,
    path: Seq<PathStep>,
    state: Seq<i64>,
)
    requires
        consistent(st, root, target, margin, max_depth, None),
        st.frontier.len() == 0,
        path.len() <= max_depth,
        follows(root, path, state),
    ensures
        covered(st.visited, state, path.len()),
        !has_close(state, target, margin),
    decreases path.len(),
{
    if path.len() > 0 {
        let prev = choose|prev: Seq<i64>|
            follows(root, path.drop_last(), prev) && #[trigger] step_applies(
                prev,
                path.last(),
                state,
            );
        lemma_drained_covers(st, root, target, margin, max_depth, path.drop_last(), prev);
        lemma_step_is_successor(prev, path.last(), state);
        assert(st.visited.contains_key(prev));
        assert(settled(st, prev, target, margin, max_depth));
        assert(is_successor(prev, state));
    }
    assert(st.visited.contains_key(state));
    assert(settled(st, state, target, margin, max_depth));
}

/// What a search that continues from a consistent state ends on: a good
/// node that holds a value within the margin, or, where it ends on no node,
/// the knowledge that no path within the horizon leads to such a state.
pub proof fn lemma_run_consistent(
    st: SearchState,
    root: Seq<i64>,
    target: i64,
    margin: i64,
    max_depth: nat,
)
    requires
        consistent(st, root, target, margin, max_depth, None),
    ensures
        match run(st, target, margin, max_depth) {
            Some(node) => good_node(node, root, target, max_depth) && has_close(
                node.values,
                target,
                margin,
            ),
            None => forall|path: Seq<PathStep>, state: Seq<i64>|
                path.len() <= max_depth && #[trigger] follows(root, path, state) ==> !has_close(
                    state,
                    target,
                    margin,
                ),
        },
    decreases measure(st.frontier, max_depth),
{
    if st.frontier.len() == 0 {
        assert forall|path: Seq<PathStep>, state: Seq<i64>|
            path.len() <= max_depth && #[trigger] follows(root, path, state) implies !has_close(
            state,
            target,
            margin,
        ) by {
            lemma_drained_covers(st, root, target, margin, max_depth, path, state);
        }
    } else {
        lemma_first_min_upto(st.frontier, st.frontier.len() as int);
        if !has_close(next_node(st).values, target, margin) {
            lemma_advance_decreases(st, target, max_depth);
            lemma_advance_consistent(st, root, target, margin, max_depth);
            lemma_run_consistent(advance(st, target, max_depth), root, target, margin, max_depth);
        }
    }
}

/// Soundness and depth bound: the node on which a search ends holds a value
/// within the margin, its path leads from the inputs to its state, and the
/// path is as long as the node is deep, which is at most the horizon.
pub proof fn lemma_outcome_sound(inputs: Seq<i64>, target: i64, margin: i64, max_depth: nat)
    ensures
        search_outcome(inputs, target, margin, max_depth) matches Some(node) ==> {
            &&& has_close(node.values, target, margin)
            &&& follows(inputs, node.path, node.values)
            &&& node.path.len() == node.depth
            &&& node.path.len() <= max_depth
            &&& node.estimated_cost == heuristic(node.values, target)
        },
{
    lemma_initial_consistent(inputs, target, margin, max_depth);
    lemma_run_consistent(initial_state(inputs, target), inputs, target, margin, max_depth);
}

/// Exhaustion: where a search ends on no node, no chain of operations within
/// the horizon leads from the inputs to a state that holds a value within
/// the margin.
pub proof fn lemma_outcome_exhaustive(inputs: Seq<i64>, target: i64, margin: i64, max_depth: nat)
    ensures
        search_outcome(inputs, target, margin, max_depth) is None ==> forall|
            path: Seq<PathStep>,
            state: Seq<i64>,
        |
            path.len() <= max_depth && #[trigger] follows(inputs, path, state) ==> !has_close(
                state,
                target,
                margin,
            ),
{
    lemma_initial_consistent(inputs, target, margin, max_depth);
    lemma_run_consistent(initial_state(inputs, target), inputs, target, margin, max_depth);
}

/// Conservation at the end of a search: the sum of the values of the node
/// on which the search ends differs from the sum of the inputs by at most
/// two units for each step of its path, provided that every step of the
/// path is exact.
pub proof fn lemma_outcome_conserves(inputs: Seq<i64>, target: i64, margin: i64, max_depth: nat)
    ensures
        search_outcome(inputs, target, margin, max_depth) matches Some(node) ==> (path_is_exact(
            node.path,
        ) ==> -2 * node.path.len() <= total(node.values) - total(inputs) <= 2 * node.path.len()),
{
    lemma_outcome_sound(inputs, target, margin, max_depth);
    if let Some(node) = search_outcome(inputs, target, margin, max_depth) {
        if path_is_exact(node.path) {
            lemma_path_conserves(inputs, node.path, node.values);
        }
    }
}

} // verus!
