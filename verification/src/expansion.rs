//! What an expansion does to a search state: it keeps every property that
//! each single offer keeps, and it leaves no successor of the expanded node
//! outside the table.

use vstd::prelude::*;
use crate::frontier::NodeView;
use crate::heuristic::heuristic;
use crate::model::{
    child_combine_three, child_combine_two, child_split_three, child_split_two, expand, offer,
    offer_from, offer_pairs, offer_triples, offer_triples_with, offer_upto, SearchState,
};
use crate::moves::{
    combine_three_at, combine_two_at, is_successor, split_three_at, split_two_at,
};
use crate::reach::step_applies;

verus! {

/// Whether `c` is a node that the expansion of `node` offers: one operation
/// further, with the operation's record at the end of its path.
pub open spec fn child_of(node: NodeView, c: NodeView, target: i64) -> bool {
    &&& c.path.len() == node.path.len() + 1
    &&& c.path.drop_last() == node.path
    &&& step_applies(node.values, c.path.last(), c.values)
    &&& c.depth == node.depth + 1
    &&& c.estimated_cost == heuristic(c.values, target)
}

/// Whether the property `p` of search states survives the offer of any
/// child of `node`.
pub open spec fn kept_by_offers(p: spec_fn(SearchState) -> bool, node: NodeView, target: i64) -> bool {
    forall|st: SearchState, c: NodeView|
        p(st) && child_of(node, c, target) ==> p(#[trigger] offer(st, c))
}

/// Whether the table holds `state` at depth `depth` or less.
pub open spec fn covered(visited: Map<Seq<i64>, nat>, state: Seq<i64>, depth: nat) -> bool {
    visited.contains_key(state) && visited[state] <= depth
}

/// The split in two at a valid index gives a child.
pub proof fn lemma_child_split_two(node: NodeView, i: int, target: i64)
    requires
        0 <= i < node.values.len(),
    ensures
        child_of(node, child_split_two(node, i, target), target),
{
    let c = child_split_two(node, i, target);
    assert(c.path.drop_last() =~= node.path);
    assert(split_two_at(node.values, i) == c.values);
}

/// The split in three at a valid index gives a child.
pub proof fn lemma_child_split_three(node: NodeView, i: int, target: i64)
    requires
        0 <= i < node.values.len(),
    ensures
        child_of(node, child_split_three(node, i, target), target),
{
    let c = child_split_three(node, i, target);
    assert(c.path.drop_last() =~= node.path);
    assert(split_three_at(node.values, i) == c.values);
}

/// The sum of two at valid indices gives a child.
pub proof fn lemma_child_combine_two(node: NodeView, i: int, j: int, target: i64)
    requires
        0 <= i < j < node.values.len(),
    ensures
        child_of(node, child_combine_two(node, i, j, target), target),
{
    let c = child_combine_two(node, i, j, target);
    assert(c.path.drop_last() =~= node.path);
    assert(combine_two_at(node.values, i, j) == c.values);
}

/// The sum of three at valid indices gives a child.
pub proof fn lemma_child_combine_three(node: NodeView, i: int, j: int, k: int, target: i64)
    requires
        0 <= i < j < k < node.values.len(),
    ensures
        child_of(node, child_combine_three(node, i, j, k, target), target),
{
    let c = child_combine_three(node, i, j, k, target);
    assert(c.path.drop_last() =~= node.path);
    assert(combine_three_at(node.values, i, j, k) == c.values);
}

/// Offering the sums of three that share their first two indices keeps what
/// each offer keeps.
pub proof fn lemma_triples_with_keeps(
    p: spec_fn(SearchState) -> bool,
    st: SearchState,
    node: NodeView,
    target: i64,
    i: int,
    j: int,
    k: int,
)
    requires
        p(st),
        kept_by_offers(p, node, target),
        0 <= i < j,
        k <= node.values.len(),
    ensures
        p(offer_triples_with(st, node, target, i, j, k)),
    decreases k - j,
{
    if k > j + 1 {
        lemma_triples_with_keeps(p, st, node, target, i, j, k - 1);
        lemma_child_combine_three(node, i, j, k - 1, target);
    }
}

/// Offering the sums of three from one first index keeps what each offer
/// keeps.
pub proof fn lemma_triples_keeps(
    p: spec_fn(SearchState) -> bool,
    st: SearchState,
    node: NodeView,
    target: i64,
    i: int,
    j: int,
)
    requires
        p(st),
        kept_by_offers(p, node, target),
        0 <= i,
        j <= node.values.len(),
    ensures
        p(offer_triples(st, node, target, i, j)),
    decreases j - i,
{
    if j > i + 1 {
        lemma_triples_keeps(p, st, node, target, i, j - 1);
        lemma_triples_with_keeps(
            p,
            offer_triples(st, node, target, i, j - 1),
            node,
            target,
            i,
            j - 1,
            node.values.len() as int,
        );
    }
}

/// Offering the sums of two from one first index keeps what each offer
/// keeps.
pub proof fn lemma_pairs_keeps(
    p: spec_fn(SearchState) -> bool,
    st: SearchState,
    node: NodeView,
    target: i64,
    i: int,
    j: int,
)
    requires
        p(st),
        kept_by_offers(p, node, target),
        0 <= i,
        j <= node.values.len(),
    ensures
        p(offer_pairs(st, node, target, i, j)),
    decreases j - i,
{
    if j > i + 1 {
        lemma_pairs_keeps(p, st, node, target, i, j - 1);
        lemma_child_combine_two(node, i, j - 1, target);
    }
}

/// Offering the successors from one first index keeps what each offer
/// keeps, at every stage.
pub proof fn lemma_from_keeps(
    p: spec_fn(SearchState) -> bool,
    st: SearchState,
    node: NodeView,
    target: i64,
    i: int,
)
    requires
        p(st),
        kept_by_offers(p, node, target),
        0 <= i < node.values.len(),
    ensures
        p(offer(st, child_split_two(node, i, target))),
        p(offer(offer(st, child_split_two(node, i, target)), child_split_three(node, i, target))),
        p(
            offer_pairs(
                offer(
                    offer(st, child_split_two(node, i, target)),
                    child_split_three(node, i, target),
                ),
                node,
                target,
                i,
                node.values.len() as int,
            ),
        ),
        p(offer_from(st, node, target, i)),
{
    let n = node.values.len() as int;
    lemma_child_split_two(node, i, target);
    lemma_child_split_three(node, i, target);
    let halves = offer(st, child_split_two(node, i, target));
    let thirds = offer(halves, child_split_three(node, i, target));
    lemma_pairs_keeps(p, thirds, node, target, i, n);
    lemma_triples_keeps(p, offer_pairs(thirds, node, target, i, n), node, target, i, n);
}

/// Offering the successors from the first indices below `i` keeps what each
/// offer keeps.
pub proof fn lemma_upto_keeps(
    p: spec_fn(SearchState) -> bool,
    st: SearchState,
    node: NodeView,
    target: i64,
    i: int,
)
    requires
        p(st),
        kept_by_offers(p, node, target),
        i <= node.values.len(),
    ensures
        p(offer_upto(st, node, target, i)),
    decreases i,
{
    if i > 0 {
        lemma_upto_keeps(p, st, node, target, i - 1);
        lemma_from_keeps(p, offer_upto(st, node, target, i - 1), node, target, i - 1);
    }
}

/// An expansion keeps every property that the offer of each child keeps.
pub proof fn lemma_expand_keeps(
    p: spec_fn(SearchState) -> bool,
    st: SearchState,
    node: NodeView,
    target: i64,
)
    requires
        p(st),
        kept_by_offers(p, node, target),
    ensures
        p(expand(st, node, target)),
{
    lemma_upto_keeps(p, st, node, target, node.values.len() as int);
}

/// The property of a search state that its table holds `state` at `depth`
/// or less.
pub open spec fn covers(state: Seq<i64>, depth: nat) -> spec_fn(SearchState) -> bool {
    |st: SearchState| covered(st.visited, state, depth)
}

/// No offer takes a state out of the table or raises its depth.
pub proof fn lemma_covers_kept(state: Seq<i64>, depth: nat, node: NodeView, target: i64)
    ensures
        kept_by_offers(covers(state, depth), node, target),
{
    let p = covers(state, depth);
    assert forall|st: SearchState, c: NodeView| p(st) && child_of(node, c, target) implies p(
        #[trigger] offer(st, c),
    ) by {}
}

/// After an offer the table holds the offered state at the offered depth or
/// less.
pub proof fn lemma_offer_covers(st: SearchState, c: NodeView)
    ensures
        covered(offer(st, c).visited, c.values, c.depth),
{
}

/// After the sums of three that share their first two indices are offered,
/// the table holds each of them.
pub proof fn lemma_triples_with_covers(
    st: SearchState,
    node: NodeView,
    target: i64,
    i: int,
    j: int,
    k: int,
)
    requires
        0 <= i < j,
        k <= node.values.len(),
    ensures
        forall|c: int|
            j < c < k ==> covered(
                offer_triples_with(st, node, target, i, j, k).visited,
                #[trigger] combine_three_at(node.values, i, j, c),
                node.depth + 1,
            ),
    decreases k - j,
{
    if k > j + 1 {
        lemma_triples_with_covers(st, node, target, i, j, k - 1);
        let before = offer_triples_with(st, node, target, i, j, k - 1);
        let last = child_combine_three(node, i, j, k - 1, target);
        lemma_child_combine_three(node, i, j, k - 1, target);
        assert forall|c: int| j < c < k implies covered(
            offer(before, last).visited,
            #[trigger] combine_three_at(node.values, i, j, c),
            node.depth + 1,
        ) by {
            if c < k - 1 {
                lemma_covers_kept(combine_three_at(node.values, i, j, c), node.depth + 1, node, target);
                assert(covers(combine_three_at(node.values, i, j, c), node.depth + 1)(before));
            } else {
                lemma_offer_covers(before, last);
            }
        }
    }
}

/// After the sums of three from one first index are offered, the table
/// holds each of them.
pub proof fn lemma_triples_covers(st: SearchState, node: NodeView, target: i64, i: int, j: int)
    requires
        0 <= i,
        j <= node.values.len(),
    ensures
        forall|b: int, c: int|
            i < b < j && b < c < node.values.len() ==> covered(
                offer_triples(st, node, target, i, j).visited,
                #[trigger] combine_three_at(node.values, i, b, c),
                node.depth + 1,
            ),
    decreases j - i,
{
    if j > i + 1 {
        let n = node.values.len() as int;
        lemma_triples_covers(st, node, target, i, j - 1);
        let before = offer_triples(st, node, target, i, j - 1);
        let after = offer_triples_with(before, node, target, i, j - 1, n);
        lemma_triples_with_covers(before, node, target, i, j - 1, n);
        assert forall|b: int, c: int| i < b < j && b < c < n implies covered(
            after.visited,
            #[trigger] combine_three_at(node.values, i, b, c),
            node.depth + 1,
        ) by {
            if b < j - 1 {
                let t = combine_three_at(node.values, i, b, c);
                lemma_covers_kept(t, node.depth + 1, node, target);
                assert(covers(t, node.depth + 1)(before));
                lemma_triples_with_keeps(
                    covers(t, node.depth + 1),
                    before,
                    node,
                    target,
                    i,
                    j - 1,
                    n,
                );
            }
        }
    }
}

/// After the sums of two from one first index are offered, the table holds
/// each of them.
pub proof fn lemma_pairs_covers(st: SearchState, node: NodeView, target: i64, i: int, j: int)
    requires
        0 <= i,
        j <= node.values.len(),
    ensures
        forall|b: int|
            i < b < j ==> covered(
                offer_pairs(st, node, target, i, j).visited,
                #[trigger] combine_two_at(node.values, i, b),
                node.depth + 1,
            ),
    decreases j - i,
{
    if j > i + 1 {
        lemma_pairs_covers(st, node, target, i, j - 1);
        let before = offer_pairs(st, node, target, i, j - 1);
        let last = child_combine_two(node, i, j - 1, target);
        lemma_child_combine_two(node, i, j - 1, target);
        assert forall|b: int| i < b < j implies covered(
            offer(before, last).visited,
            #[trigger] combine_two_at(node.values, i, b),
            node.depth + 1,
        ) by {
            if b < j - 1 {
                lemma_covers_kept(combine_two_at(node.values, i, b), node.depth + 1, node, target);
                assert(covers(combine_two_at(node.values, i, b), node.depth + 1)(before));
            } else {
                lemma_offer_covers(before, last);
            }
        }
    }
}

/// Whether the table holds, at one step below `node` or less, every
/// successor of `node` whose first index is `a`.
pub open spec fn covers_from(visited: Map<Seq<i64>, nat>, node: NodeView, a: int) -> bool {
    &&& covered(visited, split_two_at(node.values, a), node.depth + 1)
    &&& covered(visited, split_three_at(node.values, a), node.depth + 1)
    &&& forall|b: int|
        a < b < node.values.len() ==> covered(
            visited,
            #[trigger] combine_two_at(node.values, a, b),
            node.depth + 1,
        )
    &&& forall|b: int, c: int|
        a < b < c < node.values.len() ==> covered(
            visited,
            #[trigger] combine_three_at(node.values, a, b, c),
            node.depth + 1,
        )
}

/// The property of a search state that its table satisfies
/// [`covers_from`].
pub open spec fn covering_from(node: NodeView, a: int) -> spec_fn(SearchState) -> bool {
    |st: SearchState| covers_from(st.visited, node, a)
}

/// No offer undoes [`covers_from`].
pub proof fn lemma_covering_from_kept(node: NodeView, a: int, target: i64)
    ensures
        kept_by_offers(covering_from(node, a), node, target),
{
    let p = covering_from(node, a);
    assert forall|st: SearchState, c: NodeView| p(st) && child_of(node, c, target) implies p(
        #[trigger] offer(st, c),
    ) by {
        let after = offer(st, c);
        assert forall|t: Seq<i64>| #[trigger]
            covered(st.visited, t, node.depth + 1) implies covered(
            after.visited,
            t,
            node.depth + 1,
        ) by {}
    }
}

/// After the successors from one first index are offered, the table holds
/// each of them.
pub proof fn lemma_from_covers(st: SearchState, node: NodeView, target: i64, i: int)
    requires
        0 <= i < node.values.len(),
    ensures
        covers_from(offer_from(st, node, target, i).visited, node, i),
{
    let n = node.values.len() as int;
    let d = node.depth + 1;
    let c2 = child_split_two(node, i, target);
    let c3 = child_split_three(node, i, target);
    let halves = offer(st, c2);
    let thirds = offer(halves, c3);
    let pairs = offer_pairs(thirds, node, target, i, n);
    let done = offer_triples(pairs, node, target, i, n);
    lemma_child_split_two(node, i, target);
    lemma_child_split_three(node, i, target);
    // the split in two
    lemma_offer_covers(st, c2);
    let keeps_halves = covers(c2.values, d as nat);
    lemma_covers_kept(c2.values, d as nat, node, target);
    assert(keeps_halves(halves));
    assert(keeps_halves(thirds));
    lemma_pairs_keeps(keeps_halves, thirds, node, target, i, n);
    lemma_triples_keeps(keeps_halves, pairs, node, target, i, n);
    assert(keeps_halves(done));
    // the split in three
    lemma_offer_covers(halves, c3);
    let keeps_thirds = covers(c3.values, d as nat);
    lemma_covers_kept(c3.values, d as nat, node, target);
    assert(keeps_thirds(thirds));
    lemma_pairs_keeps(keeps_thirds, thirds, node, target, i, n);
    lemma_triples_keeps(keeps_thirds, pairs, node, target, i, n);
    assert(keeps_thirds(done));
    // the sums of two
    lemma_pairs_covers(thirds, node, target, i, n);
    assert forall|b: int| i < b < n implies covered(
        done.visited,
        #[trigger] combine_two_at(node.values, i, b),
        d as nat,
    ) by {
        let t = combine_two_at(node.values, i, b);
        lemma_covers_kept(t, d as nat, node, target);
        assert(covers(t, d as nat)(pairs));
        lemma_triples_keeps(covers(t, d as nat), pairs, node, target, i, n);
    }
    // the sums of three
    lemma_triples_covers(pairs, node, target, i, n);
}

/// After the successors from the first indices below `i` are offered, the
/// table holds each of them.
pub proof fn lemma_upto_covers(st: SearchState, node: NodeView, target: i64, i: int)
    requires
        0 <= i <= node.values.len(),
    ensures
        forall|a: int| 0 <= a < i ==> covers_from(offer_upto(st, node, target, i).visited, node, a),
    decreases i,
{
    if i > 0 {
        lemma_upto_covers(st, node, target, i - 1);
        let before = offer_upto(st, node, target, i - 1);
        let after = offer_from(before, node, target, i - 1);
        lemma_from_covers(before, node, target, i - 1);
        assert forall|a: int| 0 <= a < i implies covers_from(after.visited, node, a) by {
            if a < i - 1 {
                lemma_covering_from_kept(node, a, target);
                assert(covering_from(node, a)(before));
                lemma_from_keeps(covering_from(node, a), before, node, target, i - 1);
            }
        }
    }
}

/// After an expansion the table holds every successor of the expanded node,
/// one step below it or less.
pub proof fn lemma_expand_covers(st: SearchState, node: NodeView, target: i64)
    ensures
        forall|t: Seq<i64>| #[trigger]
            is_successor(node.values, t) ==> covered(
                expand(st, node, target).visited,
                t,
                node.depth + 1,
            ),
{
    let n = node.values.len() as int;
    lemma_upto_covers(st, node, target, n);
    let after = expand(st, node, target);
    assert forall|t: Seq<i64>| #[trigger] is_successor(node.values, t) implies covered(
        after.visited,
        t,
        node.depth + 1,
    ) by {
        let s = node.values;
        if exists|i: int| 0 <= i < s.len() && t == #[trigger] split_two_at(s, i) {
            let i = choose|i: int| 0 <= i < s.len() && t == #[trigger] split_two_at(s, i);
            assert(covers_from(after.visited, node, i));
        } else if exists|i: int| 0 <= i < s.len() && t == #[trigger] split_three_at(s, i) {
            let i = choose|i: int| 0 <= i < s.len() && t == #[trigger] split_three_at(s, i);
            assert(covers_from(after.visited, node, i));
        } else if exists|i: int, j: int|
            0 <= i < j < s.len() && t == #[trigger] combine_two_at(s, i, j) {
            let (i, j) = choose|i: int, j: int|
                0 <= i < j < s.len() && t == #[trigger] combine_two_at(s, i, j);
            assert(covers_from(after.visited, node, i));
        } else {
            let (i, j, k) = choose|i: int, j: int, k: int|
                0 <= i < j < k < s.len() && t == #[trigger] combine_three_at(s, i, j, k);
            assert(covers_from(after.visited, node, i));
        }
    }
}

} // verus!
