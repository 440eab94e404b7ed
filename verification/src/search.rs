//! The search engine: the open set and the table of seen states, and the
//! loop that runs rounds on them until a node ends the search or none is
//! left.

use vstd::prelude::*;
use crate::frontier::{Frontier, Node};
use crate::heuristic::calculate_heuristic;
use crate::model::{
    advance, after_pop, child, expand, initial_state, lemma_advance_decreases, measure, next_node,
    offer, offer_from, offer_pairs, offer_triples, offer_triples_with, offer_upto, run,
    search_outcome, SearchState,
};
use crate::moves::{
    apply_combine_three, apply_combine_two, apply_split_three, apply_split_two, PathStep,
};
use crate::laws::{lemma_outcome_exhaustive, lemma_outcome_sound};
use crate::partition::{
    close_values, far_values, find_final_and_remainder, has_close, is_close, lemma_partition,
};
use crate::reach::follows;
use crate::visited::Visited;

verus! {

/// The depth horizon of [`shortest_path_to_target`]: no node deeper than this
/// is expanded.
pub const MAX_DEPTH: usize = 6;

/// A copy of `path`.
pub fn copy_path(path: &Vec<PathStep>) -> (copy: Vec<PathStep>)
    ensures
        copy@ == path@,
{
    let mut copy: Vec<PathStep> = Vec::with_capacity(path.len());
    let mut i: usize = 0;
    while i < path.len()
        invariant
            i <= path.len(),
            copy@ == path@.take(i as int),
        decreases path.len() - i,
    {
        copy.push(path[i]);
        assert(copy@ =~= path@.take(i + 1));
        i = i + 1;
    }
    assert(path@.take(path@.len() as int) =~= path@);
    copy
}

/// A search in progress.
pub struct Search {
    frontier: Frontier,
    visited: Visited,
}

impl View for Search {
    type V = SearchState;

    closed spec fn view(&self) -> SearchState {
        SearchState { frontier: self.frontier@, visited: self.visited@ }
    }
}

impl Search {
    /// The invariant of the table of seen states.
    pub closed spec fn wf(&self) -> bool {
        self.visited.wf()
    }

    /// A search about to start: the root waits in the open set and is
    /// recorded at depth zero.
    pub fn start(inputs: Vec<i64>, target: i64) -> (search: Search)
        ensures
            search.wf(),
            search@ == initial_state(inputs@, target),
    {
        let estimated_cost = calculate_heuristic(inputs.as_slice(), target);
        let mut visited = Visited::new();
        visited.record(&inputs, 0);
        let mut frontier = Frontier::new();
        frontier.push(Node { values: inputs, path: Vec::new(), depth: 0, estimated_cost });
        Search { frontier, visited }
    }

    /// Takes the next node out of the open set: the cheapest, and the oldest
    /// among the cheapest.
    pub fn pop(&mut self) -> (popped: Option<Node>)
        requires
            old(self).wf(),
        ensures
            final(self).wf(),
            match popped {
                Some(node) => {
                    &&& old(self)@.frontier.len() > 0
                    &&& node@ == next_node(old(self)@)
                    &&& final(self)@ == after_pop(old(self)@)
                },
                None => old(self)@.frontier.len() == 0 && final(self)@ == old(self)@,
            },
    {
        self.frontier.pop_min()
    }

    /// Offers the state `values`, reached from `parent` by `step`: it joins
    /// the open set where the table lets it in.
    pub fn offer(&mut self, parent: &Node, values: Vec<i64>, step: PathStep, target: i64)
        requires
            old(self).wf(),
            parent.depth < usize::MAX,
        ensures
            final(self).wf(),
            final(self)@ == offer(old(self)@, child(parent@, values@, step, target)),
    {
        let depth = parent.depth + 1;
        if self.visited.relax(&values, depth) {
            let estimated_cost = calculate_heuristic(values.as_slice(), target);
            let mut path = copy_path(&parent.path);
            path.push(step);
            self.frontier.push(Node { values, path, depth, estimated_cost });
        }
    }

    /// Offers every successor of `node`: for each index in turn, the split
    /// in two, the split in three, each sum with one later value and each sum
    /// with two later values.
    pub fn expand(&mut self, node: &Node, target: i64)
        requires
            old(self).wf(),
            node.depth < usize::MAX,
        ensures
            final(self).wf(),
            final(self)@ == expand(old(self)@, node@, target),
    {
        let n = node.values.len();
        let mut i: usize = 0;
        while i < n
            invariant
                i <= n,
                n == node.values.len(),
                node.depth < usize::MAX,
                self.wf(),
                self@ == offer_upto(old(self)@, node@, target, i as int),
            decreases n - i,
        {
            let ghost at_index = self@;
            let (halves, halving) = apply_split_two(&node.values, i);
            self.offer(node, halves, halving, target);
            let (thirds, thirding) = apply_split_three(&node.values, i);
            self.offer(node, thirds, thirding, target);
            let ghost at_pairs = self@;
            let mut j: usize = i + 1;
            while j < n
                invariant
                    i < j <= n,
                    n == node.values.len(),
                    node.depth < usize::MAX,
                    self.wf(),
                    self@ == offer_pairs(at_pairs, node@, target, i as int, j as int),
                decreases n - j,
            {
                let (summed, summing) = apply_combine_two(&node.values, i, j);
                self.offer(node, summed, summing, target);
                j = j + 1;
            }
            let ghost at_triples = self@;
            let mut j: usize = i + 1;
            while j < n
                invariant
                    i < j <= n,
                    n == node.values.len(),
                    node.depth < usize::MAX,
                    self.wf(),
                    self@ == offer_triples(at_triples, node@, target, i as int, j as int),
                decreases n - j,
            {
                let ghost at_second = self@;
                let mut k: usize = j + 1;
                while k < n
                    invariant
                        i < j < k <= n,
                        n == node.values.len(),
                        node.depth < usize::MAX,
                        self.wf(),
                        self@ == offer_triples_with(
                            at_second,
                            node@,
                            target,
                            i as int,
                            j as int,
                            k as int,
                        ),
                    decreases n - k,
                {
                    let (summed, summing) = apply_combine_three(&node.values, i, j, k);
                    self.offer(node, summed, summing, target);
                    k = k + 1;
                }
                j = j + 1;
            }
            assert(self@ == offer_from(at_index, node@, target, i as int));
            i = i + 1;
        }
    }
}

/// Whether a result presents the node on which a search ended: the node's
/// values within the margin, its other values, and its path; or nothing
/// where the search ended on no node.
pub open spec fn presents(
    found: Option<(Vec<i64>, Vec<i64>, Vec<PathStep>)>,
    outcome: Option<crate::frontier::NodeView>,
    target: i64,
    margin: i64,
) -> bool {
    match outcome {
        Some(node) => match found {
            Some((final_values, remainder, path)) => {
                &&& final_values@ == close_values(node.values, target, margin)
                &&& remainder@ == far_values(node.values, target, margin)
                &&& path@ == node.path
            },
            None => false,
        },
        None => found is None,
    }
}

/// Determinism: any two results that present the outcome of the search on
/// the same inputs, target, margin and horizon agree: both are `None`, or
/// both hold the same final values, the same remainder and the same path.
pub proof fn lemma_results_agree(
    first: Option<(Vec<i64>, Vec<i64>, Vec<PathStep>)>,
    second: Option<(Vec<i64>, Vec<i64>, Vec<PathStep>)>,
    inputs: Seq<i64>,
    target: i64,
    margin: i64,
    max_depth: nat,
)
    requires
        presents(first, search_outcome(inputs, target, margin, max_depth), target, margin),
        presents(second, search_outcome(inputs, target, margin, max_depth), target, margin),
    ensures
        match (first, second) {
            (Some((final_values, remainder, path)), Some((other_final, other_remainder, other_path))) => {
                &&& final_values@ == other_final@
                &&& remainder@ == other_remainder@
                &&& path@ == other_path@
            },
            (None, None) => true,
            _ => false,
        },
{
}

/// Whether `final_values`, `remainder` and `path` are a solution: the path
/// has at most `max_depth` steps and leads from the inputs to a state of
/// which `final_values` are the values within the margin, at least one, and
/// `remainder` the others.
pub open spec fn is_solution(
    inputs: Seq<i64>,
    target: i64,
    margin: i64,
    max_depth: nat,
    final_values: Seq<i64>,
    remainder: Seq<i64>,
    path: Seq<PathStep>,
) -> bool {
    &&& path.len() <= max_depth
    &&& final_values.len() > 0
    &&& exists|state: Seq<i64>|
        {
            &&& #[trigger] follows(inputs, path, state)
            &&& final_values == close_values(state, target, margin)
            &&& remainder == far_values(state, target, margin)
        }
}

/// Whether no chain of at most `max_depth` operations leads from the inputs
/// to a state that holds a value within the margin.
pub open spec fn out_of_reach(inputs: Seq<i64>, target: i64, margin: i64, max_depth: nat) -> bool {
    forall|path: Seq<PathStep>, state: Seq<i64>|
        path.len() <= max_depth && #[trigger] follows(inputs, path, state) ==> !has_close(
            state,
            target,
            margin,
        )
}

/// Searches for a chain of at most `max_depth` operations from `inputs` to a
/// state that holds a value within `margin` of `target`, cheapest node
/// first. Returns that state's values within the margin, its other values
/// and the chain; `None` where the open set runs empty, which happens
/// exactly when no such chain exists.
pub fn search(inputs: Vec<i64>, target: i64, margin: i64, max_depth: usize) -> (found: Option<
    (Vec<i64>, Vec<i64>, Vec<PathStep>),
>)
    ensures
        presents(found, search_outcome(inputs@, target, margin, max_depth as nat), target, margin),
        found is None <==> out_of_reach(inputs@, target, margin, max_depth as nat),
        found matches Some((final_values, remainder, path)) ==> {
            &&& is_solution(
                inputs@,
                target,
                margin,
                max_depth as nat,
                final_values@,
                remainder@,
                path@,
            )
            &&& forall|i: int|
                0 <= i < final_values@.len() ==> is_close(
                    #[trigger] final_values@[i],
                    target,
                    margin,
                )
            &&& forall|i: int|
                0 <= i < remainder@.len() ==> !is_close(#[trigger] remainder@[i], target, margin)
        },
{
    let ghost root = inputs@;
    proof {
        lemma_outcome_sound(root, target, margin, max_depth as nat);
        lemma_outcome_exhaustive(root, target, margin, max_depth as nat);
    }
    let mut search = Search::start(inputs, target);
    loop
        invariant
            root == inputs@,
            search.wf(),
            run(search@, target, margin, max_depth as nat) == search_outcome(
                root,
                target,
                margin,
                max_depth as nat,
            ),
            search_outcome(root, target, margin, max_depth as nat) matches Some(node) ==> {
                &&& follows(root, node.path, node.values)
                &&& node.path.len() <= max_depth
            },
            search_outcome(root, target, margin, max_depth as nat) is None ==> out_of_reach(
                root,
                target,
                margin,
                max_depth as nat,
            ),
        decreases measure(search@.frontier, max_depth as nat),
    {
        let ghost before = search@;
        match search.pop() {
            None => {
                return None;
            },
            Some(current) => {
                match find_final_and_remainder(current.values.as_slice(), target, margin) {
                    Some((final_values, remainder)) => {
                        proof {
                            lemma_partition(current.values@, target, margin);
                            assert(follows(root, current.path@, current.values@));
                            assert(!out_of_reach(root, target, margin, max_depth as nat));
                        }
                        return Some((final_values, remainder, current.path));
                    },
                    None => {
                        proof {
                            lemma_advance_decreases(before, target, max_depth as nat);
                        }
                        if current.depth < max_depth {
                            search.expand(&current, target);
                        }
                        assert(search@ == advance(before, target, max_depth as nat));
                    },
                }
            },
        }
    }
}

/// Searches with the horizon [`MAX_DEPTH`].
pub fn shortest_path_to_target(inputs: Vec<i64>, target: i64, can_be_off_by: i64) -> (found: Option<
    (Vec<i64>, Vec<i64>, Vec<PathStep>),
>)
    ensures
        presents(
            found,
            search_outcome(inputs@, target, can_be_off_by, MAX_DEPTH as nat),
            target,
            can_be_off_by,
        ),
        found is None <==> out_of_reach(inputs@, target, can_be_off_by, MAX_DEPTH as nat),
        found matches Some((final_values, remainder, path)) ==> {
            &&& is_solution(
                inputs@,
                target,
                can_be_off_by,
                MAX_DEPTH as nat,
                final_values@,
                remainder@,
                path@,
            )
            &&& forall|i: int|
                0 <= i < final_values@.len() ==> is_close(
                    #[trigger] final_values@[i],
                    target,
                    can_be_off_by,
                )
            &&& forall|i: int|
                0 <= i < remainder@.len() ==> !is_close(
                    #[trigger] remainder@[i],
                    target,
                    can_be_off_by,
                )
        },
{
    search(inputs, target, can_be_off_by, MAX_DEPTH)
}

} // verus!
