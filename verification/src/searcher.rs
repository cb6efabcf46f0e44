//! A searcher of the tree of selections: it walks down the tree by the
//! choices of a chooser, plays selections out, and remembers the best.

use crate::generation::{statistics_view, CommandStatistics, StatisticsView};
use crate::random::{next_state, relevant_bits, RandomNumberGenerator};
use crate::scoring::{chosen, greedy_indexes, greedy_score, heuristic_score, indexes_view};
use crate::search_tree::{walked, MonteCarloExplorationData, NodeData, NodeStatistics};
use crate::ordering::{lemma_sorted_is_permutation, sort_recommendations, sorted_descending, SortKey};
use crate::redundancy::{is_kept_item, lemma_picked_are_kept};
use crate::scoring::{
    compute_greedy_best, compute_heuristic_recommendation_score,
    compute_recommendations_for_indexes,
};
use crate::tree_search::{
    add_root_values, best_value, compute_best_index_from_aggregation, compute_number_of_trials,
    best_double, filter_commands, get_root_values, is_rising, is_selection,
    lemma_best_double_is_within, lemma_push_rises, lemma_rolled_is_sound, next_index,
    perform_double_greedy, playout_score, rolled, roller_is_sound, values_taken_in,
    worth_searching, Roller, RollerView,
};
use vstd::prelude::*;

verus! {

/// The candidate index `answer` is the index of one of the children.
pub open spec fn names_child(children: Seq<NodeData>, answer: usize) -> bool {
    exists|k: int| 0 <= k < children.len() && (#[trigger] children[k]).index == answer
}

/// The child that is taken where the chooser answered `answer`: the one
/// with that candidate index, or the first child where there is none.
pub open spec fn resolved_choice(children: Seq<NodeData>, answer: usize) -> usize {
    if names_child(children, answer) {
        answer
    } else {
        children[0].index
    }
}

/// The child that is taken where the chooser answered `answer`.
pub fn resolve_choice(children: &Vec<NodeData>, answer: usize) -> (r: usize)
    requires
        children.len() > 0,
    ensures
        r == resolved_choice(children@, answer),
        names_child(children@, r),
{
    let mut k: usize = 0;
    while k < children.len()
        invariant
            k <= children.len(),
            forall|j: int| 0 <= j < k ==> (#[trigger] children[j]).index != answer,
        decreases children.len() - k,
    {
        if children[k].index == answer {
            return answer;
        }
        k += 1;
    }
    assert(children@[0].index == children[0].index);
    children[0].index
}

/// The trials of each worker: all the trials for a single worker; else
/// seventeen tenths of the trials divided by the number of workers, rounded
/// to the nearest whole number, a half upwards, and no fewer than ten.
pub open spec fn trials_per_worker(number_of_trials: int, number_of_workers: int) -> int {
    if number_of_workers <= 1 {
        number_of_trials
    } else {
        let rounded = (17 * number_of_trials + 5 * number_of_workers) / (10 * number_of_workers);
        if rounded < 10 {
            10
        } else {
            rounded
        }
    }
}

/// The trials of each worker.
pub fn compute_trials_per_worker(number_of_trials: usize, number_of_workers: usize) -> (r: usize)
    ensures
        r == trials_per_worker(number_of_trials as int, number_of_workers as int),
{
    if number_of_workers <= 1 {
        return number_of_trials;
    }
    let trials = number_of_trials as u128;
    let workers = number_of_workers as u128;
    let rounded = (17 * trials + 5 * workers) / (10 * workers);
    assert(rounded <= 17 * trials + 5 * workers);
    assert(rounded <= usize::MAX) by (nonlinear_arith)
        requires
            rounded as int == (17 * trials as int + 5 * workers as int) / (10 * workers as int),
            workers >= 2,
            trials <= usize::MAX,
    ;
    if rounded < 10 {
        10
    } else {
        rounded as usize
    }
}

/// The seeds of the first `count` workers: each is the seed before it,
/// plus a number from one up to, not including, ten thousand that a
/// generator with the state `state` draws next; the sum wraps around.
pub open spec fn worker_seeds(seed: int, state: int, count: int) -> Seq<u64>
    decreases count,
{
    if count <= 0 {
        Seq::empty()
    } else {
        let after = next_state(state);
        let next = ((seed + 1 + relevant_bits(after) % 9999) % 0x1_0000_0000_0000_0000) as u64;
        seq![next] + worker_seeds(next as int, after, count - 1)
    }
}

/// The seeds of the workers, derived from `seed`.
pub fn derive_worker_seeds(seed: u64, number_of_workers: usize) -> (r: Vec<u64>)
    ensures
        r@ == worker_seeds(seed as int, 0, number_of_workers as int),
{
    let mut generator = RandomNumberGenerator::new(0);
    let mut seeds: Vec<u64> = Vec::new();
    let mut current_seed = seed;
    let mut left = number_of_workers;
    let ghost goal = worker_seeds(seed as int, 0, number_of_workers as int);
    assert(seeds@ + goal =~= goal);
    while left > 0
        invariant
            goal == seeds@ + worker_seeds(current_seed as int, generator@, left as int),
        decreases left,
    {
        let ghost before = seeds@;
        let ghost state = generator@;
        let draw = generator.next_in_range(1, 10000);
        let sum = (current_seed as u128 + draw as u128) % 0x1_0000_0000_0000_0000;
        current_seed = sum as u64;
        seeds.push(current_seed);
        left -= 1;
        assert(before + (seq![current_seed] + worker_seeds(
            current_seed as int,
            generator@,
            left as int,
        )) =~= seeds@ + worker_seeds(current_seed as int, generator@, left as int));
    }
    assert(seeds@ + Seq::<u64>::empty() =~= seeds@);
    seeds
}

/// What one searcher found: its best score, the indexes that gave it, and
/// what it knows of its first choices.
pub struct SearchResult {
    pub best_score: u128,
    pub best_recommendation_indexes: Vec<usize>,
    pub root_values: Vec<NodeData>,
}

/// The place among the first `n` results of the one with the highest
/// score, which is above zero; of several such, the first.
pub open spec fn best_result(results: Seq<SearchResult>, n: int) -> Option<int>
    decreases n,
{
    if n <= 0 {
        None
    } else {
        let before = best_result(results, n - 1);
        let bound = match before {
            Some(b) => results[b].best_score,
            None => 0,
        };
        if results[n - 1].best_score > bound {
            Some(n - 1)
        } else {
            before
        }
    }
}

/// What the first `n` searchers know of their first choices, taken
/// together.
pub open spec fn results_root_values(results: Seq<SearchResult>, n: int) -> Seq<NodeData>
    decreases n,
{
    if n <= 0 {
        Seq::empty()
    } else {
        values_taken_in(
            results_root_values(results, n - 1),
            results[n - 1].root_values@,
            results[n - 1].root_values.len() as int,
        )
    }
}

/// What the searchers found, taken together: the highest score with the
/// indexes that gave it, and the first choice with the highest average
/// score over all the searchers.
pub fn reduce_search_results(results: &Vec<SearchResult>) -> (r: (u128, Vec<usize>, usize))
    ensures
        match best_result(results@, results.len() as int) {
            Some(b) => r.0 == results[b].best_score && r.1@
                == results[b].best_recommendation_indexes@,
            None => r.0 == 0 && r.1@ == Seq::<usize>::empty(),
        },
        r.2 == best_value(
            results_root_values(results@, results.len() as int),
            results_root_values(results@, results.len() as int).len() as int,
        ).0,
{
    let mut best_score: u128 = 0;
    let mut best_indexes: Vec<usize> = Vec::new();
    let mut aggregation: Vec<NodeData> = Vec::new();
    let mut i: usize = 0;
    while i < results.len()
        invariant
            i <= results.len(),
            match best_result(results@, i as int) {
                Some(b) => best_score == results[b].best_score && best_indexes@
                    == results[b].best_recommendation_indexes@,
                None => best_score == 0 && best_indexes@ == Seq::<usize>::empty(),
            },
            aggregation@ == results_root_values(results@, i as int),
        decreases results.len() - i,
    {
        let result = &results[i];
        if result.best_score > best_score {
            best_score = result.best_score;
            best_indexes = result.best_recommendation_indexes.clone();
        }
        add_root_values(&mut aggregation, &result.root_values);
        i += 1;
    }
    let best_index = compute_best_index_from_aggregation(&aggregation);
    (best_score, best_indexes, best_index)
}

/// The numbers that steer a search.
#[derive(Clone, Copy, Debug, PartialEq, Eq, Structural)]
pub struct SearchConstants {
    pub rollouts_per_exploration: usize,
    pub rollouts_per_child_expansion: usize,
    pub maximum_depth: usize,
    pub recommendation_limit: usize,
}

/// The path rises, holds no more indexes than are to be selected, and
/// leaves room below `n` for those that are missing.
pub open spec fn has_room(path: Seq<int>, n: int, limit: int) -> bool {
    &&& is_rising(path, n)
    &&& path.len() <= limit
    &&& next_index(path) + (limit - path.len()) <= n
}

/// `path` begins with `start`.
pub open spec fn extends(path: Seq<int>, start: Seq<int>) -> bool {
    start.len() <= path.len() && path.subrange(0, start.len() as int) == start
}

/// The chooser can be asked about any children, where there is one at
/// least.
pub open spec fn is_chooser<F: Fn(&Vec<NodeData>, usize) -> usize>(chooser: F) -> bool {
    forall|children: &Vec<NodeData>, times: usize|
        children.len() > 0 ==> call_requires(chooser, (children, times))
}

/// Asks the chooser which child to take, and takes the first child where
/// the answer is none of them.
pub fn choose_child<F: Fn(&Vec<NodeData>, usize) -> usize>(
    chooser: &F,
    children: &Vec<NodeData>,
    times_parent_explored: usize,
) -> (r: usize)
    requires
        children.len() > 0,
        is_chooser(*chooser),
    ensures
        names_child(children@, r),
        exists|answer: usize|
            call_ensures(*chooser, (children, times_parent_explored), answer) && r
                == resolved_choice(children@, answer),
{
    let answer = chooser(children, times_parent_explored);
    resolve_choice(children, answer)
}

/// The path from the place `from` on.
fn tail_of(path: &Vec<usize>, from: usize) -> (r: Vec<usize>)
    requires
        from <= path.len(),
    ensures
        r@ == path@.subrange(from as int, path.len() as int),
{
    let mut out: Vec<usize> = Vec::new();
    let mut k: usize = from;
    while k < path.len()
        invariant
            from <= k <= path.len(),
            out@ == path@.subrange(from as int, k as int),
        decreases path.len() - k,
    {
        out.push(path[k]);
        k += 1;
    }
    out
}

/// The path with one index more.
fn with_index(path: &Vec<usize>, index: usize) -> (r: Vec<usize>)
    ensures
        r@ == path@.push(index),
{
    let mut out = tail_of(path, 0);
    assert(path@.subrange(0, path.len() as int) =~= path@);
    out.push(index);
    out
}

/// `children` are the places of the tree below `place` whose candidate
/// indexes lie from `first` up to `after_last`: each with what the tree
/// knows of it, by rising index, and none is missing.
pub open spec fn are_children(
    children: Seq<NodeData>,
    data: MonteCarloExplorationData,
    place: Seq<int>,
    first: int,
    after_last: int,
) -> bool {
    &&& forall|k: int|
        0 <= k < children.len() ==> first <= (#[trigger] children[k]).index < after_last
            && data.statistics_at(place.push(children[k].index as int)) == Some(
            NodeStatistics {
                score: children[k].score as int,
                times_explored: children[k].times_explored as int,
            },
        )
    &&& forall|i: int, j: int| 0 <= i < j < children.len() ==> children[i].index < children[j].index
    &&& forall|index: usize|
        first <= index < after_last && data.statistics_at(place.push(index as int)) is Some
            ==> names_child(children, index)
}

/// The times that the place was explored; for the empty place, the
/// explorations in all.
pub open spec fn times_explored(data: MonteCarloExplorationData, place: Seq<int>) -> int {
    if place.len() == 0 {
        data.total_explored()
    } else {
        match data.statistics_at(place) {
            Some(found) => found.times_explored,
            None => 0,
        }
    }
}

/// The tree has a place below `place`.
pub open spec fn has_places_below(data: MonteCarloExplorationData, place: Seq<int>) -> bool {
    exists|index: int| (#[trigger] data.statistics_at(place.push(index))) is Some
}

/// The tree has no place below `place` with a candidate index from `first`
/// up to `after_last`.
pub open spec fn has_no_child_within(
    data: MonteCarloExplorationData,
    place: Seq<int>,
    first: int,
    after_last: int,
) -> bool {
    forall|index: usize|
        first <= index < after_last ==> data.statistics_at(place.push(index as int)) is None
}

/// `choice` is what the chooser made of the children of `place` in the
/// tree: the child that it named, or the first child where it named none.
pub open spec fn is_choice_of<F: Fn(&Vec<NodeData>, usize) -> usize>(
    chooser: F,
    data: MonteCarloExplorationData,
    place: Seq<int>,
    first: int,
    after_last: int,
    choice: usize,
) -> bool {
    exists|children: Vec<NodeData>, answer: usize|
        #![trigger call_ensures(chooser, (&children, times_explored(data, place) as usize), answer)]
        are_children(children@, data, place, first, after_last) && children.len() > 0
            && call_ensures(chooser, (&children, times_explored(data, place) as usize), answer)
            && choice == resolved_choice(children@, answer)
}

/// The children of a place whose candidate indexes lie from `first` up to
/// `after_last`, by rising index.
pub fn compute_children(
    data: &MonteCarloExplorationData,
    place: &Vec<usize>,
    first: usize,
    after_last: usize,
) -> (r: Vec<NodeData>)
    ensures
        are_children(r@, *data, indexes_view(place@), first as int, after_last as int),
        forall|k: int|
            0 <= k < r.len() ==> first <= (#[trigger] r[k]).index < after_last && data.statistics_at(
                indexes_view(place@).push(r[k].index as int),
            ) == Some(
                NodeStatistics {
                    score: r[k].score as int,
                    times_explored: r[k].times_explored as int,
                },
            ),
        forall|i: int, j: int| 0 <= i < j < r.len() ==> r[i].index < r[j].index,
        forall|index: usize|
            first <= index < after_last && data.statistics_at(
                indexes_view(place@).push(index as int),
            ) is Some ==> names_child(r@, index),
{
    let mut children: Vec<NodeData> = Vec::new();
    if first >= after_last {
        return children;
    }
    let ghost here = indexes_view(place@);
    let mut index: usize = first;
    while index < after_last
        invariant
            first <= index <= after_last,
            here == indexes_view(place@),
            forall|k: int|
                0 <= k < children.len() ==> first <= (#[trigger] children[k]).index < index
                    && data.statistics_at(here.push(children[k].index as int)) == Some(
                    NodeStatistics {
                        score: children[k].score as int,
                        times_explored: children[k].times_explored as int,
                    },
                ),
            forall|i: int, j: int| 0 <= i < j < children.len() ==> children[i].index < children[j].index,
            forall|other: usize|
                first <= other < index && data.statistics_at(here.push(other as int)) is Some
                    ==> names_child(children@, other),
        decreases after_last - index,
    {
        let below = with_index(place, index);
        assert(indexes_view(below@) =~= here.push(index as int));
        let ghost before = children@;
        match data.get_statistics(&below) {
            Some(found) => {
                assert(found.index == index);
                children.push(found);
                assert forall|k: int| 0 <= k < children.len() implies first <= (
                #[trigger] children[k]).index < index + 1 && data.statistics_at(
                    here.push(children[k].index as int),
                ) == Some(
                    NodeStatistics {
                        score: children[k].score as int,
                        times_explored: children[k].times_explored as int,
                    },
                ) by {
                    if k < before.len() {
                        assert(children[k] == before[k]);
                    }
                }
                assert forall|i: int, j: int| 0 <= i < j < children.len() implies children[i].index
                    < children[j].index by {
                    assert(children[i] == before[i]);
                    if j < before.len() {
                        assert(children[j] == before[j]);
                    }
                }
                assert forall|other: usize|
                    first <= other < index + 1 && data.statistics_at(
                        here.push(other as int),
                    ) is Some implies names_child(children@, other) by {
                    if other < index {
                        assert(names_child(before, other));
                        let k = choose|k: int|
                            0 <= k < before.len() && (#[trigger] before[k]).index == other;
                        assert(children@[k].index == other);
                    } else {
                        assert(children@[before.len() as int].index == other);
                    }
                }
            },
            None => {},
        }
        index += 1;
    }
    children
}

/// The index after the highest candidate index below `n` of a child of
/// the place; zero where the place has no such child.
pub open spec fn next_index_after(data: MonteCarloExplorationData, place: Seq<int>, n: int) -> int
    decreases n,
{
    if n <= 0 {
        0
    } else if data.statistics_at(place.push(n - 1)) is Some {
        n
    } else {
        next_index_after(data, place, n - 1)
    }
}

/// The index after the highest candidate index, among the
/// `number_of_recommendations` candidates, of a child of the place.
pub fn compute_next_index_after_exploration(
    data: &MonteCarloExplorationData,
    place: &Vec<usize>,
    number_of_recommendations: usize,
) -> (r: usize)
    ensures
        r == next_index_after(*data, indexes_view(place@), number_of_recommendations as int),
{
    let ghost here = indexes_view(place@);
    let mut n: usize = number_of_recommendations;
    while n > 0
        invariant
            here == indexes_view(place@),
            next_index_after(*data, here, number_of_recommendations as int) == next_index_after(
                *data,
                here,
                n as int,
            ),
        decreases n,
    {
        let below = with_index(place, n - 1);
        assert(indexes_view(below@) =~= here.push(n - 1));
        if data.get_statistics(&below).is_some() {
            return n;
        }
        n -= 1;
    }
    0
}

/// The roller after `count` playouts from `path`, one after the other.
pub open spec fn rolled_times(
    roller: RollerView,
    recommendations: Seq<StatisticsView>,
    path: Seq<int>,
    limit: int,
    use_greedy: bool,
    count: int,
) -> RollerView
    decreases count,
{
    if count <= 0 {
        roller
    } else {
        rolled(
            rolled_times(roller, recommendations, path, limit, use_greedy, count - 1),
            recommendations,
            path,
            limit,
            use_greedy,
        )
    }
}

/// The score of the playout from `path` that follows `count` playouts
/// from it.
pub open spec fn score_after(
    roller: RollerView,
    recommendations: Seq<StatisticsView>,
    path: Seq<int>,
    limit: int,
    use_greedy: bool,
    count: int,
) -> int {
    playout_score(
        recommendations,
        path,
        limit,
        rolled_times(roller, recommendations, path, limit, use_greedy, count).state,
        use_greedy,
    )
}

/// A number of explorations more, as far as the count goes.
pub open spec fn explored_more(total: int, times: int) -> int {
    if total + times > usize::MAX {
        usize::MAX as int
    } else {
        total + times
    }
}

/// What is known of a place after the scores of `count` playouts from
/// `path`, the last candidate added greedily, went to the places on the
/// tree path `below`.
pub open spec fn scores_taken(
    before: Option<NodeStatistics>,
    place: Seq<int>,
    below: Seq<int>,
    roller: RollerView,
    recommendations: Seq<StatisticsView>,
    path: Seq<int>,
    limit: int,
    count: int,
) -> Option<NodeStatistics>
    decreases count,
{
    if count <= 0 {
        before
    } else {
        walked(
            scores_taken(before, place, below, roller, recommendations, path, limit, count - 1),
            place,
            below,
            score_after(roller, recommendations, path, limit, true, count - 1),
            0,
            false,
        )
    }
}

/// What is known of a place after a trial on `path`: the places on the
/// tree path `below` were made where they were missing, the scores of
/// `count` playouts went to them, and each was explored `count` times
/// more.
pub open spec fn place_explored(
    before: Option<NodeStatistics>,
    place: Seq<int>,
    below: Seq<int>,
    roller: RollerView,
    recommendations: Seq<StatisticsView>,
    path: Seq<int>,
    limit: int,
    count: int,
) -> Option<NodeStatistics> {
    walked(
        scores_taken(
            walked(before, place, below, 0, 0, false),
            place,
            below,
            roller,
            recommendations,
            path,
            limit,
            count,
        ),
        place,
        below,
        0,
        count,
        false,
    )
}

/// What is known of a place after `count` playouts at random from
/// `path`, whose last index is the end of the tree path `below`: the score
/// of each went to the places on the tree path, and its end was explored
/// once more for each.
pub open spec fn rollouts_taken(
    before: Option<NodeStatistics>,
    place: Seq<int>,
    below: Seq<int>,
    roller: RollerView,
    recommendations: Seq<StatisticsView>,
    path: Seq<int>,
    limit: int,
    count: int,
) -> Option<NodeStatistics>
    decreases count,
{
    if count <= 0 {
        before
    } else {
        walked(
            rollouts_taken(before, place, below, roller, recommendations, path, limit, count - 1),
            place,
            below,
            score_after(roller, recommendations, path, limit, false, count - 1),
            1,
            true,
        )
    }
}

/// The roller after every index from `first` up to `to` was tried after
/// `path`, each with `rollouts` playouts at random.
pub open spec fn roller_after_children(
    roller: RollerView,
    recommendations: Seq<StatisticsView>,
    path: Seq<int>,
    limit: int,
    rollouts: int,
    first: int,
    to: int,
) -> RollerView
    decreases to - first,
{
    if to <= first {
        roller
    } else {
        rolled_times(
            roller_after_children(roller, recommendations, path, limit, rollouts, first, to - 1),
            recommendations,
            path.push(to - 1),
            limit,
            false,
            rollouts,
        )
    }
}

/// What is known of a place after every index from `first` up to `to` was
/// tried after `path`, which ends at the tree path `below`.
pub open spec fn children_taken(
    before: Option<NodeStatistics>,
    place: Seq<int>,
    below: Seq<int>,
    roller: RollerView,
    recommendations: Seq<StatisticsView>,
    path: Seq<int>,
    limit: int,
    rollouts: int,
    first: int,
    to: int,
) -> Option<NodeStatistics>
    decreases to - first,
{
    if to <= first {
        before
    } else {
        rollouts_taken(
            children_taken(
                before,
                place,
                below,
                roller,
                recommendations,
                path,
                limit,
                rollouts,
                first,
                to - 1,
            ),
            place,
            below.push(to - 1),
            roller_after_children(roller, recommendations, path, limit, rollouts, first, to - 1),
            recommendations,
            path.push(to - 1),
            limit,
            rollouts,
        )
    }
}

/// A searcher of the tree of the selections that begin with given
/// candidates.
pub struct MonteCarloTreeSearcher {
    roller: Roller,
    start: Vec<usize>,
    constants: SearchConstants,
    exploration_data: MonteCarloExplorationData,
}

impl MonteCarloTreeSearcher {
    /// The indexes that every selection of the search begins with.
    pub closed spec fn start(&self) -> Seq<int> {
        indexes_view(self.start@)
    }

    /// The number of candidates to select.
    pub closed spec fn limit(&self) -> int {
        self.constants.recommendation_limit as int
    }

    /// The tree of the paths tried.
    pub closed spec fn tree(&self) -> MonteCarloExplorationData {
        self.exploration_data
    }

    /// What the searcher's roller holds: the best score met, the indexes
    /// that gave it, and the state of the generator.
    pub closed spec fn roller(&self) -> RollerView {
        self.roller@
    }

    /// The numbers that steer the search.
    pub closed spec fn constants(&self) -> SearchConstants {
        self.constants
    }

    /// The first index that may follow `path`, and the index after the
    /// last that may.
    pub open spec fn child_range(&self, path: Seq<int>, n: int) -> (int, int) {
        (next_index(path), n - (self.limit() - path.len()) + 1)
    }

    /// The searcher `self` is `before` after playouts from the start, as
    /// many as a trial has, the last candidate of each added greedily: the
    /// roller has played them, and the tree is as it was.
    pub open spec fn has_rolled_from_start(
        &self,
        before: &Self,
        recommendations: Seq<StatisticsView>,
    ) -> bool {
        &&& self.roller() == rolled_times(
            before.roller(),
            recommendations,
            before.start(),
            before.limit(),
            true,
            before.constants().rollouts_per_exploration as int,
        )
        &&& self.tree() == before.tree()
        &&& self.constants() == before.constants()
        &&& self.start() == before.start()
    }

    /// The searcher `self` is `before` after a trial on `path`: the roller
    /// has played the trial's playouts from the path, and the tree has
    /// taken their scores and the explorations at the places on the path
    /// below the start.
    pub open spec fn has_explored_path(
        &self,
        before: &Self,
        recommendations: Seq<StatisticsView>,
        path: Seq<int>,
    ) -> bool {
        let count = before.constants().rollouts_per_exploration as int;
        let below = path.subrange(before.start().len() as int, path.len() as int);
        &&& self.roller() == rolled_times(
            before.roller(),
            recommendations,
            path,
            before.limit(),
            true,
            count,
        )
        &&& forall|place: Seq<int>|
            self.tree().statistics_at(place) == place_explored(
                before.tree().statistics_at(place),
                place,
                below,
                before.roller(),
                recommendations,
                path,
                before.limit(),
                count,
            )
        &&& self.tree().total_explored() == explored_more(before.tree().total_explored(), count)
        &&& self.constants() == before.constants()
        &&& self.start() == before.start()
    }

    /// The searcher `self` is `before` after every index that may follow
    /// `path` was tried: the place at the end of the path was explored
    /// once for each, the roller has played the playouts of each, and the
    /// tree has taken them.
    pub open spec fn has_tried_children(
        &self,
        before: &Self,
        recommendations: Seq<StatisticsView>,
        path: Seq<int>,
    ) -> bool {
        let rollouts = before.constants().rollouts_per_child_expansion as int;
        let below = path.subrange(before.start().len() as int, path.len() as int);
        let (first, after_last) = before.child_range(path, recommendations.len() as int);
        &&& self.roller() == roller_after_children(
            before.roller(),
            recommendations,
            path,
            before.limit(),
            rollouts,
            first,
            after_last,
        )
        &&& forall|place: Seq<int>|
            self.tree().statistics_at(place) == children_taken(
                walked(
                    before.tree().statistics_at(place),
                    place,
                    below,
                    0,
                    after_last - first,
                    false,
                ),
                place,
                below,
                before.roller(),
                recommendations,
                path,
                before.limit(),
                rollouts,
                first,
                after_last,
            )
        &&& self.tree().total_explored() == explored_more(
            before.tree().total_explored(),
            after_last - first,
        )
        &&& self.constants() == before.constants()
        &&& self.start() == before.start()
    }

    /// The index at place `k` of `path` is what the chooser made of the
    /// children, in the tree of `self`, of the place that the path leads to
    /// before it.
    pub open spec fn is_step<F: Fn(&Vec<NodeData>, usize) -> usize>(
        &self,
        chooser: F,
        n: int,
        path: Seq<int>,
        k: int,
    ) -> bool {
        is_choice_of(
            chooser,
            self.tree(),
            path.subrange(self.start().len() as int, k),
            self.child_range(path.subrange(0, k), n).0,
            self.child_range(path.subrange(0, k), n).1,
            path[k] as usize,
        )
    }

    /// The path goes down the tree of `self` from the start, by the
    /// chooser's choices, up to the place `to` of the path.
    pub open spec fn has_descended<F: Fn(&Vec<NodeData>, usize) -> usize>(
        &self,
        chooser: F,
        n: int,
        path: Seq<int>,
        to: int,
    ) -> bool {
        forall|k: int| self.start().len() <= k < to ==> #[trigger] self.is_step(chooser, n, path, k)
    }

    /// The length up to which a path is walked down the tree.
    pub open spec fn depth_limit(&self) -> int {
        if self.constants().maximum_depth > 0 {
            self.constants().maximum_depth - 1
        } else {
            0
        }
    }

    /// The path was walked down the tree of `self` from the start, as a
    /// selection walks it: each step is a choice of the chooser; after the
    /// first step the walk goes on while the path is short of the depth
    /// limit and the tree has a place below; and it ends before that only
    /// where no index that may follow leads to a place.
    pub open spec fn has_walked<F: Fn(&Vec<NodeData>, usize) -> usize>(
        &self,
        chooser: F,
        n: int,
        path: Seq<int>,
    ) -> bool {
        let below = path.subrange(self.start().len() as int, path.len() as int);
        &&& self.has_descended(chooser, n, path, path.len() as int)
        &&& path.len() <= self.start().len() + 1 || path.len() <= self.depth_limit()
        &&& has_places_below(self.tree(), below) && (path.len() < self.depth_limit() || path.len()
            == self.start().len()) ==> has_no_child_within(
            self.tree(),
            below,
            self.child_range(path, n).0,
            self.child_range(path, n).1,
        )
    }

    /// Where a walk has ended at `path`, every index that may follow is
    /// tried: the path is short of the depth limit and of the selection,
    /// and the tree has no place below.
    pub open spec fn tries_children_at(&self, path: Seq<int>) -> bool {
        &&& path.len() < self.depth_limit()
        &&& path.len() < self.limit()
        &&& !has_places_below(
            self.tree(),
            path.subrange(self.start().len() as int, path.len() as int),
        )
    }

    /// The searcher `self` is `before` after `path` was selected. Either
    /// the path was walked down the tree of `before` and nothing else was
    /// done, because no index is tried where the walk ended; or every index
    /// was tried that may follow the walk, and the path is the walk with
    /// what the chooser made of the children then, or the walk alone where
    /// there was no child.
    pub open spec fn has_selected<F: Fn(&Vec<NodeData>, usize) -> usize>(
        &self,
        before: &Self,
        chooser: F,
        recommendations: Seq<StatisticsView>,
        path: Seq<int>,
    ) -> bool {
        let n = recommendations.len() as int;
        let walk = path.drop_last();
        ||| (*self == *before && before.has_walked(chooser, n, path) && !before.tries_children_at(
            path,
        ))
        ||| (self.has_tried_children(before, recommendations, path) && before.has_walked(
            chooser,
            n,
            path,
        ) && before.tries_children_at(path) && has_no_child_within(
            self.tree(),
            path.subrange(before.start().len() as int, path.len() as int),
            before.child_range(path, n).0,
            before.child_range(path, n).1,
        ))
        ||| (path.len() > before.start().len() && self.has_tried_children(
            before,
            recommendations,
            walk,
        ) && before.has_walked(chooser, n, walk) && before.tries_children_at(walk)
            && is_choice_of(
            chooser,
            self.tree(),
            walk.subrange(before.start().len() as int, walk.len() as int),
            before.child_range(walk, n).0,
            before.child_range(walk, n).1,
            path.last() as usize,
        ))
    }

    /// The searcher `self` is `before` after one attempt at a trial that
    /// selects a path: where no path below the start was found, a path was
    /// selected and no more; else a path was selected and explored.
    pub open spec fn has_tried_solution<F: Fn(&Vec<NodeData>, usize) -> usize>(
        &self,
        before: &Self,
        chooser: F,
        recommendations: Seq<StatisticsView>,
        found: bool,
    ) -> bool {
        if found {
            exists|between: Self, path: Seq<int>|
                #![trigger between.has_selected(before, chooser, recommendations, path)]
                between.has_selected(before, chooser, recommendations, path) && path.len()
                    > before.start().len() && extends(path, before.start())
                    && self.has_explored_path(&between, recommendations, path)
        } else {
            self.has_selected(before, chooser, recommendations, before.start())
        }
    }

    /// Whether the start leaves so little to select that a trial plays
    /// out from the start only.
    pub open spec fn plays_from_start_only(&self) -> bool {
        self.start().len() + 1 >= self.constants().maximum_depth
    }

    /// The searcher `self` is `before` after one trial: playouts from the
    /// start where the start leaves one candidate to select or no path
    /// below the start was found; else a path selected and explored.
    pub open spec fn has_run_trial<F: Fn(&Vec<NodeData>, usize) -> usize>(
        &self,
        before: &Self,
        chooser: F,
        recommendations: Seq<StatisticsView>,
    ) -> bool {
        if before.plays_from_start_only() {
            self.has_rolled_from_start(before, recommendations)
        } else {
            ||| self.has_tried_solution(before, chooser, recommendations, true)
            ||| exists|between: Self|
                #![trigger between.has_tried_solution(before, chooser, recommendations, false)]
                between.has_tried_solution(before, chooser, recommendations, false)
                    && self.has_rolled_from_start(&between, recommendations)
        }
    }

    /// The searcher `self` is `before` after `count` trials, one after
    /// the other.
    pub open spec fn has_run_trials<F: Fn(&Vec<NodeData>, usize) -> usize>(
        &self,
        before: &Self,
        chooser: F,
        recommendations: Seq<StatisticsView>,
        count: int,
    ) -> bool
        decreases count,
    {
        if count <= 0 {
            *self == *before
        } else {
            exists|between: Self|
                #![trigger self.has_run_trial(&between, chooser, recommendations)]
                between.has_run_trials(before, chooser, recommendations, count - 1)
                    && self.has_run_trial(&between, chooser, recommendations)
        }
    }

    /// The searcher has tried nothing: its roller has met nothing and has
    /// the seed as the state of its generator, its tree has no place, and
    /// its numbers are those of a search for `limit` candidates.
    pub open spec fn is_fresh(&self, start: Seq<int>, limit: int, seed: int) -> bool {
        &&& self.start() == start
        &&& self.limit() == limit
        &&& self.roller() == (RollerView {
            best_score: 0,
            best_recommendation_indexes: Seq::empty(),
            state: seed,
        })
        &&& self.constants().rollouts_per_exploration == 10
        &&& self.constants().rollouts_per_child_expansion == 1
        &&& self.constants().maximum_depth == limit - 1
        &&& self.constants().recommendation_limit == limit
        &&& self.tree().total_explored() == 0
        &&& forall|place: Seq<int>| self.tree().statistics_at(place) is None
    }

    /// The best score met, and the indexes that gave it.
    pub closed spec fn best(&self) -> (int, Seq<int>) {
        (self.roller@.best_score, self.roller@.best_recommendation_indexes)
    }

    /// The searcher fits the candidates: its start rises and leaves room
    /// for a selection, and its best is a selection of the candidates with
    /// its score, unless nothing scored above zero yet.
    pub closed spec fn is_ready(&self, recommendations: Seq<StatisticsView>) -> bool {
        &&& has_room(self.start(), recommendations.len() as int, self.limit())
        &&& self.start().len() < self.limit()
        &&& roller_is_sound(self.roller@, recommendations, self.limit())
        &&& self.constants.maximum_depth == self.constants.recommendation_limit - 1
    }

    /// The best of a ready searcher is a selection of the candidates with
    /// its score, where it scored above zero.
    pub proof fn lemma_best_is_a_selection(&self, recommendations: Seq<StatisticsView>)
        requires
            self.is_ready(recommendations),
        ensures
            self.best().0 > 0 ==> is_selection(
                self.best().1,
                recommendations.len() as int,
                self.limit(),
            ) && self.best().0 == heuristic_score(chosen(recommendations, self.best().1)),
    {
    }

    /// A searcher that has tried nothing.
    pub fn new(
        recommendation_limit: usize,
        recommendations: &Vec<CommandStatistics>,
        start: Vec<usize>,
        seed: u64,
    ) -> (r: Self)
        requires
            start.len() < recommendation_limit,
            has_room(indexes_view(start@), recommendations.len() as int, recommendation_limit as int),
        ensures
            r.is_ready(statistics_view(recommendations@)),
            r.start() == indexes_view(start@),
            r.limit() == recommendation_limit,
            r.best() == (0int, Seq::<int>::empty()),
            r.roller() == (RollerView {
                best_score: 0,
                best_recommendation_indexes: Seq::empty(),
                state: seed as int,
            }),
            r.constants() == (SearchConstants {
                rollouts_per_exploration: 10,
                rollouts_per_child_expansion: 1,
                maximum_depth: (recommendation_limit - 1) as usize,
                recommendation_limit,
            }),
            r.tree().total_explored() == 0,
            forall|place: Seq<int>| r.tree().statistics_at(place) is None,
    {
        assert(statistics_view(recommendations@).len() == recommendations.len());
        MonteCarloTreeSearcher {
            roller: Roller::new(seed),
            exploration_data: MonteCarloExplorationData::new(),
            start,
            constants: SearchConstants {
                rollouts_per_exploration: 10,
                rollouts_per_child_expansion: 1,
                maximum_depth: recommendation_limit - 1,
                recommendation_limit,
            },
        }
    }

    /// The best score met.
    pub fn get_best_score(&self) -> (r: u128)
        ensures
            r == self.best().0,
    {
        self.roller.get_best_score()
    }

    /// The indexes that gave the best score.
    pub fn get_best_recommendation_indexes(&self) -> (r: &Vec<usize>)
        ensures
            indexes_view(r@) == self.best().1,
    {
        self.roller.get_best_recommendation_indexes()
    }

    /// What the searcher knows of its first choices among the candidates.
    pub fn get_root_values(&self, number_of_recommendations: usize) -> (r: Vec<NodeData>)
        ensures
            r@ == crate::tree_search::root_values(self.tree(), number_of_recommendations as int),
    {
        get_root_values(&self.exploration_data, number_of_recommendations)
    }

    /// Plays a selection out from the path, and keeps the searcher ready.
    fn play_out(
        &mut self,
        recommendations: &Vec<CommandStatistics>,
        path: &Vec<usize>,
        use_greedy: bool,
    ) -> (r: u128)
        requires
            old(self).is_ready(statistics_view(recommendations@)),
            has_room(
                indexes_view(path@),
                recommendations.len() as int,
                old(self).limit(),
            ),
        ensures
            final(self).is_ready(statistics_view(recommendations@)),
            final(self).start() == old(self).start(),
            final(self).limit() == old(self).limit(),
            final(self).exploration_data == old(self).exploration_data,
            final(self).constants == old(self).constants,
            final(self).best().0 >= old(self).best().0,
            final(self).roller() == rolled(
                old(self).roller(),
                statistics_view(recommendations@),
                indexes_view(path@),
                old(self).limit(),
                use_greedy,
            ),
            r == playout_score(
                statistics_view(recommendations@),
                indexes_view(path@),
                old(self).limit(),
                old(self).roller().state,
                use_greedy,
            ),
    {
        assert(statistics_view(recommendations@).len() == recommendations.len());
        proof {
            lemma_rolled_is_sound(
                self.roller@,
                statistics_view(recommendations@),
                indexes_view(path@),
                self.limit(),
                use_greedy,
            );
        }
        self.roller.simulate_play_out(
            recommendations,
            path,
            use_greedy,
            self.constants.recommendation_limit,
        )
    }

    /// The times that the place was explored; for the empty place, the
    /// explorations in all.
    fn times_explored_at(&self, place: &Vec<usize>) -> (r: usize)
        ensures
            r == times_explored(self.tree(), indexes_view(place@)),
    {
        assert(indexes_view(place@).len() == place.len());
        if place.len() == 0 {
            self.exploration_data.get_total_explored()
        } else {
            match self.exploration_data.get_statistics(place) {
                Some(found) => found.times_explored,
                None => 0,
            }
        }
    }

    /// Tries every index that may follow the path, each with playouts at
    /// random, and asks the chooser for the best of them. `None` where
    /// there was no child to choose from.
    pub fn explore_every_child<F: Fn(&Vec<NodeData>, usize) -> usize>(
        &mut self,
        recommendations: &Vec<CommandStatistics>,
        path: &Vec<usize>,
        chooser: &F,
    ) -> (r: Option<usize>)
        requires
            old(self).is_ready(statistics_view(recommendations@)),
            is_chooser(*chooser),
            has_room(indexes_view(path@), recommendations.len() as int, old(self).limit()),
            path.len() < old(self).limit(),
            extends(indexes_view(path@), old(self).start()),
        ensures
            final(self).is_ready(statistics_view(recommendations@)),
            final(self).start() == old(self).start(),
            final(self).limit() == old(self).limit(),
            final(self).best().0 >= old(self).best().0,
            final(self).has_tried_children(
                old(self),
                statistics_view(recommendations@),
                indexes_view(path@),
            ),
            match r {
                Some(index) => has_room(
                    indexes_view(path@).push(index as int),
                    recommendations.len() as int,
                    old(self).limit(),
                ) && is_choice_of(
                    *chooser,
                    final(self).tree(),
                    indexes_view(path@).subrange(
                        old(self).start().len() as int,
                        path.len() as int,
                    ),
                    old(self).child_range(indexes_view(path@), recommendations.len() as int).0,
                    old(self).child_range(indexes_view(path@), recommendations.len() as int).1,
                    index,
                ),
                None => forall|index: usize|
                    old(self).child_range(indexes_view(path@), recommendations.len() as int).0
                        <= index < old(self).child_range(
                        indexes_view(path@),
                        recommendations.len() as int,
                    ).1 ==> final(self).tree().statistics_at(
                        indexes_view(path@).subrange(
                            old(self).start().len() as int,
                            path.len() as int,
                        ).push(index as int),
                    ) is None,
            },
    {
        let ghost all = statistics_view(recommendations@);
        let ghost limit = self.limit();
        let ghost begin = self.start();
        let ghost whole = indexes_view(path@);
        let ghost first_roller = self.roller();
        let n = recommendations.len();
        assert(all.len() == n);
        assert(whole.len() == path.len());
        assert(self.start@.len() == begin.len());
        let first = if path.len() > 0 {
            assert(whole[path.len() - 1] == path[path.len() - 1]);
            path[path.len() - 1] + 1
        } else {
            0
        };
        let still_needed = self.constants.recommendation_limit - path.len();
        let after_last = n - still_needed + 1;
        let place = tail_of(path, self.start.len());
        let ghost below = indexes_view(place@);
        assert(below =~= whole.subrange(begin.len() as int, whole.len() as int));
        assert(below.len() == place.len());
        if place.len() == 0 {
            self.exploration_data.increment_total_explored(after_last - first);
        } else {
            self.exploration_data.handle_exploration(&place, after_last - first);
        }
        let rollouts = self.constants.rollouts_per_child_expansion;
        let mut index: usize = first;
        while index < after_last
            invariant
                first <= index <= after_last,
                after_last + still_needed == n + 1,
                still_needed == limit - path.len(),
                still_needed >= 1,
                first == next_index(whole),
                whole == indexes_view(path@),
                below == indexes_view(place@),
                all == statistics_view(recommendations@),
                n == recommendations.len(),
                is_rising(whole, n as int),
                self.is_ready(all),
                self.start() == begin,
                self.limit() == limit,
                limit == old(self).limit(),
                first_roller == old(self).roller(),
                self.constants == old(self).constants,
                self.best().0 >= old(self).best().0,
                rollouts == self.constants.rollouts_per_child_expansion,
                self.roller() == roller_after_children(
                    first_roller,
                    all,
                    whole,
                    limit,
                    rollouts as int,
                    first as int,
                    index as int,
                ),
                self.tree().total_explored() == explored_more(
                    old(self).tree().total_explored(),
                    after_last - first,
                ),
                forall|at: Seq<int>|
                    self.tree().statistics_at(at) == children_taken(
                        walked(
                            old(self).tree().statistics_at(at),
                            at,
                            below,
                            0,
                            after_last - first,
                            false,
                        ),
                        at,
                        below,
                        first_roller,
                        all,
                        whole,
                        limit,
                        rollouts as int,
                        first as int,
                        index as int,
                    ),
            decreases after_last - index,
        {
            let child_path = with_index(path, index);
            let child_place = with_index(&place, index);
            let ghost child_whole = whole.push(index as int);
            let ghost child_below = below.push(index as int);
            let ghost middle = self.exploration_data;
            let ghost middle_roller = self.roller();
            proof {
                assert(indexes_view(child_path@) =~= child_whole);
                assert(indexes_view(child_place@) =~= child_below);
                lemma_push_rises(whole, n as int, index as int);
            }
            let mut done: usize = 0;
            while done < rollouts
                invariant
                    done <= rollouts,
                    all == statistics_view(recommendations@),
                    self.is_ready(all),
                    self.start() == begin,
                    self.limit() == limit,
                    self.constants == old(self).constants,
                    self.best().0 >= old(self).best().0,
                    rollouts == self.constants.rollouts_per_child_expansion,
                    has_room(indexes_view(child_path@), recommendations.len() as int, limit),
                    indexes_view(child_path@) == child_whole,
                    indexes_view(child_place@) == child_below,
                    self.roller() == rolled_times(
                        middle_roller,
                        all,
                        child_whole,
                        limit,
                        false,
                        done as int,
                    ),
                    self.tree().total_explored() == middle.total_explored(),
                    forall|at: Seq<int>|
                        self.tree().statistics_at(at) == rollouts_taken(
                            middle.statistics_at(at),
                            at,
                            child_below,
                            middle_roller,
                            all,
                            child_whole,
                            limit,
                            done as int,
                        ),
                decreases rollouts - done,
            {
                let score = self.play_out(recommendations, &child_path, false);
                self.exploration_data.record_rollout(&child_place, score);
                done += 1;
            }
            index += 1;
        }
        let children = compute_children(&self.exploration_data, &place, first, after_last);
        if children.len() == 0 {
            proof {
                assert forall|other: usize|
                    first <= other < after_last implies self.tree().statistics_at(
                    below.push(other as int),
                ) is None by {
                    if self.tree().statistics_at(below.push(other as int)) is Some {
                        assert(names_child(children@, other));
                    }
                }
            }
            return None;
        }
        let times = self.times_explored_at(&place);
        let best = choose_child(chooser, &children, times);
        proof {
            let k = choose|k: int| 0 <= k < children.len() && (#[trigger] children@[k]).index == best;
            assert(first <= children[k].index < after_last);
            lemma_push_rises(whole, n as int, best as int);
            let answer = choose|answer: usize|
                call_ensures(*chooser, (&children, times), answer) && best == resolved_choice(
                    children@,
                    answer,
                );
            assert(call_ensures(
                *chooser,
                (&children, times_explored(self.tree(), below) as usize),
                answer,
            ));
        }
        Some(best)
    }

    /// Walks down the tree from the start by the chooser's choices, as far
    /// as the tree reaches and the depth allows, and tries every child of
    /// the place where the tree ends.
    pub fn select_starting_path<F: Fn(&Vec<NodeData>, usize) -> usize>(
        &mut self,
        recommendations: &Vec<CommandStatistics>,
        chooser: &F,
    ) -> (r: Vec<usize>)
        requires
            old(self).is_ready(statistics_view(recommendations@)),
            is_chooser(*chooser),
        ensures
            final(self).is_ready(statistics_view(recommendations@)),
            final(self).start() == old(self).start(),
            final(self).limit() == old(self).limit(),
            final(self).best().0 >= old(self).best().0,
            has_room(indexes_view(r@), recommendations.len() as int, old(self).limit()),
            extends(indexes_view(r@), old(self).start()),
            final(self).has_selected(
                old(self),
                *chooser,
                statistics_view(recommendations@),
                indexes_view(r@),
            ),
    {
        let ghost all = statistics_view(recommendations@);
        let ghost limit = self.limit();
        let ghost begin = self.start();
        let n = recommendations.len();
        assert(all.len() == n);
        let mut path = tail_of(&self.start, 0);
        assert(self.start@.subrange(0, self.start.len() as int) =~= self.start@);
        assert(indexes_view(path@) =~= begin);
        assert(begin.subrange(0, begin.len() as int) =~= begin);
        let mut place: Vec<usize> = Vec::new();
        assert(indexes_view(place@) =~= indexes_view(path@).subrange(
            begin.len() as int,
            path.len() as int,
        ));
        let depth_limit: usize = if self.constants.maximum_depth > 0 {
            self.constants.maximum_depth - 1
        } else {
            0
        };
        assert(depth_limit == self.depth_limit());
        let mut has_children = self.exploration_data.progress_has_children(&place);
        if has_children {
            loop
                invariant_except_break
                    path.len() < limit,
                    path.len() == begin.len() || path.len() < depth_limit,
                    has_children,
                invariant
                    all == statistics_view(recommendations@),
                    n == recommendations.len(),
                    is_chooser(*chooser),
                    self.is_ready(all),
                    self.start() == begin,
                    self.limit() == limit,
                    self.best().0 >= old(self).best().0,
                    *self == *old(self),
                    depth_limit == old(self).depth_limit(),
                    has_room(indexes_view(path@), n as int, limit),
                    extends(indexes_view(path@), begin),
                    depth_limit + 2 <= limit || depth_limit == 0,
                    path.len() == begin.len() + place.len(),
                    indexes_view(place@) == indexes_view(path@).subrange(
                        begin.len() as int,
                        path.len() as int,
                    ),
                    has_children == has_places_below(self.tree(), indexes_view(place@)),
                    path.len() <= begin.len() + 1 || path.len() <= depth_limit,
                    old(self).has_descended(
                        *chooser,
                        n as int,
                        indexes_view(path@),
                        path.len() as int,
                    ),
                ensures
                    has_children && (path.len() < depth_limit || path.len() == begin.len())
                        ==> has_no_child_within(
                        self.tree(),
                        indexes_view(place@),
                        old(self).child_range(indexes_view(path@), n as int).0,
                        old(self).child_range(indexes_view(path@), n as int).1,
                    ),
                decreases limit - path.len(),
            {
                let ghost whole = indexes_view(path@);
                let ghost below = indexes_view(place@);
                assert(whole.len() == path.len());
                let first = if path.len() > 0 {
                    assert(whole[path.len() - 1] == path[path.len() - 1]);
                    path[path.len() - 1] + 1
                } else {
                    0
                };
                let still_needed = self.constants.recommendation_limit - path.len();
                let after_last = n - still_needed + 1;
                assert(old(self).child_range(whole, n as int) == (first as int, after_last as int));
                let children = compute_children(&self.exploration_data, &place, first, after_last);
                if children.len() == 0 {
                    proof {
                        assert forall|other: usize|
                            first <= other < after_last implies self.tree().statistics_at(
                            below.push(other as int),
                        ) is None by {
                            if self.tree().statistics_at(below.push(other as int)) is Some {
                                assert(names_child(children@, other));
                            }
                        }
                    }
                    break;
                }
                let times = self.times_explored_at(&place);
                let best = choose_child(chooser, &children, times);
                proof {
                    let k = choose|k: int|
                        0 <= k < children.len() && (#[trigger] children@[k]).index == best;
                    assert(first <= children[k].index < after_last);
                    lemma_push_rises(whole, n as int, best as int);
                    let answer = choose|answer: usize|
                        call_ensures(*chooser, (&children, times), answer) && best
                            == resolved_choice(children@, answer);
                    assert(call_ensures(
                        *chooser,
                        (&children, times_explored(self.tree(), below) as usize),
                        answer,
                    ));
                    assert(is_choice_of(
                        *chooser,
                        self.tree(),
                        below,
                        first as int,
                        after_last as int,
                        best,
                    ));
                }
                path.push(best);
                place.push(best);
                proof {
                    let longer = indexes_view(path@);
                    assert(longer =~= whole.push(best as int));
                    assert(longer.subrange(0, begin.len() as int) =~= whole.subrange(
                        0,
                        begin.len() as int,
                    ));
                    assert(indexes_view(place@) =~= below.push(best as int));
                    assert(below.push(best as int) =~= longer.subrange(
                        begin.len() as int,
                        longer.len() as int,
                    ));
                    assert forall|k: int| begin.len() <= k < longer.len() implies #[trigger]
                        old(self).is_step(*chooser, n as int, longer, k) by {
                        if k < whole.len() {
                            assert(old(self).is_step(*chooser, n as int, whole, k));
                            assert(longer.subrange(begin.len() as int, k) =~= whole.subrange(
                                begin.len() as int,
                                k,
                            ));
                            assert(longer.subrange(0, k) =~= whole.subrange(0, k));
                            assert(longer[k] == whole[k]);
                        } else {
                            assert(longer.subrange(begin.len() as int, k) =~= below);
                            assert(longer.subrange(0, k) =~= whole);
                            assert(longer[k] == best);
                        }
                    }
                }
                has_children = self.exploration_data.progress_has_children(&place);
                if !(path.len() < depth_limit && has_children) {
                    break;
                }
            }
        } else {
            assert(old(self).has_descended(
                *chooser,
                n as int,
                indexes_view(path@),
                path.len() as int,
            ));
        }
        let ghost walk = indexes_view(path@);
        assert(walk.len() == path.len());
        assert(old(self).has_walked(*chooser, n as int, walk));
        if path.len() < depth_limit && !has_children && path.len() < self.constants.recommendation_limit {
            assert(old(self).tries_children_at(walk));
            match self.explore_every_child(recommendations, &path, chooser) {
                Some(best) => {
                    path.push(best);
                    proof {
                        let longer = indexes_view(path@);
                        assert(longer =~= walk.push(best as int));
                        assert(longer.drop_last() =~= walk);
                        assert(longer.subrange(0, begin.len() as int) =~= walk.subrange(
                            0,
                            begin.len() as int,
                        ));
                        assert(longer.last() == best);
                    }
                },
                None => {},
            }
        } else {
            assert(!old(self).tries_children_at(walk));
        }
        path
    }

    /// Plays selections out from the start, the last candidate added
    /// greedily.
    pub fn explore_ending_rollouts(&mut self, recommendations: &Vec<CommandStatistics>)
        requires
            old(self).is_ready(statistics_view(recommendations@)),
        ensures
            final(self).is_ready(statistics_view(recommendations@)),
            final(self).start() == old(self).start(),
            final(self).limit() == old(self).limit(),
            final(self).best().0 >= old(self).best().0,
            final(self).has_rolled_from_start(old(self), statistics_view(recommendations@)),
    {
        let start = tail_of(&self.start, 0);
        assert(self.start@.subrange(0, self.start.len() as int) =~= self.start@);
        assert(indexes_view(start@) =~= self.start());
        let rollouts = self.constants.rollouts_per_exploration;
        let mut done: usize = 0;
        while done < rollouts
            invariant
                done <= rollouts,
                rollouts == old(self).constants.rollouts_per_exploration,
                self.is_ready(statistics_view(recommendations@)),
                self.start() == old(self).start(),
                self.limit() == old(self).limit(),
                self.best().0 >= old(self).best().0,
                indexes_view(start@) == self.start(),
                self.exploration_data == old(self).exploration_data,
                self.constants == old(self).constants,
                self.roller() == rolled_times(
                    old(self).roller(),
                    statistics_view(recommendations@),
                    old(self).start(),
                    old(self).limit(),
                    true,
                    done as int,
                ),
            decreases rollouts - done,
        {
            self.play_out(recommendations, &start, true);
            done += 1;
        }
    }

    /// One trial on `path`: the places on the path below the start are
    /// made where they are missing, selections are played out
    /// from the path, the last candidate added greedily, their scores go
    /// to the places on the path, and each place was explored once more
    /// for each playout.
    pub fn explore_path(&mut self, recommendations: &Vec<CommandStatistics>, path: &Vec<usize>)
        requires
            old(self).is_ready(statistics_view(recommendations@)),
            has_room(indexes_view(path@), recommendations.len() as int, old(self).limit()),
            extends(indexes_view(path@), old(self).start()),
        ensures
            final(self).is_ready(statistics_view(recommendations@)),
            final(self).start() == old(self).start(),
            final(self).limit() == old(self).limit(),
            final(self).best().0 >= old(self).best().0,
            final(self).has_explored_path(
                old(self),
                statistics_view(recommendations@),
                indexes_view(path@),
            ),
    {
        let ghost all = statistics_view(recommendations@);
        let ghost whole = indexes_view(path@);
        let ghost limit = self.limit();
        let ghost first_roller = self.roller();
        assert(whole.len() == path.len());
        assert(self.start@.len() == self.start().len());
        let path_after_start = tail_of(path, self.start.len());
        let ghost below = indexes_view(path_after_start@);
        assert(below =~= whole.subrange(self.start().len() as int, whole.len() as int));
        self.exploration_data.handle_expansion(&path_after_start);
        let rollouts = self.constants.rollouts_per_exploration;
        let mut done: usize = 0;
        while done < rollouts
            invariant
                done <= rollouts,
                all == statistics_view(recommendations@),
                whole == indexes_view(path@),
                below == indexes_view(path_after_start@),
                limit == old(self).limit(),
                first_roller == old(self).roller(),
                self.is_ready(all),
                self.start() == old(self).start(),
                self.limit() == old(self).limit(),
                self.constants == old(self).constants,
                self.best().0 >= old(self).best().0,
                has_room(whole, recommendations.len() as int, limit),
                rollouts == self.constants.rollouts_per_exploration,
                self.roller() == rolled_times(first_roller, all, whole, limit, true, done as int),
                self.tree().total_explored() == old(self).tree().total_explored(),
                forall|place: Seq<int>|
                    self.tree().statistics_at(place) == scores_taken(
                        walked(old(self).tree().statistics_at(place), place, below, 0, 0, false),
                        place,
                        below,
                        first_roller,
                        all,
                        whole,
                        limit,
                        done as int,
                    ),
            decreases rollouts - done,
        {
            let score = self.play_out(recommendations, path, true);
            self.exploration_data.back_propagate_score(&path_after_start, score);
            done += 1;
        }
        self.exploration_data.handle_exploration(&path_after_start, rollouts);
    }

    /// One attempt at a trial that selects a path: a path is selected and,
    /// where it leads below the start, explored. Says whether it does.
    pub fn explore_solution<F: Fn(&Vec<NodeData>, usize) -> usize>(
        &mut self,
        recommendations: &Vec<CommandStatistics>,
        chooser: &F,
    ) -> (r: bool)
        requires
            old(self).is_ready(statistics_view(recommendations@)),
            is_chooser(*chooser),
        ensures
            final(self).is_ready(statistics_view(recommendations@)),
            final(self).start() == old(self).start(),
            final(self).limit() == old(self).limit(),
            final(self).constants() == old(self).constants(),
            final(self).best().0 >= old(self).best().0,
            final(self).has_tried_solution(
                old(self),
                *chooser,
                statistics_view(recommendations@),
                r,
            ),
    {
        let ghost all = statistics_view(recommendations@);
        let path = self.select_starting_path(recommendations, chooser);
        let ghost between = *self;
        let ghost whole = indexes_view(path@);
        assert(whole.len() == path.len());
        assert(self.start@.len() == self.start().len());
        if path.len() <= self.start.len() {
            assert(whole =~= old(self).start());
            return false;
        }
        self.explore_path(recommendations, &path);
        assert(between.has_selected(old(self), *chooser, all, whole));
        true
    }

    /// Runs `number_of_trials` trials. Where the start leaves one candidate
    /// to select, or a trial finds no path below the start, selections are
    /// played out from the start.
    pub fn explore_solutions<F: Fn(&Vec<NodeData>, usize) -> usize>(
        &mut self,
        recommendations: &Vec<CommandStatistics>,
        number_of_trials: usize,
        chooser: &F,
    )
        requires
            old(self).is_ready(statistics_view(recommendations@)),
            is_chooser(*chooser),
        ensures
            final(self).is_ready(statistics_view(recommendations@)),
            final(self).start() == old(self).start(),
            final(self).limit() == old(self).limit(),
            final(self).constants() == old(self).constants(),
            final(self).best().0 >= old(self).best().0,
            final(self).has_run_trials(
                old(self),
                *chooser,
                statistics_view(recommendations@),
                number_of_trials as int,
            ),
    {
        let ghost all = statistics_view(recommendations@);
        assert(self.start@.len() == self.start().len());
        let only_rollouts = self.start.len() + 1 >= self.constants.maximum_depth;
        let mut done: usize = 0;
        while done < number_of_trials
            invariant
                done <= number_of_trials,
                all == statistics_view(recommendations@),
                is_chooser(*chooser),
                self.is_ready(all),
                self.start() == old(self).start(),
                self.limit() == old(self).limit(),
                self.constants() == old(self).constants(),
                self.best().0 >= old(self).best().0,
                only_rollouts == old(self).plays_from_start_only(),
                self.has_run_trials(old(self), *chooser, all, done as int),
            decreases number_of_trials - done,
        {
            let ghost before = *self;
            assert(before.plays_from_start_only() == only_rollouts);
            if only_rollouts {
                self.explore_ending_rollouts(recommendations);
            } else {
                let found = self.explore_solution(recommendations, chooser);
                if !found {
                    let ghost between = *self;
                    self.explore_ending_rollouts(recommendations);
                    assert(between.has_tried_solution(&before, *chooser, all, false));
                }
            }
            assert(self.has_run_trial(&before, *chooser, all));
            assert(before.has_run_trials(old(self), *chooser, all, done as int));
            done += 1;
            assert(before.has_run_trials(old(self), *chooser, all, done - 1));
            assert(self.has_run_trials(old(self), *chooser, all, done as int));
        }
    }
}

/// Searches the tree of the selections that begin with `start`, in
/// `number_of_trials` trials.
pub fn perform_worker_monte_carlo_tree_search<F: Fn(&Vec<NodeData>, usize) -> usize>(
    recommendations: &Vec<CommandStatistics>,
    start: &Vec<usize>,
    recommendation_limit: usize,
    seed: u64,
    number_of_trials: usize,
    chooser: &F,
) -> (r: MonteCarloTreeSearcher)
    requires
        start.len() < recommendation_limit,
        has_room(indexes_view(start@), recommendations.len() as int, recommendation_limit as int),
        is_chooser(*chooser),
    ensures
        r.is_ready(statistics_view(recommendations@)),
        r.start() == indexes_view(start@),
        r.limit() == recommendation_limit,
        exists|fresh: MonteCarloTreeSearcher|
            #![trigger fresh.is_fresh(indexes_view(start@), recommendation_limit as int, seed as int)]
            fresh.is_fresh(indexes_view(start@), recommendation_limit as int, seed as int)
                && r.has_run_trials(
                &fresh,
                *chooser,
                statistics_view(recommendations@),
                number_of_trials as int,
            ),
{
    let begin = tail_of(start, 0);
    assert(start@.subrange(0, start.len() as int) =~= start@);
    let mut searcher = MonteCarloTreeSearcher::new(recommendation_limit, recommendations, begin, seed);
    let ghost fresh = searcher;
    assert(fresh.is_fresh(indexes_view(start@), recommendation_limit as int, seed as int));
    searcher.explore_solutions(recommendations, number_of_trials, chooser);
    searcher
}

/// Every candidate of `selection` is one of the candidates of `pool`.
pub open spec fn is_drawn_from(selection: Seq<StatisticsView>, pool: Seq<StatisticsView>) -> bool {
    forall|k: int| 0 <= k < selection.len() ==> pool.contains(#[trigger] selection[k])
}

/// The search can be asked about any candidates, start, limit, number of
/// trials and seed.
pub open spec fn is_search<
    S: Fn(&Vec<CommandStatistics>, &Vec<usize>, usize, usize, u64) -> (u128, Vec<usize>, usize),
>(search: S) -> bool {
    forall|
        recommendations: &Vec<CommandStatistics>,
        start: &Vec<usize>,
        limit: usize,
        trials: usize,
        seed: u64,
    | call_requires(search, (recommendations, start, limit, trials, seed))
}

/// Exchanges the candidates at two places.
fn swap_recommendations(recommendations: &mut Vec<CommandStatistics>, a: usize, b: usize)
    requires
        a < old(recommendations).len(),
        b < old(recommendations).len(),
    ensures
        final(recommendations).len() == old(recommendations).len(),
        statistics_view(final(recommendations)@) == statistics_view(old(recommendations)@).update(
            a as int,
            old(recommendations)[b as int]@,
        ).update(b as int, old(recommendations)[a as int]@),
{
    let at_a = recommendations[a].duplicate();
    let at_b = recommendations[b].duplicate();
    recommendations.set(a, at_b);
    recommendations.set(b, at_a);
    assert(statistics_view(recommendations@) =~= statistics_view(old(recommendations)@).update(
        a as int,
        old(recommendations)[b as int]@,
    ).update(b as int, old(recommendations)[a as int]@));
}

/// The indexes from zero up to `count`.
fn first_indexes(count: usize) -> (r: Vec<usize>)
    ensures
        r.len() == count,
        forall|k: int| 0 <= k < count ==> r[k] == k,
{
    let mut out: Vec<usize> = Vec::new();
    let mut k: usize = 0;
    while k < count
        invariant
            k <= count,
            out.len() == k,
            forall|j: int| 0 <= j < k ==> out[j] == j,
        decreases count - k,
    {
        out.push(k);
        k += 1;
    }
    out
}

/// Whether every index is below `bound`.
fn are_below(indexes: &Vec<usize>, bound: usize) -> (r: bool)
    ensures
        r == forall|k: int| 0 <= k < indexes.len() ==> indexes[k] < bound,
{
    let mut k: usize = 0;
    while k < indexes.len()
        invariant
            k <= indexes.len(),
            forall|j: int| 0 <= j < k ==> indexes[j] < bound,
        decreases indexes.len() - k,
    {
        if indexes[k] >= bound {
            return false;
        }
        k += 1;
    }
    true
}

/// The selection holds no candidate more often than the pool holds it.
pub open spec fn is_taken_from(selection: Seq<StatisticsView>, pool: Seq<StatisticsView>) -> bool {
    selection.to_multiset().subset_of(pool.to_multiset())
}

/// No candidates are taken from any pool.
pub proof fn lemma_none_is_taken(pool: Seq<StatisticsView>)
    ensures
        is_taken_from(Seq::empty(), pool),
{
    broadcast use vstd::multiset::group_multiset_axioms;

    let none = Seq::<StatisticsView>::empty();
    assert forall|x: StatisticsView| none.to_multiset().count(x) <= pool.to_multiset().count(
        x,
    ) by {
        vstd::seq_lib::to_multiset_contains(none, x);
    }
}

/// Two candidates that change places leave the candidates as many as they
/// were, each as often.
pub proof fn lemma_exchange_keeps_all(s: Seq<StatisticsView>, a: int, b: int)
    requires
        0 <= a < s.len(),
        0 <= b < s.len(),
    ensures
        s.update(a, s[b]).update(b, s[a]).to_multiset() == s.to_multiset(),
{
    broadcast use vstd::multiset::group_multiset_axioms;

    let once = s.update(a, s[b]);
    vstd::seq_lib::to_multiset_update(s, a, s[b]);
    vstd::seq_lib::to_multiset_update(once, b, s[a]);
    assert(once[b] == s[b]);
    vstd::seq_lib::to_multiset_contains(s, s[a]);
    vstd::seq_lib::to_multiset_contains(s, s[b]);
    assert(s.to_multiset().count(s[a]) > 0);
    assert(s.to_multiset().count(s[b]) > 0);
    assert(s.to_multiset().insert(s[b]).remove(s[a]).insert(s[a]).remove(s[b]) =~= s.to_multiset());
}

/// The items picked from the first `n` are among them, none more often.
pub proof fn lemma_picked_is_taken<T>(items: Seq<T>, keep: spec_fn(int) -> bool, n: int)
    requires
        0 <= n <= items.len(),
    ensures
        crate::redundancy::picked(items, keep, n).to_multiset().subset_of(
            items.subrange(0, n).to_multiset(),
        ),
    decreases n,
{
    broadcast use vstd::multiset::group_multiset_axioms;

    if n > 0 {
        lemma_picked_is_taken(items, keep, n - 1);
        let fewer = items.subrange(0, n - 1);
        assert(items.subrange(0, n) =~= fewer.push(items[n - 1]));
        vstd::seq_lib::to_multiset_build(fewer, items[n - 1]);
        vstd::seq_lib::to_multiset_build(
            crate::redundancy::picked(items, keep, n - 1),
            items[n - 1],
        );
    } else {
        assert(crate::redundancy::picked(items, keep, n).to_multiset() =~= vstd::multiset::Multiset::<T>::empty())
            by {
            assert(crate::redundancy::picked(items, keep, n) =~= Seq::<T>::empty());
            broadcast use vstd::seq_lib::group_to_multiset_ensures;

            crate::redundancy::picked(items, keep, n).to_multiset_ensures();
        }
    }
}

/// The candidates at different indexes are among the candidates, none more
/// often than the candidates hold it.
pub proof fn lemma_chosen_is_taken(candidates: Seq<StatisticsView>, indexes: Seq<int>)
    requires
        indexes.no_duplicates(),
        forall|k: int| 0 <= k < indexes.len() ==> 0 <= #[trigger] indexes[k] < candidates.len(),
    ensures
        is_taken_from(chosen(candidates, indexes), candidates),
    decreases candidates.len(),
{
    broadcast use vstd::multiset::group_multiset_axioms;

    if candidates.len() == 0 {
        if indexes.len() > 0 {
            assert(0 <= indexes[0] < candidates.len());
        }
        assert(chosen(candidates, indexes) =~= Seq::<StatisticsView>::empty());
        chosen(candidates, indexes).to_multiset_ensures();
        assert(chosen(candidates, indexes).to_multiset().len() == 0);
        assert forall|x: StatisticsView|
            chosen(candidates, indexes).to_multiset().count(x) <= candidates.to_multiset().count(
                x,
            ) by {
            if chosen(candidates, indexes).to_multiset().count(x) > 0 {
                assert(chosen(candidates, indexes).contains(x));
            }
        }
    } else {
        let last = candidates.len() - 1;
        let fewer = candidates.drop_last();
        assert(candidates =~= fewer.push(candidates[last]));
        vstd::seq_lib::to_multiset_build(fewer, candidates[last]);
        if indexes.contains(last) {
            let p = choose|p: int| 0 <= p < indexes.len() && indexes[p] == last;
            let rest = indexes.remove(p);
            assert forall|i: int, j: int|
                0 <= i < rest.len() && 0 <= j < rest.len() && i != j implies rest[i] != rest[j] by {
                let from_i = if i < p {
                    i
                } else {
                    i + 1
                };
                let from_j = if j < p {
                    j
                } else {
                    j + 1
                };
                assert(rest[i] == indexes[from_i] && rest[j] == indexes[from_j]);
            }
            assert forall|k: int| 0 <= k < rest.len() implies 0 <= #[trigger] rest[k]
                < fewer.len() by {
                let from_k = if k < p {
                    k
                } else {
                    k + 1
                };
                assert(rest[k] == indexes[from_k]);
                assert(indexes[from_k] != indexes[p]);
            }
            lemma_chosen_is_taken(fewer, rest);
            assert(chosen(fewer, rest) =~= chosen(candidates, rest));
            assert(chosen(candidates, indexes) =~= chosen(candidates, rest).insert(
                p,
                candidates[last],
            ));
            vstd::seq_lib::to_multiset_insert(chosen(candidates, rest), p, candidates[last]);
        } else {
            assert forall|k: int| 0 <= k < indexes.len() implies 0 <= #[trigger] indexes[k]
                < fewer.len() by {
                assert(indexes.contains(indexes[k]));
            }
            lemma_chosen_is_taken(fewer, indexes);
            assert(chosen(fewer, indexes) =~= chosen(candidates, indexes));
        }
    }
}

/// Candidates drawn from candidates that are drawn from a pool are drawn
/// from the pool.
proof fn lemma_drawn_through(
    selection: Seq<StatisticsView>,
    between: Seq<StatisticsView>,
    pool: Seq<StatisticsView>,
)
    requires
        is_drawn_from(selection, between),
        is_drawn_from(between, pool),
    ensures
        is_drawn_from(selection, pool),
{
    assert forall|k: int| 0 <= k < selection.len() implies pool.contains(
        #[trigger] selection[k],
    ) by {
        assert(between.contains(selection[k]));
        let j = choose|j: int| 0 <= j < between.len() && between[j] == selection[k];
        assert(pool.contains(between[j]));
    }
}

/// The candidates at indexes of a pool are drawn from the pool.
proof fn lemma_chosen_are_drawn(pool: Seq<StatisticsView>, indexes: Seq<int>)
    requires
        forall|k: int| 0 <= k < indexes.len() ==> 0 <= #[trigger] indexes[k] < pool.len(),
    ensures
        is_drawn_from(chosen(pool, indexes), pool),
{
    assert forall|k: int| 0 <= k < chosen(pool, indexes).len() implies pool.contains(
        #[trigger] chosen(pool, indexes)[k],
    ) by {
        assert(0 <= indexes[k] < pool.len());
        assert(pool[indexes[k]] == chosen(pool, indexes)[k]);
    }
}

/// The indexes from zero up to `count`.
pub open spec fn first_indexes_to(count: int) -> Seq<int> {
    Seq::new(count as nat, |k: int| k)
}

/// The indexes name `limit` different candidates among `n`.
pub open spec fn is_full_selection(indexes: Seq<int>, n: int, limit: int) -> bool {
    &&& indexes.len() == limit
    &&& forall|k: int| 0 <= k < indexes.len() ==> 0 <= #[trigger] indexes[k] < n
    &&& forall|a: int, b: int| 0 <= a < b < indexes.len() ==> indexes[a] != indexes[b]
}

/// Whether the indexes name `limit` different candidates among `n`.
pub fn names_full_selection(indexes: &Vec<usize>, n: usize, limit: usize) -> (r: bool)
    ensures
        r == is_full_selection(indexes_view(indexes@), n as int, limit as int),
{
    let ghost whole = indexes_view(indexes@);
    assert(whole.len() == indexes.len());
    assert(forall|k: int| 0 <= k < indexes.len() ==> whole[k] == indexes[k]);
    if indexes.len() != limit {
        return false;
    }
    if !are_below(indexes, n) {
        proof {
            let k = choose|k: int| 0 <= k < indexes.len() && !(indexes[k] < n);
            assert(whole[k] == indexes[k]);
        }
        return false;
    }
    assert forall|k: int| 0 <= k < whole.len() implies 0 <= #[trigger] whole[k] < n by {
        assert(whole[k] == indexes[k]);
    }
    let mut j: usize = 0;
    while j < indexes.len()
        invariant
            j <= indexes.len(),
            whole == indexes_view(indexes@),
            forall|k: int| 0 <= k < indexes.len() ==> whole[k] == indexes[k],
            forall|a: int, b: int| 0 <= a < b < j ==> indexes[a] != indexes[b],
        decreases indexes.len() - j,
    {
        let mut i: usize = 0;
        while i < j
            invariant
                i <= j < indexes.len(),
                whole == indexes_view(indexes@),
                forall|k: int| 0 <= k < indexes.len() ==> whole[k] == indexes[k],
                forall|a: int| 0 <= a < i ==> indexes[a] != indexes[j as int],
            decreases j - i,
        {
            if indexes[i] == indexes[j] {
                assert(whole[i as int] == whole[j as int]);
                return false;
            }
            i += 1;
        }
        j += 1;
    }
    assert forall|a: int, b: int| 0 <= a < b < whole.len() implies whole[a] != whole[b] by {
        assert(whole[a] == indexes[a] && whole[b] == indexes[b]);
    }
    true
}

/// The best selection and its score after the candidates at `indexes`
/// were weighed against them: the new ones where they are a full selection
/// that scores higher.
pub open spec fn weighed(
    candidates: Seq<StatisticsView>,
    best: Seq<StatisticsView>,
    best_score: int,
    indexes: Seq<int>,
    limit: int,
) -> (Seq<StatisticsView>, int) {
    let found = chosen(candidates, indexes);
    if is_full_selection(indexes, candidates.len() as int, limit) && heuristic_score(found)
        > best_score {
        (found, heuristic_score(found))
    } else {
        (best, best_score)
    }
}

/// The candidates after the candidate at `best_index` was settled at the
/// place `settled`: the two have changed places where `best_index` names a
/// later candidate.
pub open spec fn committed(candidates: Seq<StatisticsView>, settled: int, best_index: int) -> Seq<
    StatisticsView,
> {
    if settled < best_index < candidates.len() {
        candidates.update(settled, candidates[best_index]).update(best_index, candidates[settled])
    } else {
        candidates
    }
}

/// What a round of the search leaves: the candidates, the best selection
/// met with its score, and whether the search goes on.
pub struct RoundView {
    pub candidates: Seq<StatisticsView>,
    pub best: Seq<StatisticsView>,
    pub best_score: int,
    pub goes_on: bool,
}

/// A round that was answered with `indexes` and `best_index`: the
/// candidates at the indexes are weighed against the best selection, the
/// candidate at `best_index` is settled, and the greedy selection from what
/// is settled is weighed too; it also takes the place of no selection.
pub open spec fn round_with_answer(
    candidates: Seq<StatisticsView>,
    settled: int,
    limit: int,
    best: Seq<StatisticsView>,
    best_score: int,
    indexes: Seq<int>,
    best_index: int,
) -> RoundView {
    let kept = weighed(candidates, best, best_score, indexes, limit);
    let arranged = committed(candidates, settled, best_index);
    let start = first_indexes_to(settled + 1);
    let greedy = greedy_indexes(arranged, start, limit, 0, arranged.len() as int);
    let score = greedy_score(arranged, start, greedy);
    if greedy.len() == limit && (score > kept.1 || kept.0.len() == 0) {
        RoundView { candidates: arranged, best: chosen(arranged, greedy), best_score: score, goes_on: true }
    } else {
        RoundView { candidates: arranged, best: kept.0, best_score: kept.1, goes_on: true }
    }
}

/// A round that ends the search.
pub open spec fn round_stopped(
    candidates: Seq<StatisticsView>,
    best: Seq<StatisticsView>,
    best_score: int,
) -> RoundView {
    RoundView { candidates, best, best_score, goes_on: false }
}

/// The candidates that a round searches: those that are worth it, once a
/// candidate is settled.
pub open spec fn round_candidates(recommendations: Seq<StatisticsView>, settled: int) -> Seq<
    StatisticsView,
> {
    if settled > 0 {
        worth_searching(recommendations, first_indexes_to(settled))
    } else {
        recommendations
    }
}

/// There are candidates enough for a round.
pub open spec fn round_runs(candidates: Seq<StatisticsView>, settled: int, limit: int) -> bool {
    limit <= candidates.len() && settled < candidates.len()
}

/// The round that settles the last candidate but one: every later
/// candidate is tried at its place with a greedy end, and the round is
/// answered with the best of them and its greedy selection.
pub open spec fn double_greedy_round(
    candidates: Seq<StatisticsView>,
    settled: int,
    limit: int,
    best: Seq<StatisticsView>,
    best_score: int,
) -> RoundView {
    match best_double(
        candidates,
        first_indexes_to(settled),
        limit,
        settled,
        candidates.len() as int,
    ) {
        Some(b) => round_with_answer(
            candidates,
            settled,
            limit,
            best,
            best_score,
            greedy_indexes(
                candidates,
                first_indexes_to(settled).push(b),
                limit,
                0,
                candidates.len() as int,
            ),
            b,
        ),
        None => round_stopped(candidates, best, best_score),
    }
}

/// The best selection is a full selection with its score, or none with
/// the score zero.
pub open spec fn is_best_so_far(best: Seq<StatisticsView>, best_score: int, limit: int) -> bool {
    &&& best_score == heuristic_score(best)
    &&& best.len() == limit || (best.len() == 0 && best_score == 0)
}

/// Ends a round that was answered with `indexes` and `best_index`, which
/// may be any: returns the candidates, the best selection and its score as
/// they are after the round.
pub fn conclude_round(
    recommendations: Vec<CommandStatistics>,
    settled: usize,
    recommendation_limit: usize,
    best: Vec<CommandStatistics>,
    best_score: u128,
    indexes: &Vec<usize>,
    best_index: usize,
) -> (r: (Vec<CommandStatistics>, Vec<CommandStatistics>, u128))
    requires
        settled < recommendations.len(),
        settled + 1 < recommendation_limit <= recommendations.len(),
    ensures
        (RoundView {
            candidates: statistics_view(r.0@),
            best: statistics_view(r.1@),
            best_score: r.2 as int,
            goes_on: true,
        }) == round_with_answer(
            statistics_view(recommendations@),
            settled as int,
            recommendation_limit as int,
            statistics_view(best@),
            best_score as int,
            indexes_view(indexes@),
            best_index as int,
        ),
        r.0.len() == recommendations.len(),
        is_drawn_from(statistics_view(r.0@), statistics_view(recommendations@)),
        statistics_view(r.0@).to_multiset() == statistics_view(recommendations@).to_multiset(),
        statistics_view(r.1@) == statistics_view(best@) || (is_drawn_from(
            statistics_view(r.1@),
            statistics_view(recommendations@),
        ) && is_taken_from(statistics_view(r.1@), statistics_view(recommendations@))),
        is_best_so_far(statistics_view(best@), best_score as int, recommendation_limit as int)
            ==> statistics_view(r.1@).len() == recommendation_limit && r.2 == heuristic_score(
            statistics_view(r.1@),
        ) && r.2 >= best_score,
        r.2 >= greedy_score(
            statistics_view(r.0@),
            first_indexes_to(settled + 1),
            greedy_indexes(
                statistics_view(r.0@),
                first_indexes_to(settled + 1),
                recommendation_limit as int,
                0,
                r.0.len() as int,
            ),
        ),
{
    let ghost candidates = statistics_view(recommendations@);
    let ghost limit = recommendation_limit as int;
    assert(candidates.len() == recommendations.len());
    let mut recommendations = recommendations;
    let mut best = best;
    let mut best_score = best_score;
    assert(is_drawn_from(candidates, candidates)) by {
        assert forall|k: int| 0 <= k < candidates.len() implies candidates.contains(
            #[trigger] candidates[k],
        ) by {}
    }
    if names_full_selection(indexes, recommendations.len(), recommendation_limit) {
        assert forall|k: int| 0 <= k < indexes.len() implies indexes[k] < recommendations.len() by {
            assert(indexes_view(indexes@)[k] == indexes[k]);
        }
        let found = compute_recommendations_for_indexes(&recommendations, indexes);
        let found_score = compute_heuristic_recommendation_score(&found);
        proof {
            lemma_chosen_are_drawn(candidates, indexes_view(indexes@));
            let named = indexes_view(indexes@);
            assert forall|i: int, j: int|
                0 <= i < named.len() && 0 <= j < named.len() && i != j implies named[i]
                != named[j] by {
                if i < j {
                    assert(named[i] != named[j]);
                } else {
                    assert(named[j] != named[i]);
                }
            }
            lemma_chosen_is_taken(candidates, named);
        }
        if found_score > best_score {
            best = found;
            best_score = found_score;
        }
    }
    if best_index > settled && best_index < recommendations.len() {
        swap_recommendations(&mut recommendations, settled, best_index);
        proof {
            let after = statistics_view(recommendations@);
            assert(after =~= committed(candidates, settled as int, best_index as int));
            lemma_exchange_keeps_all(candidates, settled as int, best_index as int);
            assert forall|j: int| 0 <= j < after.len() implies candidates.contains(
                #[trigger] after[j],
            ) by {
                assert(candidates.contains(candidates[settled as int]));
                assert(candidates.contains(candidates[best_index as int]));
                assert(candidates.contains(candidates[j]));
            }
        }
    }
    let ghost arranged = statistics_view(recommendations@);
    assert(arranged.len() == recommendations.len());
    let start = first_indexes(settled + 1);
    let ghost begin = first_indexes_to(settled + 1);
    assert(indexes_view(start@) =~= begin);
    let (greedy_result, greedy_score, greedy_indexes) = compute_greedy_best(
        &recommendations,
        recommendation_limit,
        &start,
        (0, recommendations.len()),
    );
    proof {
        assert(begin.no_duplicates());
        crate::scoring::lemma_greedy_fills(arranged, begin, limit);
        assert(indexes_view(greedy_indexes@).len() == greedy_indexes.len());
        assert(forall|j: int|
            0 <= j < indexes_view(greedy_indexes@).len() ==> 0 <= #[trigger] indexes_view(
                greedy_indexes@,
            )[j] < arranged.len());
        lemma_chosen_are_drawn(arranged, indexes_view(greedy_indexes@));
        lemma_drawn_through(statistics_view(greedy_result@), arranged, candidates);
        lemma_chosen_is_taken(arranged, indexes_view(greedy_indexes@));
        assert(statistics_view(best@).len() == best.len());
    }
    if greedy_indexes.len() == recommendation_limit && (greedy_score > best_score || best.len()
        == 0) {
        (recommendations, greedy_result, greedy_score)
    } else {
        (recommendations, best, best_score)
    }
}

/// The candidates after the first `k` of the given ones were brought to
/// the front, each to the place of its turn.
pub open spec fn given_first(pool: Seq<StatisticsView>, given: Seq<int>, k: int) -> Seq<
    StatisticsView,
>
    decreases k,
{
    if k <= 0 {
        pool
    } else {
        let before = given_first(pool, given, k - 1);
        before.update(given[k - 1], before[k - 1]).update(k - 1, before[given[k - 1]])
    }
}

/// The candidates as the search begins with them: the given ones first,
/// the others after them by the words that they save, the most first.
pub open spec fn prepared(pool: Seq<StatisticsView>, given: Seq<int>) -> Seq<StatisticsView> {
    let front = given_first(pool, given, given.len() as int);
    front.subrange(0, given.len() as int) + sorted_descending(
        front.subrange(given.len() as int, front.len() as int),
        SortKey::WordsSaved,
    )
}

/// `after` is what the round that settles the candidate at the place
/// `settled` leaves of `before`. The candidates that are not worth
/// searching are left out; where too few are left, the search ends. The
/// round that settles the last candidate but one is answered by trying
/// every candidate with a greedy end. Every other round is answered by the
/// search, which is handed the candidates, the indexes of those that are
/// settled, the limit, the number of trials and the seed; whatever it
/// answers ends the round.
pub open spec fn is_round_of<
    S: Fn(&Vec<CommandStatistics>, &Vec<usize>, usize, usize, u64) -> (u128, Vec<usize>, usize),
>(
    search: S,
    before: RoundView,
    after: RoundView,
    settled: int,
    limit: usize,
    trials: usize,
    seed: u64,
) -> bool {
    let candidates = round_candidates(before.candidates, settled);
    if !round_runs(candidates, settled, limit as int) {
        after == round_stopped(candidates, before.best, before.best_score)
    } else if settled + 2 == limit {
        after == double_greedy_round(
            candidates,
            settled,
            limit as int,
            before.best,
            before.best_score,
        )
    } else {
        exists|handed: Vec<CommandStatistics>, start: Vec<usize>, answer: (u128, Vec<usize>, usize)|
            #![trigger call_ensures(search, (&handed, &start, limit, trials, seed), answer)]
            statistics_view(handed@) == candidates && indexes_view(start@) == first_indexes_to(
                settled,
            ) && call_ensures(search, (&handed, &start, limit, trials, seed), answer) && after
                == round_with_answer(
                candidates,
                settled,
                limit as int,
                before.best,
                before.best_score,
                indexes_view(answer.1@),
                answer.2 as int,
            )
    }
}

/// `last` is what the rounds leave of `first` that settle the candidates
/// at the places from `from` up to `to`, one after the other; each but the
/// last says that the search goes on.
pub open spec fn are_rounds_of<
    S: Fn(&Vec<CommandStatistics>, &Vec<usize>, usize, usize, u64) -> (u128, Vec<usize>, usize),
>(
    search: S,
    first: RoundView,
    last: RoundView,
    from: int,
    to: int,
    limit: usize,
    trials: usize,
    seed: u64,
) -> bool
    decreases to - from,
{
    if to <= from {
        last == first
    } else {
        exists|between: RoundView, settled: int|
            #![trigger is_round_of(search, between, last, settled, limit, trials, seed)]
            settled == to - 1 && are_rounds_of(
                search,
                first,
                between,
                from,
                settled,
                limit,
                trials,
                seed,
            ) && between.goes_on && is_round_of(search, between, last, settled, limit, trials, seed)
    }
}

/// How the search begins: with the prepared candidates and no selection.
pub open spec fn first_round(pool: Seq<StatisticsView>, given: Seq<int>) -> RoundView {
    RoundView {
        candidates: prepared(pool, given),
        best: Seq::empty(),
        best_score: 0,
        goes_on: true,
    }
}

/// One round of the search, which settles the candidate at the place
/// `settled`. The candidates that are not worth searching are left out;
/// where too few are left, the search ends. The round that settles the
/// last candidate but one is answered by trying every candidate with a
/// greedy end; every other round by the search, which is handed the
/// candidates, the indexes of those that are settled, the limit, the number
/// of trials and the seed. The answer ends the round.
pub fn perform_search_round<
    S: Fn(&Vec<CommandStatistics>, &Vec<usize>, usize, usize, u64) -> (u128, Vec<usize>, usize),
>(
    recommendations: Vec<CommandStatistics>,
    settled: usize,
    recommendation_limit: usize,
    best: Vec<CommandStatistics>,
    best_score: u128,
    trials: usize,
    seed: u64,
    search: &S,
) -> (r: (Vec<CommandStatistics>, Vec<CommandStatistics>, u128, bool))
    requires
        is_search(*search),
        settled + 1 < recommendation_limit,
        settled <= recommendations.len(),
    ensures
        is_round_of(
            *search,
            (RoundView {
                candidates: statistics_view(recommendations@),
                best: statistics_view(best@),
                best_score: best_score as int,
                goes_on: true,
            }),
            (RoundView {
                candidates: statistics_view(r.0@),
                best: statistics_view(r.1@),
                best_score: r.2 as int,
                goes_on: r.3,
            }),
            settled as int,
            recommendation_limit,
            trials,
            seed,
        ),
        r.0.len() <= recommendations.len(),
        r.3 ==> r.0.len() >= recommendation_limit,
        is_drawn_from(statistics_view(r.0@), statistics_view(recommendations@)),
        is_taken_from(statistics_view(r.0@), statistics_view(recommendations@)),
        statistics_view(r.1@) == statistics_view(best@) || (is_drawn_from(
            statistics_view(r.1@),
            statistics_view(recommendations@),
        ) && is_taken_from(statistics_view(r.1@), statistics_view(recommendations@))),
        r.3 && is_best_so_far(statistics_view(best@), best_score as int, recommendation_limit as int)
            ==> statistics_view(r.1@).len() == recommendation_limit && r.2 == heuristic_score(
            statistics_view(r.1@),
        ) && r.2 >= best_score,
        !r.3 ==> statistics_view(r.1@) == statistics_view(best@) && r.2 == best_score,
        r.3 == round_runs(
            round_candidates(statistics_view(recommendations@), settled as int),
            settled as int,
            recommendation_limit as int,
        ),
{
    let ghost given = statistics_view(recommendations@);
    let ghost limit = recommendation_limit as int;
    assert(given.len() == recommendations.len());
    let start = first_indexes(settled);
    let ghost begin = first_indexes_to(settled as int);
    assert(indexes_view(start@) =~= begin);
    assert(is_drawn_from(given, given)) by {
        assert forall|k: int| 0 <= k < given.len() implies given.contains(#[trigger] given[k]) by {}
    }
    let recommendations = if settled > 0 {
        let filtered = filter_commands(&start, &recommendations);
        proof {
            let after = statistics_view(filtered@);
            let keep = |j: int|
                begin.contains(j) || crate::scoring::score_with(given, begin, j) >= heuristic_score(
                    chosen(given, begin),
                );
            lemma_picked_are_kept(given, keep, given.len() as int);
            assert forall|j: int| 0 <= j < after.len() implies given.contains(
                #[trigger] after[j],
            ) by {
                assert(is_kept_item(given, keep, given.len() as int, after[j]));
            }
            lemma_picked_is_taken(given, keep, given.len() as int);
            assert(given.subrange(0, given.len() as int) =~= given);
        }
        filtered
    } else {
        recommendations
    };
    let ghost candidates = statistics_view(recommendations@);
    assert(candidates.len() == recommendations.len());
    assert(candidates == round_candidates(given, settled as int));
    if recommendations.len() < recommendation_limit || settled >= recommendations.len() {
        return (recommendations, best, best_score, false);
    }
    if settled + 2 == recommendation_limit {
        proof {
            lemma_best_double_is_within(
                candidates,
                begin,
                limit,
                settled as int,
                candidates.len() as int,
            );
        }
        match perform_double_greedy(start, settled, &recommendations, recommendation_limit) {
            Some((_, best_indexes)) => {
                let ghost b = best_double(
                    candidates,
                    begin,
                    limit,
                    settled as int,
                    candidates.len() as int,
                )->0;
                assert(indexes_view(best_indexes@) == begin.push(b));
                assert(indexes_view(best_indexes@).len() == best_indexes.len());
                assert(indexes_view(best_indexes@)[settled as int] == best_indexes[settled as int]);
                assert forall|k: int| 0 <= k < best_indexes.len() implies best_indexes[k]
                    < recommendations.len() by {
                    assert(indexes_view(best_indexes@)[k] == best_indexes[k]);
                }
                let best_index = best_indexes[settled];
                let (_, _, indexes) = compute_greedy_best(
                    &recommendations,
                    recommendation_limit,
                    &best_indexes,
                    (0, recommendations.len()),
                );
                let (after, kept, kept_score) = conclude_round(
                    recommendations,
                    settled,
                    recommendation_limit,
                    best,
                    best_score,
                    &indexes,
                    best_index,
                );
                proof {
                    lemma_drawn_through(statistics_view(after@), candidates, given);
                    if statistics_view(kept@) != statistics_view(best@) {
                        lemma_drawn_through(statistics_view(kept@), candidates, given);
                    }
                }
                (after, kept, kept_score, true)
            },
            None => {
                assert(false);
                (recommendations, best, best_score, false)
            },
        }
    } else {
        let (_, indexes, best_index) = search(
            &recommendations,
            &start,
            recommendation_limit,
            trials,
            seed,
        );
        let ghost handed = recommendations;
        let ghost answers = indexes;
        let (after, kept, kept_score) = conclude_round(
            recommendations,
            settled,
            recommendation_limit,
            best,
            best_score,
            &indexes,
            best_index,
        );
        proof {
            lemma_drawn_through(statistics_view(after@), candidates, given);
            if statistics_view(kept@) != statistics_view(best@) {
                lemma_drawn_through(statistics_view(kept@), candidates, given);
            }
        }
        (after, kept, kept_score, true)
    }
}

/// Brings the given candidates to the front, and orders the others by
/// the words that they save, the most first.
pub fn prepare_candidates(recommendations: Vec<CommandStatistics>, given_start: &Vec<usize>) -> (r:
    Vec<CommandStatistics>)
    requires
        given_start.len() <= recommendations.len(),
        forall|k: int| 0 <= k < given_start.len() ==> given_start[k] < recommendations.len(),
    ensures
        statistics_view(r@) == prepared(
            statistics_view(recommendations@),
            indexes_view(given_start@),
        ),
        r.len() == recommendations.len(),
        is_drawn_from(statistics_view(r@), statistics_view(recommendations@)),
        statistics_view(r@).to_multiset() == statistics_view(recommendations@).to_multiset(),
{
    let ghost pool = statistics_view(recommendations@);
    let ghost given = indexes_view(given_start@);
    assert(given.len() == given_start.len());
    assert(pool.len() == recommendations.len());
    let mut recommendations = recommendations;
    assert(is_drawn_from(pool, pool)) by {
        assert forall|k: int| 0 <= k < pool.len() implies pool.contains(#[trigger] pool[k]) by {}
    }
    let number_of_given = given_start.len();
    let mut k: usize = 0;
    while k < number_of_given
        invariant
            k <= number_of_given,
            number_of_given == given_start.len(),
            number_of_given <= recommendations.len(),
            recommendations.len() == pool.len(),
            given == indexes_view(given_start@),
            forall|j: int| 0 <= j < given_start.len() ==> given_start[j] < recommendations.len(),
            is_drawn_from(statistics_view(recommendations@), pool),
            statistics_view(recommendations@) == given_first(pool, given, k as int),
            statistics_view(recommendations@).to_multiset() == pool.to_multiset(),
        decreases number_of_given - k,
    {
        let ghost before = statistics_view(recommendations@);
        assert(given[k as int] == given_start[k as int]);
        assert(before.len() == recommendations.len());
        swap_recommendations(&mut recommendations, given_start[k], k);
        proof {
            lemma_exchange_keeps_all(before, given_start[k as int] as int, k as int);
            let after = statistics_view(recommendations@);
            assert forall|j: int| 0 <= j < after.len() implies pool.contains(
                #[trigger] after[j],
            ) by {
                if j == k {
                    assert(after[j] == before[given_start[k as int] as int] || after[j]
                        == before[k as int]);
                } else if j == given_start[k as int] {
                    assert(after[j] == before[k as int] || after[j]
                        == before[given_start[k as int] as int]);
                } else {
                    assert(after[j] == before[j]);
                }
                assert(pool.contains(before[k as int]));
                assert(pool.contains(before[given_start[k as int] as int]));
                assert(pool.contains(before[j]));
            }
        }
        k += 1;
    }
    let ghost whole = statistics_view(recommendations@);
    assert(whole.len() == recommendations.len());
    let mut rest = recommendations.split_off(number_of_given);
    let ghost settled = statistics_view(recommendations@);
    let ghost unsorted = statistics_view(rest@);
    assert(settled =~= whole.subrange(0, number_of_given as int));
    assert(unsorted =~= whole.subrange(number_of_given as int, whole.len() as int));
    sort_recommendations(&mut rest, SortKey::WordsSaved);
    proof {
        lemma_sorted_is_permutation(unsorted, SortKey::WordsSaved);
        broadcast use vstd::seq_lib::group_to_multiset_ensures;

        assert(statistics_view(rest@).len() == unsorted.len()) by {
            assert(statistics_view(rest@).to_multiset().len() == unsorted.to_multiset().len());
        }
        assert(statistics_view(rest@).len() == rest.len());
        assert(is_drawn_from(statistics_view(rest@), pool)) by {
            assert forall|j: int| 0 <= j < statistics_view(rest@).len() implies pool.contains(
                #[trigger] statistics_view(rest@)[j],
            ) by {
                let x = statistics_view(rest@)[j];
                assert(statistics_view(rest@).contains(x));
                assert(statistics_view(rest@).to_multiset().count(x) > 0);
                assert(unsorted.contains(x));
                let m = choose|m: int| 0 <= m < unsorted.len() && unsorted[m] == x;
                assert(unsorted[m] == whole[number_of_given + m]);
            }
        }
    }
    let ghost sorted = statistics_view(rest@);
    recommendations.append(&mut rest);
    proof {
        let now = statistics_view(recommendations@);
        assert(now =~= settled + sorted);
        assert forall|j: int| 0 <= j < now.len() implies pool.contains(#[trigger] now[j]) by {
            if j < settled.len() {
                assert(now[j] == whole[j]);
            } else {
                assert(now[j] == sorted[j - settled.len()]);
            }
        }
        lemma_sorted_is_permutation(unsorted, SortKey::WordsSaved);
        vstd::seq_lib::lemma_multiset_commutative(settled, sorted);
        vstd::seq_lib::lemma_multiset_commutative(settled, unsorted);
        assert(whole =~= settled + unsorted);
    }
    recommendations
}

/// What the search returns where its only round is the one that settles
/// the last candidate but one, which the search does not answer.
pub open spec fn only_round(pool: Seq<StatisticsView>, given: Seq<int>, limit: int) -> (
    Seq<StatisticsView>,
    int,
) {
    let candidates = round_candidates(prepared(pool, given), given.len() as int);
    if round_runs(candidates, given.len() as int, limit) {
        let round = double_greedy_round(candidates, given.len() as int, limit, Seq::empty(), 0);
        (round.best, round.best_score)
    } else {
        (Seq::empty(), 0)
    }
}

/// Searches for the selection of `recommendation_limit` candidates that
/// scores best and begins with the candidates at `given_start`. The given
/// candidates are brought to the front and the others ordered by the words
/// that they save; then the candidates are settled one by one, each in a
/// round of its own. Returns the best selection met and its score: a full
/// selection of candidates, or none with the score zero where no round
/// ended with one.
pub fn perform_monte_carlo_tree_search<
    S: Fn(&Vec<CommandStatistics>, &Vec<usize>, usize, usize, u64) -> (u128, Vec<usize>, usize),
>(
    recommendations: Vec<CommandStatistics>,
    given_start: &Vec<usize>,
    recommendation_limit: usize,
    search: &S,
) -> (r: (Vec<CommandStatistics>, u128))
    requires
        is_search(*search),
        forall|k: int| 0 <= k < given_start.len() ==> given_start[k] < recommendations.len(),
    ensures
        is_drawn_from(statistics_view(r.0@), statistics_view(recommendations@)),
        is_taken_from(statistics_view(r.0@), statistics_view(recommendations@)),
        is_best_so_far(statistics_view(r.0@), r.1 as int, recommendation_limit as int),
        given_start.len() == 0 && 2 <= recommendation_limit <= recommendations.len()
            ==> r.0.len() == recommendation_limit,
        given_start.len() <= recommendations.len() && given_start.len() + 1
            < recommendation_limit && recommendation_limit <= round_candidates(
            prepared(statistics_view(recommendations@), indexes_view(given_start@)),
            given_start.len() as int,
        ).len() ==> r.0.len() == recommendation_limit,
        given_start.len() + 2 == recommendation_limit && given_start.len()
            <= recommendations.len() ==> (statistics_view(r.0@), r.1 as int) == only_round(
            statistics_view(recommendations@),
            indexes_view(given_start@),
            recommendation_limit as int,
        ),
        given_start.len() + 1 >= recommendation_limit ==> r.0.len() == 0,
        recommendation_limit >= 1 && given_start.len() <= recommendations.len() ==> exists|
            last: RoundView,
            rounds: int,
        |
            #![trigger are_rounds_of(
                *search,
                first_round(statistics_view(recommendations@), indexes_view(given_start@)),
                last,
                given_start.len() as int,
                rounds,
                recommendation_limit,
                ((2 * recommendations.len() + recommendation_limit) / (2
                    * recommendation_limit)) as usize,
                0,
            )]
            are_rounds_of(
                *search,
                first_round(statistics_view(recommendations@), indexes_view(given_start@)),
                last,
                given_start.len() as int,
                rounds,
                recommendation_limit,
                ((2 * recommendations.len() + recommendation_limit) / (2
                    * recommendation_limit)) as usize,
                0,
            ) && given_start.len() <= rounds && (last.goes_on ==> rounds + 1
                >= recommendation_limit) && (rounds > given_start.len() ==> rounds + 1
                <= recommendation_limit) && statistics_view(r.0@) == last.best && r.1
                == last.best_score,
{
    let ghost pool = statistics_view(recommendations@);
    let ghost given = indexes_view(given_start@);
    let ghost limit = recommendation_limit as int;
    assert(given.len() == given_start.len());
    assert(pool.len() == recommendations.len());
    let mut best: Vec<CommandStatistics> = Vec::new();
    let mut best_score: u128 = 0;
    assert(statistics_view(best@) =~= Seq::<StatisticsView>::empty());
    assert(heuristic_score(Seq::<StatisticsView>::empty()) == 0);
    proof {
        lemma_none_is_taken(pool);
    }
    if recommendation_limit == 0 || given_start.len() > recommendations.len() {
        return (best, best_score);
    }
    let number_of_given = given_start.len();
    let mut recommendations = prepare_candidates(recommendations, given_start);
    let trials = compute_number_of_trials(recommendations.len(), recommendation_limit);
    let seed: u64 = 0;
    let mut i: usize = number_of_given;
    let mut goes_on = true;
    let ghost first = first_round(pool, given);
    let ghost mut rounds: int = number_of_given as int;
    while goes_on && i < recommendation_limit - 1
        invariant
            recommendation_limit >= 1,
            first == first_round(pool, given),
            trials == ((2 * pool.len() + recommendation_limit) / (2 * recommendation_limit)) as usize,
            seed == 0,
            goes_on ==> i <= recommendations.len(),
            goes_on ==> rounds == i,
            !goes_on ==> rounds == i + 1 && i + 1 < recommendation_limit,
            are_rounds_of(
                *search,
                first,
                (RoundView {
                    candidates: statistics_view(recommendations@),
                    best: statistics_view(best@),
                    best_score: best_score as int,
                    goes_on,
                }),
                number_of_given as int,
                rounds,
                recommendation_limit,
                trials,
                seed,
            ),
            is_search(*search),
            number_of_given <= i,
            i <= number_of_given || i <= recommendation_limit - 1,
            number_of_given == given.len(),
            limit == recommendation_limit as int,
            number_of_given <= pool.len(),
            is_drawn_from(statistics_view(recommendations@), pool),
            is_drawn_from(statistics_view(best@), pool),
            is_taken_from(statistics_view(recommendations@), pool),
            is_taken_from(statistics_view(best@), pool),
            is_best_so_far(statistics_view(best@), best_score as int, limit),
            i == number_of_given ==> best.len() == 0 && best_score == 0,
            i == number_of_given && goes_on ==> statistics_view(recommendations@) == prepared(
                pool,
                given,
            ) && recommendations.len() == pool.len(),
            i == number_of_given && !goes_on ==> !round_runs(
                round_candidates(prepared(pool, given), number_of_given as int),
                number_of_given as int,
                limit,
            ),
            i > number_of_given ==> best.len() == recommendation_limit,
            number_of_given + 2 == recommendation_limit && (i > number_of_given || !goes_on) ==> (
                statistics_view(best@),
                best_score as int,
            ) == only_round(pool, given, limit),
        decreases
                2 * (recommendation_limit - i) + (if goes_on {
                    1int
                } else {
                    0int
                }),
    {
        let ghost before = statistics_view(recommendations@);
        let ghost best_before = statistics_view(best@);
        let ghost between = RoundView {
            candidates: before,
            best: best_before,
            best_score: best_score as int,
            goes_on: true,
        };
        assert(best_before.len() == best.len());
        assert(before.len() == recommendations.len());
        let round = perform_search_round(
            recommendations,
            i,
            recommendation_limit,
            best,
            best_score,
            trials,
            seed,
            search,
        );
        recommendations = round.0;
        best = round.1;
        best_score = round.2;
        proof {
            lemma_drawn_through(statistics_view(recommendations@), before, pool);
            if statistics_view(best@) != best_before {
                lemma_drawn_through(statistics_view(best@), before, pool);
            }
            assert(statistics_view(best@).len() == best.len());
            if i == number_of_given {
                assert(best_before =~= Seq::<StatisticsView>::empty());
            }
            let after = RoundView {
                candidates: statistics_view(recommendations@),
                best: statistics_view(best@),
                best_score: best_score as int,
                goes_on: round.3,
            };
            assert(is_round_of(
                *search,
                between,
                after,
                i as int,
                recommendation_limit,
                trials,
                seed,
            ));
            assert(are_rounds_of(
                *search,
                first,
                between,
                number_of_given as int,
                i as int,
                recommendation_limit,
                trials,
                seed,
            ));
            assert(are_rounds_of(
                *search,
                first,
                after,
                number_of_given as int,
                i + 1,
                recommendation_limit,
                trials,
                seed,
            ));
            rounds = i + 1;
        }
        if round.3 {
            i += 1;
        } else {
            goes_on = false;
        }
    }
    proof {
        let last = RoundView {
            candidates: statistics_view(recommendations@),
            best: statistics_view(best@),
            best_score: best_score as int,
            goes_on,
        };
        assert(are_rounds_of(
            *search,
            first_round(pool, given),
            last,
            given_start.len() as int,
            rounds,
            recommendation_limit,
            ((2 * pool.len() + recommendation_limit) / (2 * recommendation_limit)) as usize,
            0,
        ));
    }
    (best, best_score)
}

/// Selects the `max_number_of_recommendations` candidates that score best
/// together and begin with the candidates at `start`: all the candidates
/// where no more are there; else the better of what the greedy selection
/// and the tree search find, the greedy one where they score the same.
pub fn find_best<
    S: Fn(&Vec<CommandStatistics>, &Vec<usize>, usize, usize, u64) -> (u128, Vec<usize>, usize),
>(
    recommendations: Vec<CommandStatistics>,
    start: &Vec<usize>,
    max_number_of_recommendations: usize,
    search: &S,
) -> (r: Vec<CommandStatistics>)
    requires
        is_search(*search),
        forall|k: int| 0 <= k < start.len() ==> start[k] < recommendations.len(),
    ensures
        is_drawn_from(statistics_view(r@), statistics_view(recommendations@)),
        max_number_of_recommendations >= recommendations.len() ==> r == recommendations,
        max_number_of_recommendations < recommendations.len() ==> r.len()
            <= max_number_of_recommendations || statistics_view(r@) == chosen(
            statistics_view(recommendations@),
            indexes_view(start@),
        ),
        max_number_of_recommendations < recommendations.len() ==> ({
            let pool = statistics_view(recommendations@);
            let greedy = crate::scoring::greedy_indexes(
                pool,
                indexes_view(start@),
                max_number_of_recommendations as int,
                0,
                pool.len() as int,
            );
            statistics_view(r@) == chosen(pool, greedy) || heuristic_score(statistics_view(r@))
                > crate::scoring::greedy_score(pool, indexes_view(start@), greedy)
        }),
{
    let ghost pool = statistics_view(recommendations@);
    assert(pool.len() == recommendations.len());
    if max_number_of_recommendations >= recommendations.len() {
        assert(is_drawn_from(pool, pool)) by {
            assert forall|k: int| 0 <= k < pool.len() implies pool.contains(#[trigger] pool[k]) by {}
        }
        return recommendations;
    }
    let (greedy, score, greedy_indexes) = compute_greedy_best(
        &recommendations,
        max_number_of_recommendations,
        start,
        (0, recommendations.len()),
    );
    proof {
        assert(forall|j: int|
            0 <= j < indexes_view(greedy_indexes@).len() ==> 0 <= #[trigger] indexes_view(
                greedy_indexes@,
            )[j] < pool.len());
        lemma_chosen_are_drawn(pool, indexes_view(greedy_indexes@));
        crate::scoring::lemma_greedy_is_no_longer(
            pool,
            indexes_view(start@),
            max_number_of_recommendations as int,
            0,
            pool.len() as int,
        );
    }
    let (tree, tree_score) = perform_monte_carlo_tree_search(
        recommendations,
        start,
        max_number_of_recommendations,
        search,
    );
    if tree_score > score {
        tree
    } else {
        greedy
    }
}

} // verus!
