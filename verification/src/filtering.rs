//! Leaves out the recommendations that meet a criterion.

use crate::actions::{action_json, actions_view, ActionView, BasicAction};
use crate::generation::{statistics_view, ActionSet, CommandStatistics, StatisticsView};
use crate::redundancy::picked;
use vstd::prelude::*;

verus! {

/// The filter can be asked of every recommendation, and answers each in
/// one way.
pub open spec fn decides_recommendations<F: Fn(&CommandStatistics) -> bool>(filter: F) -> bool {
    &&& forall|c: &CommandStatistics| call_requires(filter, (c,))
    &&& forall|c: &CommandStatistics| !(call_ensures(filter, (c,), true) && call_ensures(filter, (c,), false))
}

/// The filter can be asked of every action, and answers each in one way.
pub open spec fn decides_actions<F: Fn(&BasicAction) -> bool>(filter: F) -> bool {
    &&& forall|a: &BasicAction| call_requires(filter, (a,))
    &&& forall|a: &BasicAction| !(call_ensures(filter, (a,), true) && call_ensures(filter, (a,), false))
}

/// The filter says yes of one of the actions.
pub open spec fn matches_an_action<F: Fn(&BasicAction) -> bool>(filter: F, actions: Seq<BasicAction>) -> bool {
    exists|k: int| 0 <= k < actions.len() && call_ensures(filter, (&#[trigger] actions[k],), true)
}

/// One of the actions has a JSON form in the set.
pub open spec fn holds_rejected_action(actions: Seq<ActionView>, rejected: Set<Seq<char>>) -> bool {
    exists|k: int| 0 <= k < actions.len() && rejected.contains(action_json(#[trigger] actions[k]))
}

/// The recommendations of which the filter says no, in order.
pub fn filter_out_recommendations<F: Fn(&CommandStatistics) -> bool>(
    recommendations: Vec<CommandStatistics>,
    filter_fn: F,
) -> (r: Vec<CommandStatistics>)
    requires
        decides_recommendations(filter_fn),
    ensures
        statistics_view(r@) == picked(
            statistics_view(recommendations@),
            |i: int| !call_ensures(filter_fn, (&recommendations[i],), true),
            recommendations.len() as int,
        ),
{
    let ghost all = statistics_view(recommendations@);
    let ghost keep = |i: int| !call_ensures(filter_fn, (&recommendations[i],), true);
    let mut out: Vec<CommandStatistics> = Vec::new();
    let mut i: usize = 0;
    assert(statistics_view(out@) =~= picked(all, keep, 0));
    while i < recommendations.len()
        invariant
            i <= recommendations.len(),
            decides_recommendations(filter_fn),
            all == statistics_view(recommendations@),
            keep == |i: int| !call_ensures(filter_fn, (&recommendations[i],), true),
            statistics_view(out@) == picked(all, keep, i as int),
        decreases recommendations.len() - i,
    {
        let dropped = filter_fn(&recommendations[i]);
        assert(dropped == !keep(i as int));
        if !dropped {
            let ghost before = statistics_view(out@);
            let kept = recommendations[i].duplicate();
            out.push(kept);
            assert(statistics_view(out@) =~= before.push(all[i as int]));
        }
        i += 1;
    }
    out
}

/// The recommendations without those of which the filter says yes for one
/// of their actions.
pub fn filter_out_recommendations_with_action_matching_filter<F: Fn(&BasicAction) -> bool>(
    recommendations: Vec<CommandStatistics>,
    filter_fn: F,
) -> (r: Vec<CommandStatistics>)
    requires
        decides_actions(filter_fn),
    ensures
        statistics_view(r@) == picked(
            statistics_view(recommendations@),
            |i: int| !matches_an_action(filter_fn, recommendations[i].actions@),
            recommendations.len() as int,
        ),
{
    let ghost all = statistics_view(recommendations@);
    let ghost keep = |i: int| !matches_an_action(filter_fn, recommendations[i].actions@);
    let mut out: Vec<CommandStatistics> = Vec::new();
    let mut i: usize = 0;
    assert(statistics_view(out@) =~= picked(all, keep, 0));
    while i < recommendations.len()
        invariant
            i <= recommendations.len(),
            decides_actions(filter_fn),
            all == statistics_view(recommendations@),
            keep == |i: int| !matches_an_action(filter_fn, recommendations[i].actions@),
            statistics_view(out@) == picked(all, keep, i as int),
        decreases recommendations.len() - i,
    {
        let actions = &recommendations[i].actions;
        let mut matched = false;
        let mut k: usize = 0;
        while k < actions.len() && !matched
            invariant
                k <= actions.len(),
                decides_actions(filter_fn),
                matched ==> matches_an_action(filter_fn, actions@),
                !matched ==> forall|m: int|
                    0 <= m < k ==> !call_ensures(filter_fn, (&#[trigger] actions[m],), true),
            decreases actions.len() - k,
        {
            if filter_fn(&actions[k]) {
                matched = true;
            }
            k += 1;
        }
        assert(matched == !keep(i as int));
        if !matched {
            let ghost before = statistics_view(out@);
            let kept = recommendations[i].duplicate();
            out.push(kept);
            assert(statistics_view(out@) =~= before.push(all[i as int]));
        }
        i += 1;
    }
    out
}

/// Whether one of the actions is in the set.
pub fn holds_action_of(actions: &Vec<BasicAction>, rejected_actions: &ActionSet) -> (r: bool)
    ensures
        r == holds_rejected_action(actions_view(actions@), rejected_actions@),
{
    let ghost views = actions_view(actions@);
    let mut k: usize = 0;
    while k < actions.len()
        invariant
            k <= actions.len(),
            views == actions_view(actions@),
            forall|m: int| 0 <= m < k ==> !rejected_actions@.contains(action_json(#[trigger] views[m])),
        decreases actions.len() - k,
    {
        assert(views[k as int] == actions[k as int]@);
        if rejected_actions.contains_action(&actions[k]) {
            return true;
        }
        k += 1;
    }
    assert(views.len() == actions.len());
    false
}

/// The recommendations without those that hold an action of the set.
pub fn filter_out_recommendations_containing_actions(
    recommendations: Vec<CommandStatistics>,
    rejected_actions: &ActionSet,
) -> (r: Vec<CommandStatistics>)
    ensures
        statistics_view(r@) == picked(
            statistics_view(recommendations@),
            |i: int|
                !holds_rejected_action(
                    statistics_view(recommendations@)[i].actions,
                    rejected_actions@,
                ),
            recommendations.len() as int,
        ),
{
    let ghost all = statistics_view(recommendations@);
    let ghost keep = |i: int| !holds_rejected_action(all[i].actions, rejected_actions@);
    let mut out: Vec<CommandStatistics> = Vec::new();
    let mut i: usize = 0;
    assert(statistics_view(out@) =~= picked(all, keep, 0));
    while i < recommendations.len()
        invariant
            i <= recommendations.len(),
            all == statistics_view(recommendations@),
            keep == |i: int| !holds_rejected_action(all[i].actions, rejected_actions@),
            statistics_view(out@) == picked(all, keep, i as int),
        decreases recommendations.len() - i,
    {
        assert(all[i as int] == recommendations[i as int]@);
        let dropped = holds_action_of(&recommendations[i].actions, rejected_actions);
        assert(dropped == !keep(i as int));
        if !dropped {
            let ghost before = statistics_view(out@);
            let kept = recommendations[i].duplicate();
            out.push(kept);
            assert(statistics_view(out@) =~= before.push(all[i as int]));
        }
        i += 1;
    }
    out
}

/// The recommendations without those that hold the action.
pub fn filter_out_recommendations_containing_action(
    recommendations: Vec<CommandStatistics>,
    rejected_action: &BasicAction,
) -> (r: Vec<CommandStatistics>)
    ensures
        statistics_view(r@) == picked(
            statistics_view(recommendations@),
            |i: int|
                !holds_rejected_action(
                    statistics_view(recommendations@)[i].actions,
                    set![action_json(rejected_action@)],
                ),
            recommendations.len() as int,
        ),
{
    let mut rejected = ActionSet::new();
    rejected.insert_action(rejected_action);
    assert(rejected@ =~= set![action_json(rejected_action@)]);
    filter_out_recommendations_containing_actions(recommendations, &rejected)
}

} // verus!
