//! How recommendations are written out for the user.

use crate::actions::{action_script, actions_view, ActionView, BasicAction};
use crate::generation::{statistics_view, CommandStatistics, StatisticsView};
use crate::numbers::{digits, natural_to_chars};
use crate::text::{append_chars, chars_of, string_of};
use vstd::prelude::*;

verus! {

/// The actions in the target script's syntax, one on each line.
pub open spec fn script_lines(actions: Seq<ActionView>) -> Seq<char>
    decreases actions.len(),
{
    if actions.len() == 0 {
        Seq::empty()
    } else {
        script_lines(actions.drop_last()) + action_script(actions.last()) + "\n"@
    }
}

/// The line that tells the number of instantiations of an abstract
/// command; nothing for a concrete one.
pub open spec fn instantiations_line(c: StatisticsView) -> Seq<char> {
    match c.instantiation_set {
        Some(set) => "Number of instantiations of abstract command: "@ + digits(set.len()) + "\n"@,
        None => Seq::empty(),
    }
}

/// A recommendation as it is written out: how often it was used, how many
/// words it saves, for an abstract command the number of its
/// instantiations, its actions, and two empty lines.
pub open spec fn recommendation_text(c: StatisticsView) -> Seq<char> {
    "#Number of times used: "@ + digits(c.number_of_times_used as nat) + "\n"@
        + "#Number of words saved: "@ + digits(c.number_of_words_saved as nat) + "\n"@
        + instantiations_line(c) + script_lines(c.actions) + "\n\n"@
}

/// The recommendations as they are written out, one after the other.
pub open spec fn recommendations_text(recommendations: Seq<StatisticsView>) -> Seq<char>
    decreases recommendations.len(),
{
    if recommendations.len() == 0 {
        Seq::empty()
    } else {
        recommendations_text(recommendations.drop_last()) + recommendation_text(
            recommendations.last(),
        )
    }
}

/// The actions with their numbers, counted from one, one on each line and
/// no line end after the last.
pub open spec fn numbered_actions(actions: Seq<ActionView>) -> Seq<char>
    decreases actions.len(),
{
    if actions.len() == 0 {
        Seq::empty()
    } else {
        numbered_actions(actions.drop_last()) + (if actions.len() > 1 {
            "\n"@
        } else {
            Seq::empty()
        }) + digits(actions.len()) + ". "@ + action_script(actions.last())
    }
}

fn script_lines_chars(actions: &Vec<BasicAction>) -> (r: Vec<char>)
    ensures
        r@ == script_lines(actions_view(actions@)),
{
    let ghost views = actions_view(actions@);
    let end = chars_of("\n");
    let mut out: Vec<char> = Vec::new();
    let mut i: usize = 0;
    while i < actions.len()
        invariant
            i <= actions.len(),
            views == actions_view(actions@),
            end@ == "\n"@,
            out@ == script_lines(views.subrange(0, i as int)),
        decreases actions.len() - i,
    {
        assert(views.subrange(0, i + 1).drop_last() == views.subrange(0, i as int));
        assert(views.subrange(0, i + 1).last() == actions[i as int]@);
        let script = actions[i].script_chars();
        append_chars(&mut out, &script);
        append_chars(&mut out, &end);
        i += 1;
    }
    assert(views.subrange(0, actions.len() as int) == views);
    out
}

fn recommendation_chars(recommendation: &CommandStatistics) -> (r: Vec<char>)
    ensures
        r@ == recommendation_text(recommendation@),
{
    let end = chars_of("\n");
    let mut out = chars_of("#Number of times used: ");
    let used = natural_to_chars(recommendation.number_of_times_used as u64);
    append_chars(&mut out, &used);
    append_chars(&mut out, &end);
    let saved_label = chars_of("#Number of words saved: ");
    append_chars(&mut out, &saved_label);
    let saved = natural_to_chars(recommendation.number_of_words_saved as u64);
    append_chars(&mut out, &saved);
    append_chars(&mut out, &end);
    match &recommendation.instantiation_set {
        Some(set) => {
            let label = chars_of("Number of instantiations of abstract command: ");
            let count = natural_to_chars(set.get_size() as u64);
            let mut line = label;
            append_chars(&mut line, &count);
            append_chars(&mut line, &end);
            append_chars(&mut out, &line);
        },
        None => {
            assert(out@ + Seq::<char>::empty() == out@);
        },
    }
    let lines = script_lines_chars(&recommendation.actions);
    append_chars(&mut out, &lines);
    let gap = chars_of("\n\n");
    append_chars(&mut out, &gap);
    out
}

/// The recommendations as they are written out.
pub fn format_recommendations(recommendations: &Vec<CommandStatistics>) -> (r: String)
    ensures
        r@ == recommendations_text(statistics_view(recommendations@)),
{
    let ghost all = statistics_view(recommendations@);
    let mut out: Vec<char> = Vec::new();
    let mut i: usize = 0;
    while i < recommendations.len()
        invariant
            i <= recommendations.len(),
            all == statistics_view(recommendations@),
            out@ == recommendations_text(all.subrange(0, i as int)),
        decreases recommendations.len() - i,
    {
        assert(all.subrange(0, i + 1).drop_last() == all.subrange(0, i as int));
        assert(all.subrange(0, i + 1).last() == recommendations[i as int]@);
        let text = recommendation_chars(&recommendations[i]);
        append_chars(&mut out, &text);
        i += 1;
    }
    assert(all.subrange(0, recommendations.len() as int) == all);
    string_of(&out)
}

/// The actions of a recommendation with their numbers, as the user is
/// shown them.
pub fn format_numbered_actions(recommendation: &CommandStatistics) -> (r: String)
    ensures
        r@ == numbered_actions(recommendation@.actions),
{
    let actions = &recommendation.actions;
    let ghost views = actions_view(actions@);
    let end = chars_of("\n");
    let point = chars_of(". ");
    let mut out: Vec<char> = Vec::new();
    let mut i: usize = 0;
    while i < actions.len()
        invariant
            i <= actions.len(),
            views == actions_view(actions@),
            end@ == "\n"@,
            point@ == ". "@,
            out@ == numbered_actions(views.subrange(0, i as int)),
        decreases actions.len() - i,
    {
        assert(views.subrange(0, i + 1).drop_last() == views.subrange(0, i as int));
        assert(views.subrange(0, i + 1).last() == actions[i as int]@);
        let mut line: Vec<char> = Vec::new();
        if i > 0 {
            append_chars(&mut line, &end);
        }
        let number = natural_to_chars((i + 1) as u64);
        append_chars(&mut line, &number);
        append_chars(&mut line, &point);
        let script = actions[i].script_chars();
        append_chars(&mut line, &script);
        assert(line@ =~= (if i + 1 > 1 {
            "\n"@
        } else {
            Seq::<char>::empty()
        }) + digits((i + 1) as nat) + ". "@ + action_script(actions[i as int]@));
        append_chars(&mut out, &line);
        assert(out@ =~= numbered_actions(views.subrange(0, i as int)) + (if i + 1 > 1 {
            "\n"@
        } else {
            Seq::<char>::empty()
        }) + digits((i + 1) as nat) + ". "@ + action_script(actions[i as int]@));
        i += 1;
    }
    assert(views.subrange(0, actions.len() as int) == views);
    string_of(&out)
}

} // verus!
