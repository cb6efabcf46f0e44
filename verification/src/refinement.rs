//! What the user's answers do to a selection: which candidates are kept,
//! which are removed, and what is rejected for good.

use crate::actions::{action_json, actions_view, canonical, ActionView, BasicAction};
use crate::commands::clone_actions;
use crate::filtering::{holds_action_of, holds_rejected_action};
use crate::generation::{statistics_view, ActionSet, CommandStatistics, StatisticsView};
use crate::redundancy::picked;
use crate::user_command_parsing::UserCommand;
use vstd::prelude::*;

verus! {

/// What a session holds: the candidates that the user accepted, those that
/// the user removed in this round, the actions rejected in this round, what
/// is rejected for good, and whether all further candidates are accepted.
pub struct SessionView {
    pub to_keep: Set<Seq<char>>,
    pub to_remove: Set<Seq<char>>,
    pub to_remove_containing: Set<Seq<char>>,
    pub to_persistently_reject_actions: Seq<ActionView>,
    pub to_persistently_reject_commands: Seq<Seq<ActionView>>,
    pub should_keep_everything_else: bool,
}

/// The user's decisions of one session of refining a selection.
pub struct RefinementSession {
    pub to_keep: ActionSet,
    pub to_remove: ActionSet,
    pub to_remove_containing: ActionSet,
    pub to_persistently_reject_actions: Vec<BasicAction>,
    pub to_persistently_reject_commands: Vec<Vec<BasicAction>>,
    pub should_keep_everything_else: bool,
}

/// The views of sequences of actions, in order.
pub open spec fn commands_view(commands: Seq<Vec<BasicAction>>) -> Seq<Seq<ActionView>> {
    commands.map_values(|c: Vec<BasicAction>| actions_view(c@))
}

impl View for RefinementSession {
    type V = SessionView;

    open spec fn view(&self) -> SessionView {
        SessionView {
            to_keep: self.to_keep@,
            to_remove: self.to_remove@,
            to_remove_containing: self.to_remove_containing@,
            to_persistently_reject_actions: actions_view(self.to_persistently_reject_actions@),
            to_persistently_reject_commands: commands_view(self.to_persistently_reject_commands@),
            should_keep_everything_else: self.should_keep_everything_else,
        }
    }
}

/// The session before the first answer.
pub open spec fn session_start() -> SessionView {
    SessionView {
        to_keep: Set::empty(),
        to_remove: Set::empty(),
        to_remove_containing: Set::empty(),
        to_persistently_reject_actions: Seq::empty(),
        to_persistently_reject_commands: Seq::empty(),
        should_keep_everything_else: false,
    }
}

/// The session at the start of a round: nothing is removed yet.
pub open spec fn round_begun(s: SessionView) -> SessionView {
    SessionView { to_remove: Set::empty(), to_remove_containing: Set::empty(), ..s }
}

/// The user is to be asked about the candidate: not everything is accepted,
/// and the candidate is not accepted yet.
pub open spec fn needs_answer(s: SessionView, c: StatisticsView) -> bool {
    !s.should_keep_everything_else && !s.to_keep.contains(canonical(c.actions))
}

/// The session after a candidate of the selection was met: it is accepted
/// where everything is.
pub open spec fn candidate_met(s: SessionView, c: StatisticsView) -> SessionView {
    if s.should_keep_everything_else {
        SessionView { to_keep: s.to_keep.insert(canonical(c.actions)), ..s }
    } else {
        s
    }
}

/// The action with the number `number`, counted from one, if there is one.
pub open spec fn numbered_action(c: StatisticsView, number: Option<usize>) -> Option<ActionView> {
    match number {
        Some(n) => if 1 <= n <= c.actions.len() {
            Some(c.actions[n - 1])
        } else {
            None
        },
        None => None,
    }
}

/// The set with the JSON form of the action, where there is an action.
pub open spec fn with_action(set: Set<Seq<char>>, action: Option<ActionView>) -> Set<Seq<char>> {
    match action {
        Some(a) => set.insert(action_json(a)),
        None => set,
    }
}

/// The session after an answer about a candidate. `y` accepts the
/// candidate, `n` removes it; `c` rejects its actions as a command for good;
/// `d` rejects the numbered action for this round, `r` for good; `a` accepts
/// all further candidates.
pub open spec fn answered(s: SessionView, c: StatisticsView, answer: UserCommand) -> SessionView {
    let key = canonical(c.actions);
    let rejected_now = numbered_action(c, answer.action_number_to_reject);
    let rejected_for_good = numbered_action(c, answer.action_number_reject_persistently);
    SessionView {
        to_keep: if answer.encountered_yes {
            s.to_keep.insert(key)
        } else {
            s.to_keep
        },
        to_remove: if !answer.encountered_yes && answer.encountered_no {
            s.to_remove.insert(key)
        } else {
            s.to_remove
        },
        to_remove_containing: with_action(
            with_action(s.to_remove_containing, rejected_now),
            rejected_for_good,
        ),
        to_persistently_reject_actions: match rejected_for_good {
            Some(a) => s.to_persistently_reject_actions.push(a),
            None => s.to_persistently_reject_actions,
        },
        to_persistently_reject_commands: if answer.encountered_reject_command_persistently {
            s.to_persistently_reject_commands.push(c.actions)
        } else {
            s.to_persistently_reject_commands
        },
        should_keep_everything_else: s.should_keep_everything_else
            || answer.encountered_accept_the_rest_of_the_commands,
    }
}

/// The answer settles the candidate: it names no action. After an answer
/// that names one, the user is asked about the candidate again.
pub open spec fn settles(answer: UserCommand) -> bool {
    answer.action_number_to_reject is None && answer.action_number_reject_persistently is None
}

/// A candidate stays among the candidates after a round: it is accepted, or
/// it is neither removed nor holds a rejected action.
pub open spec fn stays(s: SessionView, c: StatisticsView) -> bool {
    s.to_keep.contains(canonical(c.actions)) || (!s.to_remove.contains(canonical(c.actions))
        && !holds_rejected_action(c.actions, s.to_remove_containing))
}

/// The candidates that stay after a round, in order.
pub open spec fn remaining(s: SessionView, candidates: Seq<StatisticsView>) -> Seq<StatisticsView> {
    picked(candidates, |i: int| stays(s, candidates[i]), candidates.len() as int)
}

/// The places of the accepted candidates among the candidates, in order.
pub open spec fn accepted_places(s: SessionView, candidates: Seq<StatisticsView>) -> Seq<int> {
    picked(
        Seq::new(candidates.len(), |i: int| i),
        |i: int| s.to_keep.contains(canonical(candidates[i].actions)),
        candidates.len() as int,
    )
}

/// The action of the recommendation with the number `number`, counted from
/// one.
pub fn find_actions_to_remove(number: Option<usize>, recommendation: &CommandStatistics) -> (r: Option<
    BasicAction,
>)
    ensures
        match r {
            Some(a) => numbered_action(recommendation@, number) == Some(a@),
            None => numbered_action(recommendation@, number) is None,
        },
{
    assert(actions_view(recommendation.actions@).len() == recommendation.actions.len());
    match number {
        Some(n) => {
            if 1 <= n && n <= recommendation.actions.len() {
                assert(actions_view(recommendation.actions@)[n - 1] == recommendation.actions[n
                    - 1]@);
                Some(recommendation.actions[n - 1].clone())
            } else {
                None
            }
        },
        None => None,
    }
}

impl RefinementSession {
    /// The session before the first answer.
    pub fn new() -> (r: Self)
        ensures
            r@ == session_start(),
    {
        let r = RefinementSession {
            to_keep: ActionSet::new(),
            to_remove: ActionSet::new(),
            to_remove_containing: ActionSet::new(),
            to_persistently_reject_actions: Vec::new(),
            to_persistently_reject_commands: Vec::new(),
            should_keep_everything_else: false,
        };
        assert(r@.to_persistently_reject_actions =~= Seq::empty());
        assert(r@.to_persistently_reject_commands =~= Seq::empty());
        r
    }

    /// Begins a round: nothing is removed yet.
    pub fn begin_round(&mut self)
        ensures
            final(self)@ == round_begun(old(self)@),
    {
        self.to_remove = ActionSet::new();
        self.to_remove_containing = ActionSet::new();
    }

    /// Meets a candidate of the selection, and says whether the user is to
    /// be asked about it.
    pub fn consider(&mut self, recommendation: &CommandStatistics) -> (r: bool)
        ensures
            r == needs_answer(old(self)@, recommendation@),
            final(self)@ == candidate_met(old(self)@, recommendation@),
    {
        if self.should_keep_everything_else {
            self.to_keep.insert(&recommendation.actions);
            false
        } else {
            !self.to_keep.contains(&recommendation.actions)
        }
    }

    /// Takes the user's answer about a candidate, and says whether it
    /// settles the candidate.
    pub fn apply_user_command(
        &mut self,
        recommendation: &CommandStatistics,
        user_command: &UserCommand,
    ) -> (r: bool)
        ensures
            final(self)@ == answered(old(self)@, recommendation@, *user_command),
            r == settles(*user_command),
    {
        if user_command.encountered_yes {
            self.to_keep.insert(&recommendation.actions);
        } else if user_command.encountered_no {
            self.to_remove.insert(&recommendation.actions);
        }
        if user_command.encountered_reject_command_persistently {
            let ghost before = commands_view(self.to_persistently_reject_commands@);
            let actions = clone_actions(&recommendation.actions);
            self.to_persistently_reject_commands.push(actions);
            assert(commands_view(self.to_persistently_reject_commands@) =~= before.push(
                recommendation@.actions,
            ));
        }
        match find_actions_to_remove(user_command.action_number_to_reject, recommendation) {
            Some(action) => {
                self.to_remove_containing.insert_action(&action);
            },
            None => {},
        }
        match find_actions_to_remove(
            user_command.action_number_reject_persistently,
            recommendation,
        ) {
            Some(action) => {
                self.to_remove_containing.insert_action(&action);
                let ghost before = actions_view(self.to_persistently_reject_actions@);
                self.to_persistently_reject_actions.push(action);
                assert(actions_view(self.to_persistently_reject_actions@) =~= before.push(
                    action@,
                ));
            },
            None => {},
        }
        if user_command.encountered_accept_the_rest_of_the_commands {
            self.should_keep_everything_else = true;
        }
        user_command.action_number_to_reject.is_none()
            && user_command.action_number_reject_persistently.is_none()
    }

    /// Whether the round removed no candidate, so that the selection stands.
    pub fn is_satisfied(&self) -> (r: bool)
        ensures
            r == (self@.to_remove.len() == 0),
    {
        self.to_remove.get_size() == 0
    }

    /// Whether the candidate stays among the candidates after the round.
    pub fn keeps(&self, recommendation: &CommandStatistics) -> (r: bool)
        ensures
            r == stays(self@, recommendation@),
    {
        self.to_keep.contains(&recommendation.actions) || (!self.to_remove.contains(
            &recommendation.actions,
        ) && !holds_action_of(&recommendation.actions, &self.to_remove_containing))
    }
}

/// Ends a round: the candidates that do not stay leave, and `start` becomes
/// the places of the accepted ones among those that stay.
pub fn perform_removals(
    start: &mut Vec<usize>,
    recommendations: &mut Vec<CommandStatistics>,
    session: &RefinementSession,
)
    ensures
        statistics_view(final(recommendations)@) == remaining(
            session@,
            statistics_view(old(recommendations)@),
        ),
        crate::scoring::indexes_view(final(start)@) == accepted_places(
            session@,
            statistics_view(final(recommendations)@),
        ),
        forall|k: int| 0 <= k < final(start).len() ==> final(start)[k] < final(recommendations).len(),
{
    let ghost all = statistics_view(recommendations@);
    let ghost stay = |i: int| stays(session@, all[i]);
    let mut kept: Vec<CommandStatistics> = Vec::new();
    let mut i: usize = 0;
    assert(statistics_view(kept@) =~= picked(all, stay, 0));
    while i < recommendations.len()
        invariant
            i <= recommendations.len(),
            all == statistics_view(recommendations@),
            stay == |i: int| stays(session@, all[i]),
            statistics_view(kept@) == picked(all, stay, i as int),
        decreases recommendations.len() - i,
    {
        assert(all[i as int] == recommendations[i as int]@);
        let stays_here = session.keeps(&recommendations[i]);
        assert(stays_here == stay(i as int));
        if stays_here {
            let ghost before = statistics_view(kept@);
            let copy = recommendations[i].duplicate();
            kept.push(copy);
            assert(statistics_view(kept@) =~= before.push(all[i as int]));
        }
        i += 1;
    }
    assert(all.len() == recommendations.len());
    *recommendations = kept;
    let ghost now = statistics_view(recommendations@);
    let ghost places = Seq::new(now.len(), |i: int| i);
    let ghost accepted = |i: int| session@.to_keep.contains(canonical(now[i].actions));
    let mut new_start: Vec<usize> = Vec::new();
    let mut j: usize = 0;
    assert(crate::scoring::indexes_view(new_start@) =~= picked(places, accepted, 0));
    assert(now.len() == recommendations.len());
    while j < recommendations.len()
        invariant
            j <= recommendations.len(),
            now == statistics_view(recommendations@),
            now.len() == recommendations.len(),
            places == Seq::new(now.len(), |i: int| i),
            accepted == |i: int| session@.to_keep.contains(canonical(now[i].actions)),
            crate::scoring::indexes_view(new_start@) == picked(places, accepted, j as int),
            forall|k: int| 0 <= k < new_start.len() ==> new_start[k] < j,
        decreases recommendations.len() - j,
    {
        assert(now[j as int] == recommendations[j as int]@);
        if session.to_keep.contains(&recommendations[j].actions) {
            let ghost before = crate::scoring::indexes_view(new_start@);
            new_start.push(j);
            assert(crate::scoring::indexes_view(new_start@) =~= before.push(j as int));
            assert(places[j as int] == j);
        }
        j += 1;
    }
    *start = new_start;
}

} // verus!
