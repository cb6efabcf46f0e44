//! Candidate commands: how chains of commands are simplified, which
//! candidates a chain gives rise to, and how often each was used.

use crate::actions::{
    actions_view, arguments_view, canonical, ActionView, Argument, ArgumentView, BasicAction,
    CaptureView, TalonCapture,
};
use crate::commands::{
    chain_name, clone_actions, compute_string_representation_of_actions, create_insert_action,
    get_insert_text, insert_text_view, insert_view, is_insert, is_insert_view, record_view,
    ChainView, Command, CommandChain, Entry, EntryView,
};
use crate::text::{
    append_chars, chars_of, contains_text, count_words, has_text, join_chars, joined, lower,
    lowercase, split_words, str_equal, string_of, words_of,
};
use crate::text_separation::{
    alphabetic, analysed, case_string, compute_case_string_for_prose, first_match, first_prose_separator,
    has_valid_case, separation_of, separators_agree, text_after, text_before, valid_case,
    AnalyzerView, TextSeparationAnalyzer,
};
use vstd::prelude::*;

verus! {

/// A set of action sequences, each held as its canonical form.
#[derive(Debug)]
pub struct ActionSet {
    set: Vec<String>,
}

/// The views of the strings, in order.
pub open spec fn strings_view(items: Seq<String>) -> Seq<Seq<char>> {
    items.map_values(|s: String| s@)
}

impl View for ActionSet {
    type V = Set<Seq<char>>;

    closed spec fn view(&self) -> Set<Seq<char>> {
        strings_view(self.set@).to_set()
    }
}

impl Clone for ActionSet {
    fn clone(&self) -> (r: Self)
        ensures
            r@ == self@,
    {
        self.duplicate()
    }
}

impl ActionSet {
    #[verifier::type_invariant]
    spec fn distinct(self) -> bool {
        strings_view(self.set@).no_duplicates()
    }

    /// The empty set.
    pub fn new() -> (r: Self)
        ensures
            r@ == Set::<Seq<char>>::empty(),
    {
        let r = Self { set: Vec::new() };
        assert(strings_view(r.set@).to_set() =~= Set::<Seq<char>>::empty());
        r
    }

    /// Whether the canonical form `representation` is in the set.
    pub fn contains_representation(&self, representation: &str) -> (r: bool)
        ensures
            r == self@.contains(representation@),
    {
        let ghost items = strings_view(self.set@);
        let mut i: usize = 0;
        while i < self.set.len()
            invariant
                i <= self.set.len(),
                items == strings_view(self.set@),
                forall|k: int| 0 <= k < i ==> items[k] != representation@,
            decreases self.set.len() - i,
        {
            if crate::text::str_equal(self.set[i].as_str(), representation) {
                assert(items[i as int] == representation@);
                return true;
            }
            i += 1;
        }
        false
    }

    /// Puts the canonical form `representation` into the set.
    pub fn insert_representation(&mut self, representation: &str)
        ensures
            final(self)@ == old(self)@.insert(representation@),
    {
        proof {
            use_type_invariant(&*self);
        }
        if !self.contains_representation(representation) {
            let ghost before = strings_view(self.set@);
            let mut items: Vec<String> = Vec::new();
            core::mem::swap(&mut self.set, &mut items);
            items.push(String::from_str(representation));
            proof {
                let after = strings_view(items@);
                assert(after == before.push(representation@));
                assert(after.to_set() =~= before.to_set().insert(representation@)) by {
                    assert forall|x: Seq<char>| after.to_set().contains(x) == before.to_set().insert(
                        representation@,
                    ).contains(x) by {
                        if after.contains(x) {
                            let k = choose|k: int| 0 <= k < after.len() && after[k] == x;
                            if k < before.len() {
                                assert(before[k] == x);
                            }
                        }
                        if before.contains(x) {
                            let k = choose|k: int| 0 <= k < before.len() && before[k] == x;
                            assert(after[k] == x);
                        }
                        if x == representation@ {
                            assert(after[before.len() as int] == x);
                        }
                    }
                }
                assert(after.no_duplicates()) by {
                    assert forall|i: int, j: int|
                        0 <= i < after.len() && 0 <= j < after.len() && i != j implies after[i]
                        != after[j] by {
                        if i < before.len() && j < before.len() {
                            assert(before[i] != before[j]);
                        } else if i < before.len() {
                            assert(before.contains(before[i]));
                        } else {
                            assert(before.contains(before[j]));
                        }
                    }
                }
            }
            self.set = items;
        } else {
            assert(self@.insert(representation@) =~= self@);
        }
    }

    /// Puts a sequence of actions into the set.
    pub fn insert(&mut self, actions: &Vec<BasicAction>)
        ensures
            final(self)@ == old(self)@.insert(canonical(actions_view(actions@))),
    {
        let representation = compute_string_representation_of_actions(actions);
        self.insert_representation(representation.as_str());
    }

    /// Whether a sequence of actions is in the set.
    pub fn contains(&self, actions: &Vec<BasicAction>) -> (r: bool)
        ensures
            r == self@.contains(canonical(actions_view(actions@))),
    {
        let representation = compute_string_representation_of_actions(actions);
        self.contains_representation(representation.as_str())
    }

    /// Puts the sequence of the one action into the set.
    pub fn insert_action(&mut self, action: &BasicAction)
        ensures
            final(self)@ == old(self)@.insert(crate::actions::action_json(action@)),
    {
        let representation = action.to_json();
        self.insert_representation(representation.as_str());
    }

    /// Whether the sequence of the one action is in the set.
    pub fn contains_action(&self, action: &BasicAction) -> (r: bool)
        ensures
            r == self@.contains(crate::actions::action_json(action@)),
    {
        let representation = action.to_json();
        self.contains_representation(representation.as_str())
    }

    /// The number of sequences in the set.
    pub fn get_size(&self) -> (r: usize)
        ensures
            r == self@.len(),
            self@.finite(),
    {
        proof {
            use_type_invariant(self);
            strings_view(self.set@).unique_seq_to_set();
            vstd::seq_lib::seq_to_set_is_finite(strings_view(self.set@));
        }
        self.set.len()
    }

    /// A copy of the set.
    pub fn duplicate(&self) -> (r: Self)
        ensures
            r@ == self@,
    {
        proof {
            use_type_invariant(self);
        }
        let mut items: Vec<String> = Vec::new();
        let mut i: usize = 0;
        while i < self.set.len()
            invariant
                i <= self.set.len(),
                items.len() == i,
                forall|k: int| 0 <= k < i ==> (#[trigger] items[k])@ == self.set[k]@,
            decreases self.set.len() - i,
        {
            items.push(self.set[i].clone());
            i += 1;
        }
        assert(strings_view(items@) =~= strings_view(self.set@));
        Self { set: items }
    }
}

/// The longest pause, in seconds, that a chain may span.
pub const FIVE_MINUTES_IN_SECONDS: u32 = 300;

/// The largest number of words of a phrase that is looked for in an
/// inserted text.
pub const DEFAULT_MAX_PROSE_SIZE_TO_CONSIDER: usize = 10;

/// A number of words; no more than 32 bits hold.
pub open spec fn clipped(n: int) -> int {
    if n > u32::MAX {
        u32::MAX as int
    } else if n < 0 {
        0
    } else {
        n
    }
}

/// The number of words of a chain's phrase.
pub open spec fn chain_words(chain: ChainView) -> int {
    clipped(words_of(chain.command.name).len() as int)
}

/// The number of words of the chain's phrase.
pub fn compute_number_of_words(command_chain: &CommandChain) -> (r: u32)
    ensures
        r == chain_words(command_chain@),
{
    let count = count_words(&chars_of(command_chain.get_command().get_name()));
    if count > u32::MAX as usize {
        u32::MAX
    } else {
        count as u32
    }
}

/// The action that repeats the one before it `count` times.
pub open spec fn repeat_view(count: int) -> ActionView {
    ActionView { name: "repeat"@, arguments: seq![ArgumentView::Int(count)] }
}

/// The actions that an action stands for beyond itself: a `repeat` with a
/// positive count stands for one action less than its count.
pub open spec fn repeated_actions(a: ActionView) -> int {
    if a.name == "repeat"@ && a.arguments.len() > 0 {
        match a.arguments[0] {
            ArgumentView::Int(n) => if n >= 1 {
                n - 1
            } else {
                0
            },
            _ => 0,
        }
    } else {
        0
    }
}

/// The number of actions that a sequence stands for, with what its
/// `repeat` actions repeat; no more than a `usize` holds.
pub open spec fn number_of_actions(actions: Seq<ActionView>) -> int
    decreases actions.len(),
{
    if actions.len() == 0 {
        0
    } else {
        let rest = number_of_actions(actions.drop_last()) + 1 + repeated_actions(actions.last());
        if rest > usize::MAX {
            usize::MAX as int
        } else {
            rest
        }
    }
}

/// The number of actions that the sequence stands for.
pub fn compute_number_of_actions(actions: &Vec<BasicAction>) -> (r: usize)
    ensures
        r == number_of_actions(actions_view(actions@)),
{
    let ghost views = actions_view(actions@);
    let mut total: usize = 0;
    let mut i: usize = 0;
    while i < actions.len()
        invariant
            i <= actions.len(),
            views == actions_view(actions@),
            total == number_of_actions(views.subrange(0, i as int)),
        decreases actions.len() - i,
    {
        assert(views.subrange(0, i + 1).drop_last() == views.subrange(0, i as int));
        assert(views.subrange(0, i + 1).last() == actions[i as int]@);
        let action = &actions[i];
        let mut extra: usize = 0;
        let arguments = action.get_arguments();
        assert(arguments_view(arguments@).len() == arguments@.len());
        if str_equal(action.get_name(), "repeat") && arguments.len() > 0 {
            assert(arguments_view(arguments@)[0] == arguments[0]@);
            match &arguments[0] {
                Argument::IntArgument(n) => {
                    if *n >= 1 {
                        extra = (*n - 1) as usize;
                    }
                },
                _ => {},
            }
        }
        total = total.saturating_add(1).saturating_add(extra);
        i += 1;
    }
    assert(views.subrange(0, actions.len() as int) == views);
    total
}

/// What is known of a candidate command.
pub struct StatisticsView {
    pub actions: Seq<ActionView>,
    pub number_of_times_used: int,
    pub number_of_actions: int,
    pub total_number_of_words_dictated: int,
    pub number_of_words_saved: int,
    pub instantiation_set: Option<Set<Seq<char>>>,
}

/// What is known of a candidate command: its actions, how often it was
/// used, how many words were dictated for it, how many words it would have
/// saved, and, for an abstract candidate, the concrete action sequences that
/// it stood for.
#[derive(Clone, Debug)]
pub struct CommandStatistics {
    pub actions: Vec<BasicAction>,
    pub number_of_times_used: usize,
    pub number_of_actions: usize,
    pub total_number_of_words_dictated: u32,
    pub number_of_words_saved: u32,
    pub instantiation_set: Option<ActionSet>,
}

impl View for CommandStatistics {
    type V = StatisticsView;

    open spec fn view(&self) -> StatisticsView {
        StatisticsView {
            actions: actions_view(self.actions@),
            number_of_times_used: self.number_of_times_used as int,
            number_of_actions: self.number_of_actions as int,
            total_number_of_words_dictated: self.total_number_of_words_dictated as int,
            number_of_words_saved: self.number_of_words_saved as int,
            instantiation_set: match self.instantiation_set {
                Some(set) => Some(set@),
                None => None,
            },
        }
    }
}

/// The statistics of a concrete candidate that was not used yet.
pub open spec fn fresh_statistics(actions: Seq<ActionView>) -> StatisticsView {
    StatisticsView {
        actions,
        number_of_times_used: 0,
        number_of_actions: number_of_actions(actions),
        total_number_of_words_dictated: 0,
        number_of_words_saved: 0,
        instantiation_set: None,
    }
}

/// The statistics after one more use, for which `words` words were dictated.
pub open spec fn used_once_more(s: StatisticsView, words: int) -> StatisticsView {
    StatisticsView {
        number_of_times_used: if s.number_of_times_used < usize::MAX {
            s.number_of_times_used + 1
        } else {
            s.number_of_times_used
        },
        total_number_of_words_dictated: clipped(s.total_number_of_words_dictated + words),
        ..s
    }
}

/// The whole words dictated per use; zero before the first use.
pub open spec fn whole_average_words(s: StatisticsView) -> int {
    if s.number_of_times_used == 0 {
        0
    } else {
        s.total_number_of_words_dictated / s.number_of_times_used
    }
}

/// The words that a concrete candidate would have saved: for each use, one
/// word less than were dictated on average.
pub open spec fn concrete_words_saved(s: StatisticsView) -> int {
    if whole_average_words(s) >= 1 {
        s.number_of_times_used * (whole_average_words(s) - 1)
    } else {
        0
    }
}

impl CommandStatistics {
    /// The statistics of a concrete candidate that was not used yet.
    pub fn new(actions: Vec<BasicAction>) -> (r: Self)
        ensures
            r@ == fresh_statistics(actions_view(actions@)),
    {
        let number_of_actions = compute_number_of_actions(&actions);
        CommandStatistics {
            actions,
            number_of_times_used: 0,
            number_of_actions,
            total_number_of_words_dictated: 0,
            number_of_words_saved: 0,
            instantiation_set: None,
        }
    }

    /// The statistics of an abstract candidate that was not used yet.
    pub fn new_abstract(actions: Vec<BasicAction>) -> (r: Self)
        ensures
            r@ == (StatisticsView {
                instantiation_set: Some(Set::empty()),
                ..fresh_statistics(actions_view(actions@))
            }),
    {
        let number_of_actions = compute_number_of_actions(&actions);
        CommandStatistics {
            actions,
            number_of_times_used: 0,
            number_of_actions,
            total_number_of_words_dictated: 0,
            number_of_words_saved: 0,
            instantiation_set: Some(ActionSet::new()),
        }
    }

    /// The whole words dictated per use; zero before the first use.
    pub fn get_whole_average_words_dictated(&self) -> (r: u32)
        ensures
            r == whole_average_words(self@),
    {
        if self.number_of_times_used == 0 {
            return 0;
        }
        let average = (self.total_number_of_words_dictated as u128) / (
        self.number_of_times_used as u128);
        average as u32
    }

    /// Counts one more use, by the chain `command_chain`.
    pub fn process_usage(&mut self, command_chain: &CommandChain)
        ensures
            final(self)@ == used_once_more(old(self)@, chain_words(command_chain@)),
    {
        if self.number_of_times_used < usize::MAX {
            self.number_of_times_used += 1;
        }
        self.total_number_of_words_dictated = self.total_number_of_words_dictated.saturating_add(
            compute_number_of_words(command_chain),
        );
    }

    /// A copy of the statistics.
    pub fn duplicate(&self) -> (r: Self)
        ensures
            r@ == self@,
    {
        CommandStatistics {
            actions: clone_actions(&self.actions),
            number_of_times_used: self.number_of_times_used,
            number_of_actions: self.number_of_actions,
            total_number_of_words_dictated: self.total_number_of_words_dictated,
            number_of_words_saved: self.number_of_words_saved,
            instantiation_set: match &self.instantiation_set {
                Some(set) => Some(set.duplicate()),
                None => None,
            },
        }
    }
}

/// A chain that begins at the record index `chain` counts for a candidate
/// whose last counted chain ended at `last`: it begins later, so that the
/// two share no command, or none was counted yet.
pub open spec fn counts_after(last: Option<int>, chain: int) -> bool {
    match last {
        Some(existing) => existing < chain,
        None => true,
    }
}

/// Remembers where the last chain ended that counted for a candidate.
#[derive(Clone, Copy, Debug)]
pub struct ChainHandler {
    chain: Option<usize>,
}

impl View for ChainHandler {
    type V = Option<int>;

    closed spec fn view(&self) -> Option<int> {
        match self.chain {
            Some(c) => Some(c as int),
            None => None,
        }
    }
}

impl ChainHandler {
    /// The handler of a candidate for which no chain counted yet.
    pub fn new() -> (r: Self)
        ensures
            r@ is None,
    {
        ChainHandler { chain: None }
    }

    /// Whether a chain that begins at `chain` counts.
    pub fn should_process_usage(&self, chain: usize) -> (r: bool)
        ensures
            r == counts_after(self@, chain as int),
    {
        match self.chain {
            Some(existing_chain) => existing_chain < chain,
            None => true,
        }
    }

    /// Remembers the end of `command_chain` as the last that counted.
    pub fn process_relevant_usage(&mut self, command_chain: &CommandChain)
        requires
            chain_is_placed(command_chain@),
        ensures
            final(self)@ == Some(chain_end(command_chain@)),
    {
        self.chain = Some(command_chain.get_chain_ending_index());
    }
}

/// The chain spans one command at least, and its last index is a `usize`.
pub open spec fn chain_is_placed(chain: ChainView) -> bool {
    chain.size >= 1 && chain.start + chain.size - 1 <= usize::MAX
}

/// The record index of the chain's last command.
pub open spec fn chain_end(chain: ChainView) -> int {
    chain.start + chain.size - 1
}

/// A candidate: its statistics, and where the last chain ended that
/// counted for it.
pub struct CandidateView {
    pub statistics: StatisticsView,
    pub last_end: Option<int>,
}

/// The candidate after the chain was offered to it: the chain counts only
/// where it begins after the end of the last chain that counted.
pub open spec fn offered(c: CandidateView, chain: ChainView) -> CandidateView {
    if counts_after(c.last_end, chain.start) {
        CandidateView {
            statistics: used_once_more(c.statistics, chain_words(chain)),
            last_end: Some(chain_end(chain)),
        }
    } else {
        c
    }
}

/// A concrete candidate.
#[derive(Clone, Debug)]
pub struct PotentialCommandInformation {
    statistics: CommandStatistics,
    chain_handler: ChainHandler,
}

impl View for PotentialCommandInformation {
    type V = CandidateView;

    closed spec fn view(&self) -> CandidateView {
        CandidateView { statistics: self.statistics@, last_end: self.chain_handler@ }
    }
}

impl PotentialCommandInformation {
    /// The candidate with these actions, not used yet.
    pub fn new(actions: Vec<BasicAction>) -> (r: Self)
        ensures
            r@ == (CandidateView {
                statistics: fresh_statistics(actions_view(actions@)),
                last_end: None,
            }),
    {
        PotentialCommandInformation {
            statistics: CommandStatistics::new(actions),
            chain_handler: ChainHandler::new(),
        }
    }

    /// The candidate's statistics.
    pub fn get_statistics(&self) -> (r: &CommandStatistics)
        ensures
            r@ == self@.statistics,
    {
        &self.statistics
    }

    /// The candidate's statistics, by value.
    pub fn move_statistics(self) -> (r: CommandStatistics)
        ensures
            r@ == self@.statistics,
    {
        self.statistics
    }

    /// Whether a chain that begins at `chain_number` counts.
    pub fn should_process_usage(&self, chain_number: usize) -> (r: bool)
        ensures
            r == counts_after(self@.last_end, chain_number as int),
    {
        self.chain_handler.should_process_usage(chain_number)
    }

    /// Offers the chain to the candidate.
    pub fn process_usage(&mut self, command_chain: &CommandChain)
        requires
            chain_is_placed(command_chain@),
        ensures
            final(self)@ == offered(old(self)@, command_chain@),
    {
        if self.chain_handler.should_process_usage(command_chain.get_chain_number()) {
            self.chain_handler.process_relevant_usage(command_chain);
            self.statistics.process_usage(command_chain);
        }
    }

    /// A copy of the candidate.
    pub fn clone_information(&self) -> (r: Self)
        ensures
            r@ == self@,
    {
        PotentialCommandInformation {
            statistics: self.statistics.duplicate(),
            chain_handler: self.chain_handler,
        }
    }

    /// Sets the words that the candidate would have saved.
    pub fn compute_number_of_words_saved(&mut self)
        ensures
            final(self)@ == (CandidateView {
                statistics: StatisticsView {
                    number_of_words_saved: concrete_words_saved(old(self)@.statistics),
                    ..old(self)@.statistics
                },
                ..old(self)@
            }),
    {
        let average = self.statistics.get_whole_average_words_dictated();
        if average >= 1 {
            let used = self.statistics.number_of_times_used as u128;
            let total = self.statistics.total_number_of_words_dictated as u128;
            let each = (average - 1) as u128;
            assert(used * each <= total) by (nonlinear_arith)
                requires
                    used > 0,
                    each + 1 == total / used,
            ;
            self.statistics.number_of_words_saved = (used * each) as u32;
        } else {
            self.statistics.number_of_words_saved = 0;
        }
    }
}

/// The action that repeats the one before it `repeat_count` times.
pub fn create_repeat_action(repeat_count: i32) -> (r: BasicAction)
    ensures
        r@ == repeat_view(repeat_count as int),
{
    let mut arguments: Vec<Argument> = Vec::new();
    arguments.push(Argument::IntArgument(repeat_count));
    assert(arguments_view(arguments@) =~= seq![ArgumentView::Int(repeat_count as int)]);
    BasicAction::new("repeat", arguments)
}

/// The chain with another phrase and other actions.
pub open spec fn chain_with(chain: ChainView, name: Seq<char>, actions: Seq<ActionView>) -> ChainView {
    ChainView {
        command: crate::actions::CommandView { name, actions, seconds: chain.command.seconds },
        ..chain
    }
}

/// A copy of the chain with another phrase and other actions.
pub fn compute_command_chain_copy_with_new_name_and_actions(
    command_chain: &CommandChain,
    new_name: &str,
    new_actions: Vec<BasicAction>,
) -> (r: CommandChain)
    ensures
        r@ == chain_with(command_chain@, new_name@, actions_view(new_actions@)),
{
    let new_command = Command::new(
        new_name,
        new_actions,
        command_chain.get_command().get_seconds_since_last_action(),
    );
    CommandChain::new(new_command, command_chain.get_chain_number(), command_chain.get_size())
}

/// With one `insert` put in for the pending text, where there is one.
pub open spec fn flushed_insert(done: Seq<ActionView>, pending: Seq<char>) -> Seq<ActionView> {
    if pending.len() > 0 {
        done.push(insert_view(pending))
    } else {
        done
    }
}

/// The actions read so far with adjacent inserts made one, and the text of
/// the inserts at the end that are not written out yet.
pub open spec fn insert_scan(actions: Seq<ActionView>) -> (Seq<ActionView>, Seq<char>)
    decreases actions.len(),
{
    if actions.len() == 0 {
        (Seq::empty(), Seq::empty())
    } else {
        let (done, pending) = insert_scan(actions.drop_last());
        if is_insert_view(actions.last()) {
            (done, pending + insert_text_view(actions.last()))
        } else {
            (flushed_insert(done, pending).push(actions.last()), Seq::empty())
        }
    }
}

/// The actions with each run of adjacent `insert` actions made one `insert`
/// of their texts, one after the other; a run that inserts nothing is left
/// out.
pub open spec fn insert_fused(actions: Seq<ActionView>) -> Seq<ActionView> {
    flushed_insert(insert_scan(actions).0, insert_scan(actions).1)
}

/// With one `repeat` put in for the pending repetitions, where there are
/// any.
pub open spec fn flushed_repeat(done: Seq<ActionView>, count: int) -> Seq<ActionView> {
    if count > 0 {
        done.push(repeat_view(count))
    } else {
        done
    }
}

/// The actions read so far with repetitions made `repeat` actions, the
/// action that may be repeated next, and how often it was repeated already.
pub open spec fn repeat_scan(actions: Seq<ActionView>) -> (Seq<ActionView>, Option<ActionView>, int)
    decreases actions.len(),
{
    if actions.len() == 0 {
        (Seq::empty(), None, 0)
    } else {
        let (done, last, count) = repeat_scan(actions.drop_last());
        if last == Some(actions.last()) && count < i32::MAX {
            (done, last, count + 1)
        } else {
            (flushed_repeat(done, count).push(actions.last()), Some(actions.last()), 0)
        }
    }
}

/// The actions with each run of equal actions made the action and a
/// `repeat` that says how often it comes again.
pub open spec fn repeat_fused(actions: Seq<ActionView>) -> Seq<ActionView> {
    flushed_repeat(repeat_scan(actions).0, repeat_scan(actions).2)
}

/// The simplified form of a sequence of actions: inserts fused first, then
/// repetitions.
pub open spec fn simplified(actions: Seq<ActionView>) -> Seq<ActionView> {
    repeat_fused(insert_fused(actions))
}

/// Fuses the repetitions in the chain's actions.
pub fn compute_repeat_simplified_command_chain(command_chain: &CommandChain) -> (r: CommandChain)
    ensures
        r@ == chain_with(
            command_chain@,
            command_chain@.command.name,
            repeat_fused(command_chain@.command.actions),
        ),
{
    let actions = command_chain.get_command().get_actions();
    let ghost views = actions_view(actions@);
    let mut new_actions: Vec<BasicAction> = Vec::new();
    let mut last_index: Option<usize> = None;
    let mut repeat_count: i32 = 0;
    let mut i: usize = 0;
    assert(actions_view(new_actions@) =~= Seq::<ActionView>::empty());
    while i < actions.len()
        invariant
            i <= actions.len(),
            views == actions_view(actions@),
            0 <= repeat_count,
            match last_index {
                Some(k) => k < i && repeat_scan(views.subrange(0, i as int)).1 == Some(views[k as int]),
                None => repeat_scan(views.subrange(0, i as int)).1 is None,
            },
            repeat_scan(views.subrange(0, i as int)).0 == actions_view(new_actions@),
            repeat_scan(views.subrange(0, i as int)).2 == repeat_count,
        decreases actions.len() - i,
    {
        assert(views.subrange(0, i + 1).drop_last() == views.subrange(0, i as int));
        assert(views.subrange(0, i + 1).last() == actions[i as int]@);
        let action = &actions[i];
        let same = match last_index {
            Some(k) => action.same_as(&actions[k]),
            None => false,
        };
        if same && repeat_count < i32::MAX {
            repeat_count += 1;
        } else {
            let ghost before = actions_view(new_actions@);
            if repeat_count > 0 {
                new_actions.push(create_repeat_action(repeat_count));
                assert(actions_view(new_actions@) =~= before.push(repeat_view(repeat_count as int)));
                repeat_count = 0;
            }
            let ghost flushed = actions_view(new_actions@);
            new_actions.push(action.clone());
            assert(actions_view(new_actions@) =~= flushed.push(action@));
            last_index = Some(i);
        }
        i += 1;
    }
    assert(views.subrange(0, actions.len() as int) == views);
    if repeat_count > 0 {
        let ghost before = actions_view(new_actions@);
        new_actions.push(create_repeat_action(repeat_count));
        assert(actions_view(new_actions@) =~= before.push(repeat_view(repeat_count as int)));
    }
    compute_command_chain_copy_with_new_name_and_actions(
        command_chain,
        command_chain.get_command().get_name(),
        new_actions,
    )
}

/// Fuses the adjacent inserts in the chain's actions.
pub fn compute_insert_simplified_command_chain(command_chain: &CommandChain) -> (r: CommandChain)
    ensures
        r@ == chain_with(
            command_chain@,
            command_chain@.command.name,
            insert_fused(command_chain@.command.actions),
        ),
{
    let actions = command_chain.get_command().get_actions();
    let ghost views = actions_view(actions@);
    let mut new_actions: Vec<BasicAction> = Vec::new();
    let mut current_insert_text: Vec<char> = Vec::new();
    let mut i: usize = 0;
    assert(actions_view(new_actions@) =~= Seq::<ActionView>::empty());
    while i < actions.len()
        invariant
            i <= actions.len(),
            views == actions_view(actions@),
            insert_scan(views.subrange(0, i as int)) == (
                actions_view(new_actions@),
                current_insert_text@,
            ),
        decreases actions.len() - i,
    {
        assert(views.subrange(0, i + 1).drop_last() == views.subrange(0, i as int));
        assert(views.subrange(0, i + 1).last() == actions[i as int]@);
        let action = &actions[i];
        if is_insert(action) {
            let text = chars_of(get_insert_text(action).as_str());
            append_chars(&mut current_insert_text, &text);
        } else {
            let ghost before = actions_view(new_actions@);
            if current_insert_text.len() > 0 {
                let text = string_of(&current_insert_text);
                new_actions.push(create_insert_action(text.as_str()));
                assert(actions_view(new_actions@) =~= before.push(insert_view(text@)));
                current_insert_text = Vec::new();
            }
            let ghost flushed = actions_view(new_actions@);
            new_actions.push(action.clone());
            assert(actions_view(new_actions@) =~= flushed.push(action@));
        }
        i += 1;
    }
    assert(views.subrange(0, actions.len() as int) == views);
    if current_insert_text.len() > 0 {
        let ghost before = actions_view(new_actions@);
        let text = string_of(&current_insert_text);
        new_actions.push(create_insert_action(text.as_str()));
        assert(actions_view(new_actions@) =~= before.push(insert_view(text@)));
    }
    compute_command_chain_copy_with_new_name_and_actions(
        command_chain,
        command_chain.get_command().get_name(),
        new_actions,
    )
}

/// The chain with its actions simplified.
pub open spec fn simplified_chain(chain: ChainView) -> ChainView {
    chain_with(chain, chain.command.name, simplified(chain.command.actions))
}

/// Simplifies the chain's actions: fuses adjacent inserts, then
/// repetitions.
pub fn simplify_command_chain(command_chain: &CommandChain) -> (r: CommandChain)
    ensures
        r@ == simplified_chain(command_chain@),
{
    let insert_simplified = compute_insert_simplified_command_chain(command_chain);
    compute_repeat_simplified_command_chain(&insert_simplified)
}

/// A chain made abstract: the abstract chain, the chain that it was made
/// from, and the words that this instance would have saved.
pub struct InstantiationView {
    pub command_chain: ChainView,
    pub concrete_command: ChainView,
    pub words_saved: int,
}

/// A chain made abstract.
pub struct AbstractCommandInstantiation {
    pub command_chain: CommandChain,
    pub concrete_command: CommandChain,
    pub words_saved: u32,
}

impl View for AbstractCommandInstantiation {
    type V = InstantiationView;

    open spec fn view(&self) -> InstantiationView {
        InstantiationView {
            command_chain: self.command_chain@,
            concrete_command: self.concrete_command@,
            words_saved: self.words_saved as int,
        }
    }
}

/// The candidate after an instance was offered to it: where the instance's
/// chain counts, the concrete actions join the instantiation set, the use
/// is counted and the instance's saved words are added.
pub open spec fn instantiated(c: CandidateView, instance: InstantiationView) -> CandidateView {
    if counts_after(c.last_end, instance.command_chain.start) {
        let counted = used_once_more(c.statistics, chain_words(instance.command_chain));
        CandidateView {
            statistics: StatisticsView {
                instantiation_set: match c.statistics.instantiation_set {
                    Some(set) => Some(set.insert(canonical(instance.concrete_command.command.actions))),
                    None => None,
                },
                number_of_words_saved: clipped(
                    c.statistics.number_of_words_saved + instance.words_saved,
                ),
                ..counted
            },
            last_end: Some(chain_end(instance.command_chain)),
        }
    } else {
        c
    }
}

/// The abstract candidate with these actions, not used yet.
pub open spec fn fresh_abstract(actions: Seq<ActionView>) -> CandidateView {
    CandidateView {
        statistics: StatisticsView {
            instantiation_set: Some(Set::empty()),
            ..fresh_statistics(actions)
        },
        last_end: None,
    }
}

/// An abstract candidate.
#[derive(Debug)]
pub struct PotentialAbstractCommandInformation {
    statistics: CommandStatistics,
    chain_handler: ChainHandler,
}

impl View for PotentialAbstractCommandInformation {
    type V = CandidateView;

    closed spec fn view(&self) -> CandidateView {
        CandidateView { statistics: self.statistics@, last_end: self.chain_handler@ }
    }
}

impl Clone for PotentialAbstractCommandInformation {
    fn clone(&self) -> (r: Self)
        ensures
            r@ == self@,
    {
        self.duplicate()
    }
}

impl PotentialAbstractCommandInformation {
    #[verifier::type_invariant]
    spec fn has_set(self) -> bool {
        self.statistics.instantiation_set is Some
    }

    /// A copy of the candidate.
    pub fn duplicate(&self) -> (r: Self)
        ensures
            r@ == self@,
    {
        proof {
            use_type_invariant(self);
        }
        Self { statistics: self.statistics.duplicate(), chain_handler: self.chain_handler }
    }

    /// The abstract candidate of the instance, used once by it.
    pub fn new(instantiation: AbstractCommandInstantiation) -> (r: Self)
        requires
            chain_is_placed(instantiation@.command_chain),
        ensures
            r@ == instantiated(
                fresh_abstract(instantiation@.command_chain.command.actions),
                instantiation@,
            ),
    {
        let actions = clone_actions(instantiation.command_chain.get_command().get_actions());
        let statistics = CommandStatistics::new_abstract(actions);
        let result = Self { statistics, chain_handler: ChainHandler::new() };
        result.with_usage(instantiation)
    }

    fn with_usage(self, instantiation: AbstractCommandInstantiation) -> (r: Self)
        requires
            chain_is_placed(instantiation@.command_chain),
        ensures
            r@ == instantiated(self@, instantiation@),
    {
        proof {
            use_type_invariant(&self);
        }
        let beginning = instantiation.command_chain.get_chain_number();
        if self.chain_handler.should_process_usage(beginning) {
            let mut statistics = self.statistics;
            let mut chain_handler = self.chain_handler;
            let mut set = statistics.instantiation_set.unwrap();
            set.insert(instantiation.concrete_command.get_command().get_actions());
            statistics.instantiation_set = Some(set);
            statistics.process_usage(&instantiation.command_chain);
            chain_handler.process_relevant_usage(&instantiation.command_chain);
            statistics.number_of_words_saved = statistics.number_of_words_saved.saturating_add(
                instantiation.words_saved,
            );
            Self { statistics, chain_handler }
        } else {
            self
        }
    }

    /// Offers the instance to the candidate.
    pub fn process_usage(&mut self, instantiation: AbstractCommandInstantiation)
        requires
            chain_is_placed(instantiation@.command_chain),
        ensures
            final(self)@ == instantiated(old(self)@, instantiation@),
    {
        let mut taken = Self {
            statistics: CommandStatistics::new_abstract(Vec::new()),
            chain_handler: ChainHandler::new(),
        };
        core::mem::swap(self, &mut taken);
        *self = taken.with_usage(instantiation);
    }

    /// The candidate's statistics.
    pub fn get_statistics(&self) -> (r: &CommandStatistics)
        ensures
            r@ == self@.statistics,
            r@.instantiation_set is Some,
    {
        proof {
            use_type_invariant(self);
        }
        &self.statistics
    }

    /// The number of concrete action sequences that the candidate stood
    /// for.
    pub fn get_number_of_instantiations(&self) -> (r: usize)
        ensures
            self@.statistics.instantiation_set is Some,
            r == self@.statistics.instantiation_set->0.len(),
    {
        proof {
            use_type_invariant(self);
        }
        match &self.statistics.instantiation_set {
            Some(set) => set.get_size(),
            None => 0,
        }
    }
}

/// The capture that stands for the count of the `instance`-th repetition.
pub open spec fn repeat_capture(instance: int) -> CaptureView {
    CaptureView { name: "number_small"@, instance, postfix: " - 1"@ }
}

/// The `repeat` whose count is spoken.
pub open spec fn abstract_repeat_view(instance: int) -> ActionView {
    ActionView { name: "repeat"@, arguments: seq![ArgumentView::Capture(repeat_capture(instance))] }
}

/// The actions read so far with each `repeat` made one whose count is
/// spoken, what the captures add to the phrase, and the number of `repeat`
/// actions met.
pub open spec fn repeat_abstraction(actions: Seq<ActionView>) -> (Seq<ActionView>, Seq<char>, int)
    decreases actions.len(),
{
    if actions.len() == 0 {
        (Seq::empty(), Seq::empty(), 0)
    } else {
        let (done, suffix, instances) = repeat_abstraction(actions.drop_last());
        if actions.last().name == "repeat"@ {
            let instance = if instances < i32::MAX {
                instances + 1
            } else {
                instances
            };
            (
                done.push(abstract_repeat_view(instance)),
                suffix + " "@ + crate::actions::capture_component(repeat_capture(instance)),
                instance,
            )
        } else {
            (done.push(actions.last()), suffix, instances)
        }
    }
}

/// Some action of the sequence is named `repeat`.
pub open spec fn has_repeat(actions: Seq<ActionView>) -> bool {
    exists|k: int| 0 <= k < actions.len() && (#[trigger] actions[k]).name == "repeat"@
}

/// A chain is made abstract in its repetitions where it stands for three
/// actions or more and holds a `repeat`.
pub open spec fn wants_abstract_repeat(chain: ChainView) -> bool {
    number_of_actions(chain.command.actions) >= 3 && has_repeat(chain.command.actions)
}

/// The chain with each `repeat` made one whose count is spoken; two words
/// fewer are dictated for it than for the chain.
pub open spec fn abstract_repeat(chain: ChainView) -> InstantiationView {
    let (actions, suffix, instances) = repeat_abstraction(chain.command.actions);
    InstantiationView {
        command_chain: chain_with(chain, chain.command.name + suffix, actions),
        concrete_command: chain,
        words_saved: clipped(chain_words(chain) - 2),
    }
}

/// Whether the chain is to be made abstract in its repetitions.
pub fn should_make_abstract_repeat_representation(command_chain: &CommandChain) -> (r: bool)
    ensures
        r == wants_abstract_repeat(command_chain@),
{
    let actions = command_chain.get_command().get_actions();
    if compute_number_of_actions(actions) < 3 {
        return false;
    }
    let ghost views = actions_view(actions@);
    let mut i: usize = 0;
    while i < actions.len()
        invariant
            i <= actions.len(),
            views == actions_view(actions@),
            views == command_chain@.command.actions,
            number_of_actions(views) >= 3,
            forall|k: int| 0 <= k < i ==> (#[trigger] views[k]).name != "repeat"@,
        decreases actions.len() - i,
    {
        if str_equal(actions[i].get_name(), "repeat") {
            assert(views[i as int].name == "repeat"@);
            return true;
        }
        i += 1;
    }
    false
}

/// Makes the chain abstract in its repetitions.
pub fn make_abstract_repeat_representation_for(command_chain: &CommandChain) -> (r:
    AbstractCommandInstantiation)
    ensures
        r@ == abstract_repeat(command_chain@),
{
    let actions = command_chain.get_command().get_actions();
    let ghost views = actions_view(actions@);
    let mut instances: i32 = 0;
    let mut new_actions: Vec<BasicAction> = Vec::new();
    let mut new_name = chars_of(command_chain.get_command().get_name());
    let ghost name = command_chain@.command.name;
    let mut i: usize = 0;
    assert(actions_view(new_actions@) =~= Seq::<ActionView>::empty());
    assert(name + Seq::<char>::empty() == name);
    while i < actions.len()
        invariant
            i <= actions.len(),
            views == actions_view(actions@),
            0 <= instances,
            repeat_abstraction(views.subrange(0, i as int)).0 == actions_view(new_actions@),
            new_name@ == name + repeat_abstraction(views.subrange(0, i as int)).1,
            repeat_abstraction(views.subrange(0, i as int)).2 == instances,
        decreases actions.len() - i,
    {
        assert(views.subrange(0, i + 1).drop_last() == views.subrange(0, i as int));
        assert(views.subrange(0, i + 1).last() == actions[i as int]@);
        let ghost before = actions_view(new_actions@);
        let ghost suffix = repeat_abstraction(views.subrange(0, i as int)).1;
        let action = &actions[i];
        if str_equal(action.get_name(), "repeat") {
            if instances < i32::MAX {
                instances += 1;
            }
            let mut capture = TalonCapture::new("number_small", instances);
            capture.set_postfix(" - 1");
            new_name.push(' ');
            let component = capture.component_chars();
            append_chars(&mut new_name, &component);
            proof {
                reveal_strlit(" ");
                assert(" "@ =~= seq![' ']);
                assert(new_name@ =~= name + (suffix + " "@ + component@));
            }
            let mut arguments: Vec<Argument> = Vec::new();
            arguments.push(Argument::CaptureArgument(capture));
            assert(arguments_view(arguments@) =~= seq![ArgumentView::Capture(capture@)]);
            let repeat_action = BasicAction::new("repeat", arguments);
            new_actions.push(repeat_action);
            assert(actions_view(new_actions@) =~= before.push(repeat_action@));
        } else {
            new_actions.push(action.clone());
            assert(actions_view(new_actions@) =~= before.push(action@));
        }
        i += 1;
    }
    assert(views.subrange(0, actions.len() as int) == views);
    let name_text = string_of(&new_name);
    let new_command = compute_command_chain_copy_with_new_name_and_actions(
        command_chain,
        name_text.as_str(),
        new_actions,
    );
    let words = compute_number_of_words(command_chain);
    AbstractCommandInstantiation {
        command_chain: new_command,
        concrete_command: command_chain.duplicate(),
        words_saved: words.saturating_sub(2),
    }
}

/// Each of the words from `from` up to `to` stands in the text, without
/// regard to case.
pub open spec fn words_occur(words: Seq<Seq<char>>, text: Seq<char>, from: int, to: int) -> bool {
    forall|k: int| from <= k < to ==> contains_text(lower(text), lower(#[trigger] words[k]))
}

/// The words from `from` up to `to`, with a space between one and the next.
pub open spec fn prose_of(words: Seq<Seq<char>>, from: int, to: int) -> Seq<char> {
    joined(words.subrange(from, to), " "@)
}

/// The `size` words from `start` on are dictated prose in the inserted
/// `text`: each stands in it, together they are found in it, with one
/// separator throughout and each word in a valid case.
pub open spec fn prose_match(words: Seq<Seq<char>>, text: Seq<char>, start: int, size: int) -> Option<
    AnalyzerView,
> {
    let found = analysed(text, prose_of(words, start, start + size));
    if words_occur(words, text, start, start + size) && found.location is Some && separators_agree(
        found.separation.separators,
        found.location->0.first_part,
        found.location->0.last_part,
    ) && valid_case(found) {
        Some(found)
    } else {
        None
    }
}

/// The phrase with `<user.text>` in place of the `size` words from `start`
/// on.
pub open spec fn prose_name(words: Seq<Seq<char>>, start: int, size: int) -> Seq<char> {
    joined(
        words.subrange(0, start).push("<user.text>"@) + words.subrange(
            start + size,
            words.len() as int,
        ),
        " "@,
    )
}

/// An `insert` of the text where there is any.
pub open spec fn insert_if_any(text: Seq<char>) -> Seq<ActionView> {
    if text.len() > 0 {
        seq![insert_view(text)]
    } else {
        Seq::empty()
    }
}

/// The action that inserts the spoken text, written as the match was.
pub open spec fn formatted_insert_view(found: AnalyzerView) -> ActionView {
    ActionView {
        name: "user.fire_chicken_auto_generated_command_action_insert_formatted_text"@,
        arguments: seq![
            ArgumentView::Capture(
                CaptureView { name: "user.text"@, instance: 1, postfix: Seq::empty() },
            ),
            ArgumentView::Text(case_string(found)),
            ArgumentView::Text(first_prose_separator(found)),
        ],
    }
}

/// The actions with the `insert` at `index` made three: an insert of what
/// stands before the prose, the insertion of the spoken text, and an insert
/// of what stands after it.
pub open spec fn prose_actions(actions: Seq<ActionView>, index: int, found: AnalyzerView) -> Seq<
    ActionView,
> {
    actions.subrange(0, index) + insert_if_any(text_before(found)) + seq![
        formatted_insert_view(found),
    ] + insert_if_any(text_after(found)) + actions.subrange(index + 1, actions.len() as int)
}

/// The chain made abstract in the prose found in its `insert` at `index`.
pub open spec fn abstract_prose(chain: ChainView, index: int, name: Seq<char>, found: AnalyzerView) -> InstantiationView {
    InstantiationView {
        command_chain: chain_with(chain, name, prose_actions(chain.command.actions, index, found)),
        concrete_command: chain,
        words_saved: clipped(clipped(words_of(name).len() as int) - 2),
    }
}

/// Prose found in an inserted text, and the phrase with the prose made a
/// capture.
pub struct ProseMatch {
    pub analyzer: TextSeparationAnalyzer,
    pub name: String,
}

/// An `insert` action of a chain: its text and its place among the actions.
pub struct InsertAction {
    pub text: String,
    pub index: usize,
}

/// The views of the words, in order.
pub open spec fn words_view(words: Seq<Vec<char>>) -> Seq<Seq<char>> {
    words.map_values(|w: Vec<char>| w@)
}

/// The phrase with `<user.text>` in place of the words from
/// `starting_index` on.
pub fn generate_prose_command_name(words: &Vec<Vec<char>>, starting_index: usize, prose_size: usize) -> (r:
    String)
    requires
        starting_index + prose_size <= words.len(),
    ensures
        r@ == prose_name(words_view(words@), starting_index as int, prose_size as int),
{
    let ghost all = words_view(words@);
    let mut parts: Vec<Vec<char>> = Vec::new();
    let mut i: usize = 0;
    while i < starting_index
        invariant
            i <= starting_index <= words.len(),
            all == words_view(words@),
            words_view(parts@) == all.subrange(0, i as int),
        decreases starting_index - i,
    {
        let ghost before = words_view(parts@);
        parts.push(words[i].clone());
        assert(words_view(parts@) =~= before.push(words[i as int]@));
        assert(all.subrange(0, i + 1) =~= all.subrange(0, i as int).push(all[i as int]));
        i += 1;
    }
    let ghost head = words_view(parts@);
    parts.push(chars_of("<user.text>"));
    assert(words_view(parts@) =~= head.push("<user.text>"@));
    let mut j: usize = starting_index + prose_size;
    let ghost first = head.push("<user.text>"@);
    assert(first + all.subrange(starting_index + prose_size, j as int) =~= first);
    while j < words.len()
        invariant
            starting_index + prose_size <= j <= words.len(),
            all == words_view(words@),
            words_view(parts@) == first + all.subrange(starting_index + prose_size, j as int),
        decreases words.len() - j,
    {
        let ghost before = words_view(parts@);
        parts.push(words[j].clone());
        assert(words_view(parts@) =~= before.push(words[j as int]@));
        assert(all.subrange(starting_index + prose_size, j + 1) =~= all.subrange(
            starting_index + prose_size,
            j as int,
        ).push(all[j as int]));
        j += 1;
    }
    let space = chars_of(" ");
    let count = parts.len();
    assert(words_view(parts@).subrange(0, count as int) == words_view(parts@));
    string_of(&join_chars(&parts, 0, count, &space))
}

/// The words from `starting_index` on, with a space between one and the
/// next.
pub fn generate_prose_from_words(words: &Vec<Vec<char>>, starting_index: usize, prose_size: usize) -> (r:
    String)
    requires
        starting_index + prose_size <= words.len(),
    ensures
        r@ == prose_of(words_view(words@), starting_index as int, starting_index + prose_size),
{
    let space = chars_of(" ");
    string_of(&join_chars(words, starting_index, starting_index + prose_size, &space))
}

/// The analyzer of the inserted text, after the prose was looked for in it.
pub fn compute_text_analyzer_for_prose_and_insert(prose: &str, insert: &InsertAction) -> (r:
    TextSeparationAnalyzer)
    ensures
        r@ == analysed(insert.text@, prose@),
        crate::text_separation::analyzer_fits(r@),
{
    let mut analyzer = TextSeparationAnalyzer::new_from_text(insert.text.as_str());
    analyzer.search_for_prose_in_separated_part(prose);
    analyzer
}

/// Looks for the `prose_size` words from `starting_index` on in the
/// inserted text.
pub fn find_prose_match_for_command_given_insert_at_interval(
    words: &Vec<Vec<char>>,
    insert: &InsertAction,
    starting_index: usize,
    prose_size: usize,
) -> (r: Option<ProseMatch>)
    requires
        starting_index + prose_size <= words.len(),
    ensures
        match r {
            Some(m) => prose_match(
                words_view(words@),
                insert.text@,
                starting_index as int,
                prose_size as int,
            ) == Some(m.analyzer@) && m.name@ == prose_name(
                words_view(words@),
                starting_index as int,
                prose_size as int,
            ) && crate::text_separation::analyzer_fits(m.analyzer@),
            None => prose_match(
                words_view(words@),
                insert.text@,
                starting_index as int,
                prose_size as int,
            ) is None,
        },
{
    let ghost all = words_view(words@);
    let insert_text = lowercase(&chars_of(insert.text.as_str()));
    let mut k: usize = starting_index;
    while k < starting_index + prose_size
        invariant
            starting_index <= k <= starting_index + prose_size <= words.len(),
            all == words_view(words@),
            insert_text@ == lower(insert.text@),
            words_occur(all, insert.text@, starting_index as int, k as int),
        decreases starting_index + prose_size - k,
    {
        if !has_text(&insert_text, &lowercase(&words[k])) {
            assert(!contains_text(lower(insert.text@), lower(all[k as int])));
            return None;
        }
        k += 1;
    }
    let prose = generate_prose_from_words(words, starting_index, prose_size);
    let analyzer = compute_text_analyzer_for_prose_and_insert(prose.as_str(), insert);
    if analyzer.has_found_prose() && analyzer.is_prose_separator_consistent() && has_valid_case(
        &analyzer,
    ) {
        let command_name = generate_prose_command_name(words, starting_index, prose_size);
        Some(ProseMatch { analyzer, name: command_name })
    } else {
        None
    }
}

/// Makes the chain abstract in the prose found in its `insert` at
/// `insert_to_modify_index`.
pub fn make_abstract_representation_for_prose_command(
    command_chain: &CommandChain,
    prose_match: &ProseMatch,
    insert_to_modify_index: usize,
) -> (r: AbstractCommandInstantiation)
    requires
        insert_to_modify_index < command_chain@.command.actions.len(),
        prose_match.analyzer@.location is Some,
    ensures
        r@ == abstract_prose(
            command_chain@,
            insert_to_modify_index as int,
            prose_match.name@,
            prose_match.analyzer@,
        ),
{
    let analyzer = &prose_match.analyzer;
    let actions = command_chain.get_command().get_actions();
    let ghost views = actions_view(actions@);
    let mut new_actions: Vec<BasicAction> = Vec::new();
    let mut i: usize = 0;
    assert(actions_view(new_actions@) =~= views.subrange(0, 0));
    while i < insert_to_modify_index
        invariant
            i <= insert_to_modify_index < actions.len(),
            views == actions_view(actions@),
            actions_view(new_actions@) == views.subrange(0, i as int),
        decreases insert_to_modify_index - i,
    {
        let ghost before = actions_view(new_actions@);
        new_actions.push(actions[i].clone());
        assert(actions_view(new_actions@) =~= before.push(actions[i as int]@));
        assert(views.subrange(0, i + 1) =~= views.subrange(0, i as int).push(views[i as int]));
        i += 1;
    }
    let ghost head = actions_view(new_actions@);
    let text_before_prose = analyzer.compute_text_before_prose();
    if text_before_prose.as_str().unicode_len() > 0 {
        new_actions.push(create_insert_action(text_before_prose.as_str()));
        assert(actions_view(new_actions@) =~= head + insert_if_any(text_before(analyzer@)));
    } else {
        assert(actions_view(new_actions@) =~= head + insert_if_any(text_before(analyzer@)));
    }
    let ghost with_before = actions_view(new_actions@);
    let mut arguments: Vec<Argument> = Vec::new();
    arguments.push(Argument::CaptureArgument(TalonCapture::new("user.text", 1)));
    arguments.push(Argument::StringArgument(compute_case_string_for_prose(analyzer)));
    arguments.push(Argument::StringArgument(analyzer.get_first_prose_separator()));
    assert(arguments_view(arguments@) =~= formatted_insert_view(analyzer@).arguments);
    let formatted = BasicAction::new(
        "user.fire_chicken_auto_generated_command_action_insert_formatted_text",
        arguments,
    );
    new_actions.push(formatted);
    assert(actions_view(new_actions@) =~= with_before + seq![formatted_insert_view(analyzer@)]);
    let ghost with_formatted = actions_view(new_actions@);
    let text_after_prose = analyzer.compute_text_after_prose();
    if text_after_prose.as_str().unicode_len() > 0 {
        new_actions.push(create_insert_action(text_after_prose.as_str()));
        assert(actions_view(new_actions@) =~= with_formatted + insert_if_any(text_after(analyzer@)));
    } else {
        assert(actions_view(new_actions@) =~= with_formatted + insert_if_any(text_after(analyzer@)));
    }
    let ghost with_after = actions_view(new_actions@);
    let mut j: usize = insert_to_modify_index + 1;
    assert(with_after + views.subrange(insert_to_modify_index + 1, j as int) =~= with_after);
    while j < actions.len()
        invariant
            insert_to_modify_index < j <= actions.len(),
            views == actions_view(actions@),
            actions_view(new_actions@) == with_after + views.subrange(
                insert_to_modify_index + 1,
                j as int,
            ),
        decreases actions.len() - j,
    {
        let ghost before = actions_view(new_actions@);
        new_actions.push(actions[j].clone());
        assert(actions_view(new_actions@) =~= before.push(actions[j as int]@));
        assert(views.subrange(insert_to_modify_index + 1, j + 1) =~= views.subrange(
            insert_to_modify_index + 1,
            j as int,
        ).push(views[j as int]));
        j += 1;
    }
    let new_command = compute_command_chain_copy_with_new_name_and_actions(
        command_chain,
        prose_match.name.as_str(),
        new_actions,
    );
    let words_saved = compute_number_of_words(&new_command).saturating_sub(2);
    AbstractCommandInstantiation {
        command_chain: new_command,
        concrete_command: command_chain.duplicate(),
        words_saved,
    }
}

/// Whether an abstract chain is worth a candidate: it has two actions or
/// more.
pub fn is_acceptable_abstract_representation(representation: &CommandChain) -> (r: bool)
    ensures
        r == (representation@.command.actions.len() > 1),
{
    let actions = representation.get_command().get_actions();
    assert(actions_view(actions@).len() == actions.len());
    actions.len() > 1
}

/// The first place at or after `from` of the candidate with the canonical
/// form `key`.
pub open spec fn table_index(table: Seq<CandidateView>, key: Seq<char>, from: int) -> Option<int>
    decreases table.len() - from,
{
    if from < 0 || from >= table.len() {
        None
    } else if canonical(table[from].statistics.actions) == key {
        Some(from)
    } else {
        table_index(table, key, from + 1)
    }
}

/// The concrete candidates after the chain was counted: it is offered to
/// the candidate with its actions, which joins the candidates where it is
/// new.
pub open spec fn concrete_counted(table: Seq<CandidateView>, chain: ChainView) -> Seq<
    CandidateView,
> {
    match table_index(table, canonical(chain.command.actions), 0) {
        Some(k) => table.update(k, offered(table[k], chain)),
        None => table.push(
            offered(
                CandidateView {
                    statistics: fresh_statistics(chain.command.actions),
                    last_end: None,
                },
                chain,
            ),
        ),
    }
}

/// The abstract candidates after the instance was counted.
pub open spec fn abstract_counted(table: Seq<CandidateView>, instance: InstantiationView) -> Seq<
    CandidateView,
> {
    match table_index(table, canonical(instance.command_chain.command.actions), 0) {
        Some(k) => table.update(k, instantiated(table[k], instance)),
        None => table.push(
            instantiated(fresh_abstract(instance.command_chain.command.actions), instance),
        ),
    }
}

/// The largest number of words, from `start` on, that is looked for as
/// prose.
pub open spec fn prose_size_limit(words: Seq<Seq<char>>, start: int) -> int {
    if words.len() - start < 10 {
        words.len() - start
    } else {
        10
    }
}

/// The abstract candidates after the phrases of `size` words and more from
/// `start` on were looked for in the `insert` at `index`: every size up to
/// the limit is tried in turn.
pub open spec fn prose_sizes_counted(
    table: Seq<CandidateView>,
    chain: ChainView,
    index: int,
    start: int,
    size: int,
) -> Seq<CandidateView>
    decreases prose_size_limit(words_of(chain.command.name), start) - size + 1,
{
    let words = words_of(chain.command.name);
    if size < 1 || size > prose_size_limit(words, start) {
        table
    } else {
        match prose_match(words, insert_text_view(chain.command.actions[index]), start, size) {
            None => prose_sizes_counted(table, chain, index, start, size + 1),
            Some(found) => {
                let instance = abstract_prose(chain, index, prose_name(words, start, size), found);
                let counted = if instance.command_chain.command.actions.len() > 1 {
                    abstract_counted(table, instance)
                } else {
                    table
                };
                prose_sizes_counted(counted, chain, index, start, size + 1)
            },
        }
    }
}

/// The abstract candidates after prose was looked for in the `insert` at
/// `index`, for the phrases that begin at the word `start` or later.
pub open spec fn prose_starts_counted(
    table: Seq<CandidateView>,
    chain: ChainView,
    index: int,
    start: int,
) -> Seq<CandidateView>
    decreases words_of(chain.command.name).len() - start,
{
    if start < 0 || start >= words_of(chain.command.name).len() {
        table
    } else {
        prose_starts_counted(
            prose_sizes_counted(table, chain, index, start, 1),
            chain,
            index,
            start + 1,
        )
    }
}

/// The abstract candidates after prose was looked for in each `insert` of
/// the chain from the action `index` on.
pub open spec fn prose_inserts_counted(table: Seq<CandidateView>, chain: ChainView, index: int) -> Seq<
    CandidateView,
>
    decreases chain.command.actions.len() - index,
{
    if index < 0 || index >= chain.command.actions.len() {
        table
    } else if is_insert_view(chain.command.actions[index]) {
        prose_inserts_counted(prose_starts_counted(table, chain, index, 0), chain, index + 1)
    } else {
        prose_inserts_counted(table, chain, index + 1)
    }
}

/// The candidates: the concrete ones and the abstract ones, each in the
/// order in which they were met first.
pub struct TablesView {
    pub concrete: Seq<CandidateView>,
    pub abstracts: Seq<CandidateView>,
}

/// The candidates after a chain was counted: the chain is simplified and
/// counted as a concrete candidate, as an abstract one for the prose in
/// each of its inserts, and as one for its repetitions.
pub open spec fn chain_counted(tables: TablesView, chain: ChainView) -> TablesView {
    let simple = simplified_chain(chain);
    let with_prose = prose_inserts_counted(tables.abstracts, simple, 0);
    TablesView {
        concrete: concrete_counted(tables.concrete, simple),
        abstracts: if wants_abstract_repeat(simple) {
            abstract_counted(with_prose, abstract_repeat(simple))
        } else {
            with_prose
        },
    }
}

/// A chain that began at `start` does not reach the entry at `at`: the
/// entry starts a recording, or it is a later command that came more than
/// five minutes after the one before it.
pub open spec fn stops_chain(record: Seq<EntryView>, start: int, at: int) -> bool {
    match record[at] {
        EntryView::RecordingStart => true,
        EntryView::Command(command) => match command.seconds {
            Some(seconds) => at > start && seconds > 300,
            None => false,
        },
    }
}

/// The chain that spans no command yet.
pub open spec fn empty_chain(start: int) -> ChainView {
    ChainView {
        command: crate::actions::CommandView {
            name: Seq::empty(),
            actions: Seq::empty(),
            seconds: None,
        },
        start,
        size: 0,
    }
}

/// The chain made one command longer.
pub open spec fn chain_grown(chain: ChainView, entry: EntryView) -> ChainView {
    match entry {
        EntryView::Command(command) => ChainView {
            command: crate::actions::CommandView {
                name: chain_name(chain, command.name),
                actions: chain.command.actions + command.actions,
                seconds: chain.command.seconds,
            },
            start: chain.start,
            size: chain.size + 1,
        },
        EntryView::RecordingStart => chain,
    }
}

/// The candidates after the chains were counted that begin at `start` and
/// end at `at` or later; `chain` spans the commands before `at`.
pub open spec fn chains_counted(
    tables: TablesView,
    record: Seq<EntryView>,
    max_chain_size: int,
    start: int,
    at: int,
    chain: ChainView,
) -> TablesView
    decreases record.len() - at,
{
    if at < 0 || at >= record.len() || at >= start + max_chain_size || stops_chain(
        record,
        start,
        at,
    ) {
        tables
    } else {
        let grown = chain_grown(chain, record[at]);
        chains_counted(chain_counted(tables, grown), record, max_chain_size, start, at + 1, grown)
    }
}

/// The candidates after the chains were counted that begin at `start` or
/// later.
pub open spec fn starts_counted(
    tables: TablesView,
    record: Seq<EntryView>,
    max_chain_size: int,
    start: int,
) -> TablesView
    decreases record.len() - start,
{
    if start < 0 || start >= record.len() {
        tables
    } else {
        starts_counted(
            chains_counted(tables, record, max_chain_size, start, start, empty_chain(start)),
            record,
            max_chain_size,
            start + 1,
        )
    }
}

/// The candidates of a record: every chain of at most `max_chain_size`
/// commands is counted, by its start and then by its length.
pub open spec fn record_candidates(record: Seq<EntryView>, max_chain_size: int) -> TablesView {
    starts_counted(
        TablesView { concrete: Seq::empty(), abstracts: Seq::empty() },
        record,
        max_chain_size,
        0,
    )
}

/// A concrete candidate is kept: it saves words, was used more than once,
/// and either stands for fewer than two actions per word dictated on
/// average, or for more actions, times the square root of its uses, than
/// words were dictated on average.
pub open spec fn concrete_kept(s: StatisticsView) -> bool {
    &&& s.number_of_words_saved > 0
    &&& s.number_of_times_used > 1
    &&& (s.number_of_actions * s.number_of_times_used < 2 * s.total_number_of_words_dictated
        || s.number_of_actions * s.number_of_actions * (s.number_of_times_used
        * s.number_of_times_used * s.number_of_times_used) > s.total_number_of_words_dictated
        * s.total_number_of_words_dictated)
}

/// An abstract candidate is kept: two words or more were dictated for it on
/// average, it stood for more than two concrete action sequences, it saves
/// a word at least, and it would be kept as a concrete candidate.
pub open spec fn abstract_kept(s: StatisticsView) -> bool {
    &&& s.total_number_of_words_dictated >= 2 * s.number_of_times_used
    &&& s.instantiation_set is Some
    &&& s.instantiation_set->0.len() > 2
    &&& s.number_of_words_saved >= 1
    &&& concrete_kept(s)
}

/// The statistics of a concrete candidate with the words that it would have
/// saved.
pub open spec fn with_words_saved(s: StatisticsView) -> StatisticsView {
    StatisticsView { number_of_words_saved: concrete_words_saved(s), ..s }
}

/// The statistics of the concrete candidates that are kept, in order.
pub open spec fn kept_concrete(table: Seq<CandidateView>) -> Seq<StatisticsView>
    decreases table.len(),
{
    if table.len() == 0 {
        Seq::empty()
    } else if concrete_kept(with_words_saved(table.last().statistics)) {
        kept_concrete(table.drop_last()).push(with_words_saved(table.last().statistics))
    } else {
        kept_concrete(table.drop_last())
    }
}

/// The statistics of the abstract candidates that are kept, in order.
pub open spec fn kept_abstract(table: Seq<CandidateView>) -> Seq<StatisticsView>
    decreases table.len(),
{
    if table.len() == 0 {
        Seq::empty()
    } else if abstract_kept(table.last().statistics) {
        kept_abstract(table.drop_last()).push(table.last().statistics)
    } else {
        kept_abstract(table.drop_last())
    }
}

/// The recommendations of a record: the concrete candidates that are kept,
/// and after them the abstract ones.
pub open spec fn record_recommendations(record: Seq<EntryView>, max_chain_size: int) -> Seq<
    StatisticsView,
> {
    let tables = record_candidates(record, max_chain_size);
    kept_concrete(tables.concrete) + kept_abstract(tables.abstracts)
}

/// The views of the statistics, in order.
pub open spec fn statistics_view(items: Seq<CommandStatistics>) -> Seq<StatisticsView> {
    items.map_values(|s: CommandStatistics| s@)
}

/// The largest number of words, from `start` on, that is looked for as
/// prose where no more than `max_prose_size` words are.
pub open spec fn prose_size_limit_of(words: Seq<Seq<char>>, start: int, max_prose_size: int) -> int {
    if words.len() - start < max_prose_size {
        words.len() - start
    } else {
        max_prose_size
    }
}

/// The abstract chains that the phrases of `size` words and more from
/// `start` on give in the `insert` at `index`: every size up to the limit
/// is tried in turn, and a chain of a single action is left out.
pub open spec fn prose_instances_from_size(
    chain: ChainView,
    index: int,
    start: int,
    size: int,
    max_prose_size: int,
) -> Seq<InstantiationView>
    decreases prose_size_limit_of(words_of(chain.command.name), start, max_prose_size) - size + 1,
{
    let words = words_of(chain.command.name);
    if size < 1 || size > prose_size_limit_of(words, start, max_prose_size) {
        Seq::empty()
    } else {
        match prose_match(words, insert_text_view(chain.command.actions[index]), start, size) {
            None => prose_instances_from_size(chain, index, start, size + 1, max_prose_size),
            Some(found) => {
                let instance = abstract_prose(chain, index, prose_name(words, start, size), found);
                (if instance.command_chain.command.actions.len() > 1 {
                    seq![instance]
                } else {
                    Seq::empty()
                }) + prose_instances_from_size(chain, index, start, size + 1, max_prose_size)
            },
        }
    }
}

/// The abstract chains that the phrases give that begin at the word
/// `start` or later.
pub open spec fn prose_instances_from_start(
    chain: ChainView,
    index: int,
    start: int,
    max_prose_size: int,
) -> Seq<InstantiationView>
    decreases words_of(chain.command.name).len() - start,
{
    if start < 0 || start >= words_of(chain.command.name).len() {
        Seq::empty()
    } else {
        prose_instances_from_size(chain, index, start, 1, max_prose_size)
            + prose_instances_from_start(chain, index, start + 1, max_prose_size)
    }
}

/// The abstract chains that the prose in the inserts of the chain gives,
/// from the action `index` on.
pub open spec fn prose_instances_from_action(chain: ChainView, index: int, max_prose_size: int) -> Seq<
    InstantiationView,
>
    decreases chain.command.actions.len() - index,
{
    if index < 0 || index >= chain.command.actions.len() {
        Seq::empty()
    } else if is_insert_view(chain.command.actions[index]) {
        prose_instances_from_start(chain, index, 0, max_prose_size) + prose_instances_from_action(
            chain,
            index + 1,
            max_prose_size,
        )
    } else {
        prose_instances_from_action(chain, index + 1, max_prose_size)
    }
}

/// The abstract chains of a chain: those that the prose in its inserts
/// gives, and the one that its repetitions give.
pub open spec fn abstract_instances(chain: ChainView) -> Seq<InstantiationView> {
    prose_instances_from_action(chain, 0, 10) + (if wants_abstract_repeat(chain) {
        seq![abstract_repeat(chain)]
    } else {
        Seq::empty()
    })
}

/// The views of abstract chains, in order.
pub open spec fn instances_view(instances: Seq<AbstractCommandInstantiation>) -> Seq<
    InstantiationView,
> {
    instances.map_values(|i: AbstractCommandInstantiation| i@)
}

/// Every abstract chain lies where the chain lies.
pub open spec fn lie_with(instances: Seq<InstantiationView>, chain: ChainView) -> bool {
    forall|k: int|
        0 <= k < instances.len() ==> (#[trigger] instances[k]).command_chain.start == chain.start
            && instances[k].command_chain.size == chain.size
}

/// The `insert` actions of the chain, in order.
pub fn obtain_inserts_from_command_chain(command_chain: &CommandChain) -> (r: Vec<InsertAction>)
    ensures
        forall|k: int|
            0 <= k < r.len() ==> (#[trigger] r[k]).index < command_chain@.command.actions.len()
                && is_insert_view(command_chain@.command.actions[r[k].index as int]) && r[k].text@
                == insert_text_view(command_chain@.command.actions[r[k].index as int]),
        forall|i: int, j: int| 0 <= i < j < r.len() ==> r[i].index < r[j].index,
        forall|i: int|
            0 <= i < command_chain@.command.actions.len() && is_insert_view(
                command_chain@.command.actions[i],
            ) ==> exists|k: int| 0 <= k < r.len() && (#[trigger] r[k]).index == i,
{
    let actions = command_chain.get_command().get_actions();
    let ghost views = actions_view(actions@);
    assert(views.len() == actions.len());
    let mut inserts: Vec<InsertAction> = Vec::new();
    let mut index: usize = 0;
    while index < actions.len()
        invariant
            index <= actions.len(),
            views == actions_view(actions@),
            views == command_chain@.command.actions,
            forall|k: int|
                0 <= k < inserts.len() ==> (#[trigger] inserts[k]).index < index && is_insert_view(
                    views[inserts[k].index as int],
                ) && inserts[k].text@ == insert_text_view(views[inserts[k].index as int]),
            forall|i: int, j: int| 0 <= i < j < inserts.len() ==> inserts[i].index < inserts[j].index,
            forall|i: int|
                0 <= i < index && is_insert_view(views[i]) ==> exists|k: int|
                    0 <= k < inserts.len() && (#[trigger] inserts[k]).index == i,
        decreases actions.len() - index,
    {
        assert(views[index as int] == actions[index as int]@);
        if is_insert(&actions[index]) {
            let ghost before = inserts@;
            inserts.push(InsertAction { text: get_insert_text(&actions[index]).clone(), index });
            assert forall|i: int| 0 <= i < index + 1 && is_insert_view(views[i]) implies exists|
                k: int,
            | 0 <= k < inserts.len() && (#[trigger] inserts[k]).index == i by {
                if i < index {
                    let k = choose|k: int| 0 <= k < before.len() && (#[trigger] before[k]).index == i;
                    assert(inserts[k].index == i);
                } else {
                    assert(inserts[before.len() as int].index == i);
                }
            }
        }
        index += 1;
    }
    inserts
}

/// The abstract chains that the prose in one `insert` of the chain gives.
fn make_abstract_prose_representations_for_command_given_insert(
    command_chain: &CommandChain,
    insert: &InsertAction,
    max_prose_size_to_consider: usize,
) -> (r: Vec<AbstractCommandInstantiation>)
    requires
        insert.index < command_chain@.command.actions.len(),
        is_insert_view(command_chain@.command.actions[insert.index as int]),
        insert.text@ == insert_text_view(command_chain@.command.actions[insert.index as int]),
    ensures
        instances_view(r@) == prose_instances_from_start(
            command_chain@,
            insert.index as int,
            0,
            max_prose_size_to_consider as int,
        ),
        lie_with(instances_view(r@), command_chain@),
{
    let ghost chain = command_chain@;
    let ghost index = insert.index as int;
    let ghost max = max_prose_size_to_consider as int;
    let ghost goal = prose_instances_from_start(chain, index, 0, max);
    let words = split_words(&chars_of(command_chain.get_command().get_name()));
    let ghost all = words_of(chain.command.name);
    assert(words_view(words@).len() == words.len());
    let mut out: Vec<AbstractCommandInstantiation> = Vec::new();
    let mut starting_index: usize = 0;
    assert(instances_view(out@) =~= Seq::<InstantiationView>::empty());
    assert(instances_view(out@) + goal =~= goal);
    while starting_index < words.len()
        invariant
            starting_index <= words.len(),
            chain == command_chain@,
            index == insert.index as int,
            max == max_prose_size_to_consider as int,
            index < chain.command.actions.len(),
            insert.text@ == insert_text_view(chain.command.actions[index]),
            all == words_of(chain.command.name),
            all == words_view(words@),
            goal == instances_view(out@) + prose_instances_from_start(
                chain,
                index,
                starting_index as int,
                max,
            ),
            lie_with(instances_view(out@), chain),
        decreases words.len() - starting_index,
    {
        let remaining = words.len() - starting_index;
        let maximum_size: usize = if remaining < max_prose_size_to_consider {
            remaining
        } else {
            max_prose_size_to_consider
        };
        let ghost begun = instances_view(out@);
        let ghost rest = prose_instances_from_start(chain, index, starting_index + 1, max);
        let ghost sizes_goal = prose_instances_from_size(chain, index, starting_index as int, 1, max);
        assert(goal =~= begun + sizes_goal + rest);
        let mut prose_size: usize = 1;
        while prose_size <= maximum_size
            invariant_except_break
                begun + sizes_goal == instances_view(out@) + prose_instances_from_size(
                    chain,
                    index,
                    starting_index as int,
                    prose_size as int,
                    max,
                ),
            invariant
                1 <= prose_size <= maximum_size + 1,
                starting_index < words.len(),
                maximum_size == prose_size_limit_of(all, starting_index as int, max),
                chain == command_chain@,
                index == insert.index as int,
                max == max_prose_size_to_consider as int,
                index < chain.command.actions.len(),
                insert.text@ == insert_text_view(chain.command.actions[index]),
                all == words_of(chain.command.name),
                all == words_view(words@),
                lie_with(instances_view(out@), chain),
            ensures
                begun + sizes_goal == instances_view(out@),
            decreases maximum_size - prose_size + 1,
        {
            let ghost before = instances_view(out@);
            let ghost later = prose_instances_from_size(
                chain,
                index,
                starting_index as int,
                prose_size + 1,
                max,
            );
            match find_prose_match_for_command_given_insert_at_interval(
                &words,
                insert,
                starting_index,
                prose_size,
            ) {
                Some(match_found) => {
                    let abstract_representation = make_abstract_representation_for_prose_command(
                        command_chain,
                        &match_found,
                        insert.index,
                    );
                    if is_acceptable_abstract_representation(
                        &abstract_representation.command_chain,
                    ) {
                        out.push(abstract_representation);
                        assert(instances_view(out@) =~= before.push(abstract_representation@));
                        assert(before + (seq![abstract_representation@] + later) =~= before.push(
                            abstract_representation@,
                        ) + later);
                        assert forall|k: int| 0 <= k < instances_view(out@).len() implies (
                        #[trigger] instances_view(out@)[k]).command_chain.start == chain.start
                            && instances_view(out@)[k].command_chain.size == chain.size by {
                            if k < before.len() {
                                assert(instances_view(out@)[k] == before[k]);
                            }
                        }
                    } else {
                        assert(before + (Seq::<InstantiationView>::empty() + later) =~= before
                            + later);
                    }
                },
                None => {},
            }
            if prose_size == maximum_size {
                assert(later =~= Seq::<InstantiationView>::empty());
                assert(instances_view(out@) + later =~= instances_view(out@));
                break;
            }
            prose_size += 1;
        }
        proof {
            if maximum_size == 0 {
                assert(sizes_goal =~= Seq::<InstantiationView>::empty());
                assert(begun + sizes_goal =~= begun);
            }
        }
        starting_index += 1;
    }
    assert(instances_view(out@) + Seq::<InstantiationView>::empty() =~= instances_view(out@));
    out
}

/// The abstract chains that the prose in the inserts of the chain gives,
/// where phrases of no more than `max_prose_size_to_consider` words are
/// looked for.
pub fn make_abstract_prose_representations_for_command(
    command_chain: &CommandChain,
    max_prose_size_to_consider: usize,
) -> (r: Vec<AbstractCommandInstantiation>)
    ensures
        instances_view(r@) == prose_instances_from_action(
            command_chain@,
            0,
            max_prose_size_to_consider as int,
        ),
        lie_with(instances_view(r@), command_chain@),
{
    let ghost chain = command_chain@;
    let ghost max = max_prose_size_to_consider as int;
    let ghost goal = prose_instances_from_action(chain, 0, max);
    let actions = command_chain.get_command().get_actions();
    assert(actions_view(actions@).len() == actions.len());
    let mut out: Vec<AbstractCommandInstantiation> = Vec::new();
    let mut index: usize = 0;
    assert(instances_view(out@) + goal =~= goal);
    assert(instances_view(out@) =~= Seq::<InstantiationView>::empty());
    while index < actions.len()
        invariant
            index <= actions.len(),
            chain == command_chain@,
            max == max_prose_size_to_consider as int,
            actions_view(actions@) == chain.command.actions,
            goal == instances_view(out@) + prose_instances_from_action(chain, index as int, max),
            lie_with(instances_view(out@), chain),
        decreases actions.len() - index,
    {
        assert(actions_view(actions@)[index as int] == actions[index as int]@);
        if is_insert(&actions[index]) {
            let insert = InsertAction { text: get_insert_text(&actions[index]).clone(), index };
            let mut found = make_abstract_prose_representations_for_command_given_insert(
                command_chain,
                &insert,
                max_prose_size_to_consider,
            );
            let ghost before = instances_view(out@);
            let ghost added = instances_view(found@);
            out.append(&mut found);
            assert(instances_view(out@) =~= before + added);
            assert(before + (added + prose_instances_from_action(chain, index + 1, max)) =~= (
            before + added) + prose_instances_from_action(chain, index + 1, max));
            assert forall|k: int| 0 <= k < instances_view(out@).len() implies (
            #[trigger] instances_view(out@)[k]).command_chain.start == chain.start
                && instances_view(out@)[k].command_chain.size == chain.size by {
                if k < before.len() {
                    assert(instances_view(out@)[k] == before[k]);
                } else {
                    assert(instances_view(out@)[k] == added[k - before.len()]);
                }
            }
        }
        index += 1;
    }
    assert(instances_view(out@) + Seq::<InstantiationView>::empty() =~= instances_view(out@));
    out
}

/// The abstract chains of a chain: those that the prose in its inserts
/// gives, and the one that its repetitions give.
pub fn create_abstract_commands(command_chain: &CommandChain) -> (r: Vec<
    AbstractCommandInstantiation,
>)
    ensures
        instances_view(r@) == abstract_instances(command_chain@),
        lie_with(instances_view(r@), command_chain@),
{
    let mut commands = make_abstract_prose_representations_for_command(
        command_chain,
        DEFAULT_MAX_PROSE_SIZE_TO_CONSIDER,
    );
    let ghost before = instances_view(commands@);
    if should_make_abstract_repeat_representation(command_chain) {
        let abstract_repeat_representation = make_abstract_repeat_representation_for(command_chain);
        commands.push(abstract_repeat_representation);
        assert(instances_view(commands@) =~= before + seq![abstract_repeat(command_chain@)]);
        assert forall|k: int| 0 <= k < instances_view(commands@).len() implies (
        #[trigger] instances_view(commands@)[k]).command_chain.start == command_chain@.start
            && instances_view(commands@)[k].command_chain.size == command_chain@.size by {
            if k < before.len() {
                assert(instances_view(commands@)[k] == before[k]);
            }
        }
    } else {
        assert(instances_view(commands@) =~= before + Seq::<InstantiationView>::empty());
    }
    commands
}

/// The abstract candidates after the first `n` abstract chains were
/// counted.
pub open spec fn instances_counted(
    table: Seq<CandidateView>,
    instances: Seq<InstantiationView>,
    n: int,
) -> Seq<CandidateView>
    decreases n,
{
    if n <= 0 {
        table
    } else {
        abstract_counted(instances_counted(table, instances, n - 1), instances[n - 1])
    }
}

/// Counts the abstract chains of a chain for their candidates.
pub fn handle_needed_abstract_commands(
    abstract_commands: &mut AbstractCommands,
    command_chain: &CommandChain,
)
    requires
        old(abstract_commands).wf(),
        chain_is_placed(command_chain@),
    ensures
        final(abstract_commands).wf(),
        final(abstract_commands)@ == instances_counted(
            old(abstract_commands)@,
            abstract_instances(command_chain@),
            abstract_instances(command_chain@).len() as int,
        ),
{
    let mut abstractions = create_abstract_commands(command_chain);
    let ghost all = instances_view(abstractions@);
    let ghost begun = abstract_commands@;
    let total = abstractions.len();
    assert(all.len() == total);
    // The chains are taken from the end, so they are met in turned order
    // and turned back.
    let mut turned: Vec<AbstractCommandInstantiation> = Vec::new();
    while abstractions.len() > 0
        invariant
            abstractions.len() + turned.len() == total,
            all.len() == total,
            instances_view(abstractions@) == all.subrange(0, abstractions.len() as int),
            forall|k: int|
                0 <= k < turned.len() ==> (#[trigger] turned[k])@ == all[total - 1 - k],
        decreases abstractions.len(),
    {
        let ghost before = instances_view(abstractions@);
        let last = abstractions.pop().unwrap();
        assert(last@ == before[before.len() - 1]);
        assert(instances_view(abstractions@) =~= all.subrange(0, abstractions.len() as int));
        turned.push(last);
    }
    let mut done: usize = 0;
    while turned.len() > 0
        invariant
            done + turned.len() == total,
            all.len() == total,
            all == abstract_instances(command_chain@),
            lie_with(all, command_chain@),
            chain_is_placed(command_chain@),
            forall|k: int|
                0 <= k < turned.len() ==> (#[trigger] turned[k])@ == all[total - 1 - k],
            abstract_commands.wf(),
            abstract_commands@ == instances_counted(begun, all, done as int),
        decreases turned.len(),
    {
        let next = turned.pop().unwrap();
        assert(next@ == all[done as int]);
        assert(all[done as int].command_chain.start == command_chain@.start);
        process_abstract_command_usage(abstract_commands, next);
        done += 1;
    }
}

/// The views of concrete candidates, in order.
pub open spec fn concrete_view(entries: Seq<PotentialCommandInformation>) -> Seq<CandidateView> {
    entries.map_values(|e: PotentialCommandInformation| e@)
}

/// The views of abstract candidates, in order.
pub open spec fn abstract_view(entries: Seq<PotentialAbstractCommandInformation>) -> Seq<
    CandidateView,
> {
    entries.map_values(|e: PotentialAbstractCommandInformation| e@)
}

/// Each key is the canonical form of the candidate at its place.
pub open spec fn keys_match(keys: Seq<String>, table: Seq<CandidateView>) -> bool {
    &&& keys.len() == table.len()
    &&& forall|k: int|
        0 <= k < keys.len() ==> (#[trigger] keys[k])@ == canonical(table[k].statistics.actions)
}

/// The place of `key` among the keys, if it is there.
fn find_key(keys: &Vec<String>, key: &str, Ghost(table): Ghost<Seq<CandidateView>>) -> (r: Option<
    usize,
>)
    requires
        keys_match(keys@, table),
    ensures
        match r {
            Some(k) => table_index(table, key@, 0) == Some(k as int) && k < keys.len(),
            None => table_index(table, key@, 0) is None,
        },
{
    let mut k: usize = 0;
    while k < keys.len()
        invariant
            k <= keys.len(),
            keys_match(keys@, table),
            table_index(table, key@, 0) == table_index(table, key@, k as int),
        decreases keys.len() - k,
    {
        if str_equal(keys[k].as_str(), key) {
            return Some(k);
        }
        k += 1;
    }
    None
}

/// The concrete candidates that were met, by their canonical forms.
pub struct ConcreteCommands {
    keys: Vec<String>,
    entries: Vec<PotentialCommandInformation>,
}

impl View for ConcreteCommands {
    type V = Seq<CandidateView>;

    closed spec fn view(&self) -> Seq<CandidateView> {
        concrete_view(self.entries@)
    }
}

/// The abstract candidates that were met, by their canonical forms.
pub struct AbstractCommands {
    keys: Vec<String>,
    entries: Vec<PotentialAbstractCommandInformation>,
}

impl View for AbstractCommands {
    type V = Seq<CandidateView>;

    closed spec fn view(&self) -> Seq<CandidateView> {
        abstract_view(self.entries@)
    }
}

impl ConcreteCommands {
    /// The keys are those of the candidates.
    pub closed spec fn wf(&self) -> bool {
        keys_match(self.keys@, self@)
    }

    /// The candidates, in the order in which they were met first.
    pub fn get_candidates(&self) -> (r: &Vec<PotentialCommandInformation>)
        ensures
            concrete_view(r@) == self@,
    {
        &self.entries
    }

    /// No candidate.
    pub fn new() -> (r: Self)
        ensures
            r.wf(),
            r@ == Seq::<CandidateView>::empty(),
    {
        let r = ConcreteCommands { keys: Vec::new(), entries: Vec::new() };
        assert(r@ =~= Seq::<CandidateView>::empty());
        r
    }
}

impl AbstractCommands {
    /// The keys are those of the candidates.
    pub closed spec fn wf(&self) -> bool {
        keys_match(self.keys@, self@)
    }

    /// The candidates, in the order in which they were met first.
    pub fn get_candidates(&self) -> (r: &Vec<PotentialAbstractCommandInformation>)
        ensures
            abstract_view(r@) == self@,
    {
        &self.entries
    }

    /// No candidate.
    pub fn new() -> (r: Self)
        ensures
            r.wf(),
            r@ == Seq::<CandidateView>::empty(),
    {
        let r = AbstractCommands { keys: Vec::new(), entries: Vec::new() };
        assert(r@ =~= Seq::<CandidateView>::empty());
        r
    }
}

/// The canonical form of the chain's actions.
pub fn compute_string_representation_of_chain_actions(command_chain: &CommandChain) -> (r: String)
    ensures
        r@ == canonical(command_chain@.command.actions),
{
    compute_string_representation_of_actions(command_chain.get_command().get_actions())
}

/// Counts the instance for its abstract candidate.
pub fn process_abstract_command_usage(
    abstract_commands: &mut AbstractCommands,
    instantiation: AbstractCommandInstantiation,
)
    requires
        old(abstract_commands).wf(),
        chain_is_placed(instantiation@.command_chain),
    ensures
        final(abstract_commands).wf(),
        final(abstract_commands)@ == abstract_counted(old(abstract_commands)@, instantiation@),
{
    let representation = compute_string_representation_of_chain_actions(
        &instantiation.command_chain,
    );
    let ghost before = abstract_commands@;
    match find_key(&abstract_commands.keys, representation.as_str(), Ghost(before)) {
        Some(k) => {
            abstract_commands.entries[k].process_usage(instantiation);
            assert(abstract_commands@ =~= before.update(
                k as int,
                instantiated(before[k as int], instantiation@),
            ));
        },
        None => {
            let info = PotentialAbstractCommandInformation::new(instantiation);
            abstract_commands.keys.push(representation);
            abstract_commands.entries.push(info);
            assert(abstract_commands@ =~= before.push(info@));
        },
    }
}

/// Counts the chain for its concrete candidate.
pub fn process_concrete_command_usage(
    concrete_commands: &mut ConcreteCommands,
    command_chain: &CommandChain,
)
    requires
        old(concrete_commands).wf(),
        chain_is_placed(command_chain@),
    ensures
        final(concrete_commands).wf(),
        final(concrete_commands)@ == concrete_counted(old(concrete_commands)@, command_chain@),
{
    let representation = compute_string_representation_of_chain_actions(command_chain);
    let ghost before = concrete_commands@;
    match find_key(&concrete_commands.keys, representation.as_str(), Ghost(before)) {
        Some(k) => {
            concrete_commands.entries[k].process_usage(command_chain);
            assert(concrete_commands@ =~= before.update(
                k as int,
                offered(before[k as int], command_chain@),
            ));
        },
        None => {
            let mut info = PotentialCommandInformation::new(
                clone_actions(command_chain.get_command().get_actions()),
            );
            info.process_usage(command_chain);
            concrete_commands.keys.push(representation);
            concrete_commands.entries.push(info);
            assert(concrete_commands@ =~= before.push(info@));
        },
    }
}

/// Looks for prose in one `insert` of the chain and counts the abstract
/// candidates that it gives.
pub fn process_insert_action(
    simplified_command_chain: &CommandChain,
    insert: &InsertAction,
    abstract_commands: &mut AbstractCommands,
)
    requires
        old(abstract_commands).wf(),
        chain_is_placed(simplified_command_chain@),
        insert.index < simplified_command_chain@.command.actions.len(),
        is_insert_view(simplified_command_chain@.command.actions[insert.index as int]),
        insert.text@ == insert_text_view(
            simplified_command_chain@.command.actions[insert.index as int],
        ),
    ensures
        final(abstract_commands).wf(),
        final(abstract_commands)@ == prose_starts_counted(
            old(abstract_commands)@,
            simplified_command_chain@,
            insert.index as int,
            0,
        ),
{
    let ghost chain = simplified_command_chain@;
    let ghost index = insert.index as int;
    let ghost goal = prose_starts_counted(abstract_commands@, chain, index, 0);
    let words = split_words(&chars_of(simplified_command_chain.get_command().get_name()));
    let ghost all = words_of(chain.command.name);
    assert(words_view(words@).len() == words.len());
    let mut starting_index: usize = 0;
    while starting_index < words.len()
        invariant
            starting_index <= words.len(),
            abstract_commands.wf(),
            chain == simplified_command_chain@,
            chain_is_placed(chain),
            index == insert.index as int,
            index < chain.command.actions.len(),
            insert.text@ == insert_text_view(chain.command.actions[index]),
            all == words_of(chain.command.name),
            all == words_view(words@),
            goal == prose_starts_counted(abstract_commands@, chain, index, starting_index as int),
        decreases words.len() - starting_index,
    {
        let remaining = words.len() - starting_index;
        let maximum_size: usize = if remaining < DEFAULT_MAX_PROSE_SIZE_TO_CONSIDER {
            remaining
        } else {
            DEFAULT_MAX_PROSE_SIZE_TO_CONSIDER
        };
        let ghost start_table = abstract_commands@;
        let mut prose_size: usize = 1;
        while prose_size <= maximum_size
            invariant_except_break
                prose_sizes_counted(start_table, chain, index, starting_index as int, 1)
                    == prose_sizes_counted(
                    abstract_commands@,
                    chain,
                    index,
                    starting_index as int,
                    prose_size as int,
                ),
            invariant
                1 <= prose_size <= maximum_size + 1,
                starting_index < words.len(),
                maximum_size == prose_size_limit(all, starting_index as int),
                maximum_size <= 10,
                abstract_commands.wf(),
                chain == simplified_command_chain@,
                chain_is_placed(chain),
                index == insert.index as int,
                index < chain.command.actions.len(),
                insert.text@ == insert_text_view(chain.command.actions[index]),
                all == words_of(chain.command.name),
                all == words_view(words@),
            ensures
                prose_sizes_counted(start_table, chain, index, starting_index as int, 1)
                    == abstract_commands@,
            decreases maximum_size + 1 - prose_size,
        {
            match find_prose_match_for_command_given_insert_at_interval(
                &words,
                insert,
                starting_index,
                prose_size,
            ) {
                Some(match_found) => {
                    let abstract_representation = make_abstract_representation_for_prose_command(
                        simplified_command_chain,
                        &match_found,
                        insert.index,
                    );
                    if is_acceptable_abstract_representation(
                        &abstract_representation.command_chain,
                    ) {
                        process_abstract_command_usage(abstract_commands, abstract_representation);
                    }
                },
                None => {},
            }
            prose_size += 1;
        }
        starting_index += 1;
    }
}

/// Whether a later command came more than five minutes after the one
/// before it.
pub fn is_command_after_chain_start_exceeding_time_gap_threshold(
    record_entry: &Command,
    chain_start_index: usize,
    current_chain_index: usize,
) -> (r: bool)
    ensures
        r == match record_entry@.seconds {
            Some(seconds) => current_chain_index > chain_start_index && seconds > 300,
            None => false,
        },
{
    match record_entry.get_seconds_since_last_action() {
        Some(seconds) => current_chain_index > chain_start_index && seconds
            > FIVE_MINUTES_IN_SECONDS,
        None => false,
    }
}

/// Whether a chain that began at `chain_start_index` stops before the
/// entry at `current_chain_index`.
pub fn should_command_chain_not_cross_entry_at_record_index(
    record: &Vec<Entry>,
    chain_start_index: usize,
    current_chain_index: usize,
) -> (r: bool)
    requires
        current_chain_index < record.len(),
    ensures
        r == stops_chain(record_view(record@), chain_start_index as int, current_chain_index as int),
{
    match &record[current_chain_index] {
        Entry::RecordingStart => true,
        Entry::Command(record_entry) => is_command_after_chain_start_exceeding_time_gap_threshold(
            record_entry,
            chain_start_index,
            current_chain_index,
        ),
    }
}

/// Makes the chain longer by the command that follows it in the record.
pub fn add_next_record_command_to_chain(record: &Vec<Entry>, command_chain: &mut CommandChain)
    requires
        old(command_chain)@.start + old(command_chain)@.size < record.len(),
        record_view(record@)[old(command_chain)@.start + old(command_chain)@.size] is Command,
    ensures
        final(command_chain)@ == chain_grown(
            old(command_chain)@,
            record_view(record@)[old(command_chain)@.start + old(command_chain)@.size],
        ),
{
    let start = command_chain.get_chain_number();
    let size = command_chain.get_size();
    let next = start + size;
    match &record[next] {
        Entry::Command(command) => {
            command_chain.append_command(command.duplicate());
        },
        Entry::RecordingStart => {},
    }
}

/// Counts the chain: as a concrete candidate, and as the abstract
/// candidates that its inserts and its repetitions give.
fn count_chain(
    concrete_commands: &mut ConcreteCommands,
    abstract_commands: &mut AbstractCommands,
    command_chain: &CommandChain,
)
    requires
        old(concrete_commands).wf(),
        old(abstract_commands).wf(),
        chain_is_placed(command_chain@),
    ensures
        final(concrete_commands).wf(),
        final(abstract_commands).wf(),
        (TablesView { concrete: final(concrete_commands)@, abstracts: final(abstract_commands)@ })
            == chain_counted(
            TablesView { concrete: old(concrete_commands)@, abstracts: old(abstract_commands)@ },
            command_chain@,
        ),
{
    let simplified_command_chain = simplify_command_chain(command_chain);
    process_concrete_command_usage(concrete_commands, &simplified_command_chain);
    let actions = simplified_command_chain.get_command().get_actions();
    let ghost chain = simplified_command_chain@;
    let ghost goal = prose_inserts_counted(abstract_commands@, chain, 0);
    assert(actions_view(actions@).len() == actions.len());
    let mut index: usize = 0;
    while index < actions.len()
        invariant
            index <= actions.len(),
            abstract_commands.wf(),
            chain == simplified_command_chain@,
            chain_is_placed(chain),
            actions_view(actions@) == chain.command.actions,
            goal == prose_inserts_counted(abstract_commands@, chain, index as int),
        decreases actions.len() - index,
    {
        assert(actions_view(actions@)[index as int] == actions[index as int]@);
        if is_insert(&actions[index]) {
            let insert = InsertAction { text: get_insert_text(&actions[index]).clone(), index };
            process_insert_action(&simplified_command_chain, &insert, abstract_commands);
        }
        index += 1;
    }
    if should_make_abstract_repeat_representation(&simplified_command_chain) {
        let abstract_repeat_representation = make_abstract_repeat_representation_for(
            &simplified_command_chain,
        );
        process_abstract_command_usage(abstract_commands, abstract_repeat_representation);
    }
}

/// Whether a concrete candidate is kept.
pub fn basic_concrete_command_filter(info: &CommandStatistics) -> (r: bool)
    ensures
        r == concrete_kept(info@),
{
    if info.number_of_words_saved == 0 || info.number_of_times_used <= 1 {
        return false;
    }
    let actions = info.number_of_actions as u128;
    let used = info.number_of_times_used as u128;
    let total = info.total_number_of_words_dictated as u128;
    assert(actions * used <= 0xffff_ffff_ffff_ffff * 0xffff_ffff_ffff_ffff) by (nonlinear_arith)
        requires
            actions <= 0xffff_ffff_ffff_ffff,
            used <= 0xffff_ffff_ffff_ffff,
    ;
    if actions * used < 2 * total {
        return true;
    }
    let ghost cube = used * used * used;
    let ghost square = actions * actions;
    assert(total * total < 0x1_0000_0000_0000_0000) by (nonlinear_arith)
        requires
            total < 0x1_0000_0000,
    ;
    if actions == 0 {
        assert(square * cube == 0) by (nonlinear_arith)
            requires
                actions == 0,
                square == actions * actions,
        ;
        return false;
    }
    if actions >= 0x1_0000_0000 || used >= 0x40_0000 {
        assert(square * cube >= 0x1_0000_0000_0000_0000) by (nonlinear_arith)
            requires
                square == actions * actions,
                cube == used * used * used,
                actions >= 1,
                used >= 2,
                actions >= 0x1_0000_0000 || used >= 0x40_0000,
        ;
        return true;
    }
    assert(used * used < 0x1000_0000_0000) by (nonlinear_arith)
        requires
            used < 0x40_0000,
    ;
    assert(used * used * used < 0x4_0000_0000_0000_0000) by (nonlinear_arith)
        requires
            used < 0x40_0000,
    ;
    let used_cubed = used * used * used;
    if used_cubed >= 0x1_0000_0000_0000_0000 {
        assert(square * cube >= 0x1_0000_0000_0000_0000) by (nonlinear_arith)
            requires
                square == actions * actions,
                cube >= 0x1_0000_0000_0000_0000,
                actions >= 1,
        ;
        return true;
    }
    assert(actions * actions < 0x1_0000_0000_0000_0000) by (nonlinear_arith)
        requires
            actions < 0x1_0000_0000,
    ;
    let actions_squared = actions * actions;
    assert(actions_squared * used_cubed < 0x1_0000_0000_0000_0000 * 0x1_0000_0000_0000_0000)
        by (nonlinear_arith)
        requires
            actions_squared < 0x1_0000_0000_0000_0000,
            used_cubed < 0x1_0000_0000_0000_0000,
    ;
    actions_squared * used_cubed > total * total
}

/// Whether an abstract candidate is kept.
pub fn basic_abstract_command_filter(info: &PotentialAbstractCommandInformation) -> (r: bool)
    ensures
        r == abstract_kept(info@.statistics),
{
    let statistics = info.get_statistics();
    let used = statistics.number_of_times_used as u128;
    let total = statistics.total_number_of_words_dictated as u128;
    if total < 2 * used || info.get_number_of_instantiations() <= 2
        || statistics.number_of_words_saved < 1 {
        return false;
    }
    basic_concrete_command_filter(statistics)
}

/// The recommendations of a record.
pub fn create_commands(record: &Vec<Entry>, max_chain_size: u32) -> (r: Vec<CommandStatistics>)
    ensures
        statistics_view(r@) == record_recommendations(record_view(record@), max_chain_size as int),
{
    let mut concrete_commands = ConcreteCommands::new();
    let mut abstract_commands = AbstractCommands::new();
    let ghost entries = record_view(record@);
    let ghost goal = record_candidates(entries, max_chain_size as int);
    assert(entries.len() == record.len());
    let mut chain: usize = 0;
    while chain < record.len()
        invariant
            chain <= record.len(),
            entries == record_view(record@),
            concrete_commands.wf(),
            abstract_commands.wf(),
            goal == starts_counted(
                TablesView { concrete: concrete_commands@, abstracts: abstract_commands@ },
                entries,
                max_chain_size as int,
                chain as int,
            ),
        decreases record.len() - chain,
    {
        let ghost start_tables = TablesView {
            concrete: concrete_commands@,
            abstracts: abstract_commands@,
        };
        let ghost chain_goal = chains_counted(
            start_tables,
            entries,
            max_chain_size as int,
            chain as int,
            chain as int,
            empty_chain(chain as int),
        );
        let reach = record.len() - chain;
        let target: usize = if (max_chain_size as usize) < reach {
            chain + max_chain_size as usize
        } else {
            record.len()
        };
        let mut command_chain = CommandChain::empty(chain);
        assert(command_chain@ == empty_chain(chain as int));
        let mut chain_ending_index: usize = chain;
        while chain_ending_index < target
            invariant_except_break
                chain_goal == chains_counted(
                    TablesView { concrete: concrete_commands@, abstracts: abstract_commands@ },
                    entries,
                    max_chain_size as int,
                    chain as int,
                    chain_ending_index as int,
                    command_chain@,
                ),
            invariant
                chain <= chain_ending_index <= target <= record.len(),
                target == record.len() || target == chain + max_chain_size,
                target <= chain + max_chain_size,
                entries == record_view(record@),
                concrete_commands.wf(),
                abstract_commands.wf(),
                command_chain@.start == chain,
                command_chain@.size == chain_ending_index - chain,
            ensures
                chain_goal == (TablesView {
                    concrete: concrete_commands@,
                    abstracts: abstract_commands@,
                }),
            decreases target - chain_ending_index,
        {
            if should_command_chain_not_cross_entry_at_record_index(
                record,
                chain,
                chain_ending_index,
            ) {
                break;
            }
            assert(entries[chain_ending_index as int] is Command) by {
                assert(entries[chain_ending_index as int] == record[chain_ending_index as int]@);
            }
            add_next_record_command_to_chain(record, &mut command_chain);
            count_chain(&mut concrete_commands, &mut abstract_commands, &command_chain);
            chain_ending_index += 1;
        }
        chain += 1;
    }
    let mut statistics: Vec<CommandStatistics> = Vec::new();
    let ghost concrete = concrete_commands@;
    let mut i: usize = 0;
    assert(concrete.subrange(0, 0) =~= Seq::<CandidateView>::empty());
    assert(statistics_view(statistics@) =~= Seq::<StatisticsView>::empty());
    while i < concrete_commands.entries.len()
        invariant
            i <= concrete_commands.entries.len(),
            concrete == concrete_commands@,
            statistics_view(statistics@) == kept_concrete(concrete.subrange(0, i as int)),
        decreases concrete_commands.entries.len() - i,
    {
        assert(concrete.subrange(0, i + 1).drop_last() == concrete.subrange(0, i as int));
        assert(concrete.subrange(0, i + 1).last() == concrete_commands.entries[i as int]@);
        let mut info = concrete_commands.entries[i].clone_information();
        info.compute_number_of_words_saved();
        if basic_concrete_command_filter(info.get_statistics()) {
            let ghost before = statistics_view(statistics@);
            let kept = info.move_statistics();
            statistics.push(kept);
            assert(statistics_view(statistics@) =~= before.push(kept@));
        }
        i += 1;
    }
    assert(concrete.subrange(0, concrete.len() as int) == concrete);
    let ghost kept_first = statistics_view(statistics@);
    let ghost abstracts = abstract_commands@;
    let mut j: usize = 0;
    assert(abstracts.subrange(0, 0) =~= Seq::<CandidateView>::empty());
    assert(kept_first + kept_abstract(abstracts.subrange(0, 0)) =~= kept_first);
    while j < abstract_commands.entries.len()
        invariant
            j <= abstract_commands.entries.len(),
            abstracts == abstract_commands@,
            statistics_view(statistics@) == kept_first + kept_abstract(
                abstracts.subrange(0, j as int),
            ),
        decreases abstract_commands.entries.len() - j,
    {
        assert(abstracts.subrange(0, j + 1).drop_last() == abstracts.subrange(0, j as int));
        assert(abstracts.subrange(0, j + 1).last() == abstract_commands.entries[j as int]@);
        let info = &abstract_commands.entries[j];
        if basic_abstract_command_filter(info) {
            let ghost before = statistics_view(statistics@);
            let kept = info.get_statistics().duplicate();
            statistics.push(kept);
            assert(statistics_view(statistics@) =~= before.push(kept@));
        }
        j += 1;
    }
    assert(abstracts.subrange(0, abstracts.len() as int) == abstracts);
    statistics
}

/// The recommendations of a record: the candidates that its chains of at
/// most `max_chain_size` commands give and that are worth keeping.
pub fn compute_recommendations_from_record(record: &Vec<Entry>, max_chain_size: u32) -> (r: Vec<
    CommandStatistics,
>)
    ensures
        statistics_view(r@) == record_recommendations(record_view(record@), max_chain_size as int),
{
    create_commands(record, max_chain_size)
}

} // verus!
