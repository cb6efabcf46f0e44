//! Commands, chains of consecutive commands, record entries, and the
//! `insert` action that the generator looks into.

use crate::actions::{
    action_json, actions_view, arguments_view, canonical, ActionView, Argument, ArgumentView,
    BasicAction, CommandView,
};
use crate::numbers::{decimal, integer_to_chars};
use crate::text::{append_chars, chars_of, str_equal, string_of};
use vstd::prelude::*;

verus! {

/// The action inserts one text: it is named `insert` and has one argument,
/// a string.
pub open spec fn is_insert_view(a: ActionView) -> bool {
    &&& a.name == "insert"@
    &&& a.arguments.len() == 1
    &&& a.arguments[0] is Text
}

/// The text that an `insert` action inserts.
pub open spec fn insert_text_view(a: ActionView) -> Seq<char> {
    a.arguments[0]->Text_0
}

/// The action that inserts `text`.
pub open spec fn insert_view(text: Seq<char>) -> ActionView {
    ActionView { name: "insert"@, arguments: seq![ArgumentView::Text(text)] }
}

/// Whether the action inserts one text.
pub fn is_insert(action: &BasicAction) -> (r: bool)
    ensures
        r == is_insert_view(action@),
{
    let arguments = action.get_arguments();
    assert(arguments_view(arguments@).len() == arguments@.len());
    if str_equal(action.get_name(), "insert") && arguments.len() == 1 {
        assert(arguments_view(arguments@)[0] == arguments@[0]@);
        match &arguments[0] {
            Argument::StringArgument(_) => true,
            _ => false,
        }
    } else {
        false
    }
}

/// The action that inserts `text`.
pub fn create_insert_action(text: &str) -> (r: BasicAction)
    ensures
        r@ == insert_view(text@),
{
    let mut arguments: Vec<Argument> = Vec::new();
    arguments.push(Argument::StringArgument(String::from_str(text)));
    assert(arguments_view(arguments@) =~= seq![ArgumentView::Text(text@)]);
    BasicAction::new("insert", arguments)
}

/// The text that an `insert` action inserts.
pub fn get_insert_text(action: &BasicAction) -> (r: &String)
    requires
        is_insert_view(action@),
    ensures
        r@ == insert_text_view(action@),
{
    let arguments = action.get_arguments();
    assert(arguments_view(arguments@)[0] == arguments@[0]@);
    match &arguments[0] {
        Argument::StringArgument(text) => text,
        _ => {
            proof {
                assert(false);
            }
            unreached()
        },
    }
}

/// Whether the actions are one action that inserts one text.
pub fn is_insert_only_actions(actions: &[BasicAction]) -> (r: bool)
    ensures
        r == (actions@.len() == 1 && is_insert_view(actions@[0]@)),
{
    actions.len() == 1 && is_insert(&actions[0])
}

/// The text that the one `insert` action inserts.
pub fn get_insert_text_from_insert_only_actions(actions: &[BasicAction]) -> (r: &String)
    requires
        actions@.len() == 1,
        is_insert_view(actions@[0]@),
    ensures
        r@ == insert_text_view(actions@[0]@),
{
    get_insert_text(&actions[0])
}

/// Copies of the actions, in order.
pub fn clone_actions(actions: &Vec<BasicAction>) -> (r: Vec<BasicAction>)
    ensures
        actions_view(r@) == actions_view(actions@),
{
    let mut out: Vec<BasicAction> = Vec::new();
    let mut i: usize = 0;
    while i < actions.len()
        invariant
            i <= actions.len(),
            out.len() == i,
            forall|k: int| 0 <= k < i ==> (#[trigger] out[k])@ == actions[k]@,
        decreases actions.len() - i,
    {
        out.push(actions[i].clone());
        i += 1;
    }
    assert(actions_view(out@) =~= actions_view(actions@));
    out
}

/// Whether two sequences of actions are the same.
pub fn same_actions(a: &Vec<BasicAction>, b: &Vec<BasicAction>) -> (r: bool)
    ensures
        r == (actions_view(a@) == actions_view(b@)),
{
    if a.len() != b.len() {
        assert(actions_view(a@).len() != actions_view(b@).len());
        return false;
    }
    let mut i: usize = 0;
    while i < a.len()
        invariant
            a.len() == b.len(),
            i <= a.len(),
            forall|k: int| 0 <= k < i ==> a[k]@ == b[k]@,
        decreases a.len() - i,
    {
        if !a[i].same_as(&b[i]) {
            assert(actions_view(a@)[i as int] != actions_view(b@)[i as int]);
            return false;
        }
        i += 1;
    }
    assert(actions_view(a@) =~= actions_view(b@));
    true
}

pub(crate) fn canonical_chars(actions: &Vec<BasicAction>) -> (r: Vec<char>)
    ensures
        r@ == canonical(actions_view(actions@)),
{
    let ghost views = actions_view(actions@);
    let mut out: Vec<char> = Vec::new();
    let mut i: usize = 0;
    while i < actions.len()
        invariant
            i <= actions.len(),
            views == actions_view(actions@),
            out@ == canonical(views.subrange(0, i as int)),
        decreases actions.len() - i,
    {
        assert(views.subrange(0, i + 1).drop_last() == views.subrange(0, i as int));
        let piece = actions[i].json_chars();
        append_chars(&mut out, &piece);
        i += 1;
    }
    assert(views.subrange(0, actions.len() as int) == views);
    out
}

/// The canonical form of the actions: their JSON objects, one after the
/// other.
pub fn compute_string_representation_of_actions(actions: &Vec<BasicAction>) -> (r: String)
    ensures
        r@ == canonical(actions_view(actions@)),
{
    string_of(&canonical_chars(actions))
}

/// The seconds as a numeral, or nothing where they are not known.
pub open spec fn seconds_text(seconds: Option<int>) -> Seq<char> {
    match seconds {
        Some(s) => decimal(s),
        None => Seq::empty(),
    }
}

/// The command written out for a reader.
pub open spec fn command_text(c: CommandView) -> Seq<char> {
    "Command("@ + c.name + ", "@ + seconds_text(c.seconds) + ", "@ + canonical(c.actions)
}

/// A spoken command: its phrase, the actions it performed and the seconds
/// since the command before it.
#[derive(Clone, Debug, PartialEq)]
pub struct Command {
    name: String,
    actions: Vec<BasicAction>,
    seconds_since_last_action: Option<u32>,
}

impl View for Command {
    type V = CommandView;

    closed spec fn view(&self) -> CommandView {
        CommandView {
            name: self.name@,
            actions: actions_view(self.actions@),
            seconds: match self.seconds_since_last_action {
                Some(s) => Some(s as int),
                None => None,
            },
        }
    }
}

impl Command {
    /// The command with this phrase, these actions and this time gap.
    pub fn new(name: &str, actions: Vec<BasicAction>, seconds_since_last_action: Option<u32>) -> (r:
        Self)
        ensures
            r@.name == name@,
            r@.actions == actions_view(actions@),
            r@.seconds == match seconds_since_last_action {
                Some(s) => Some(s as int),
                None => None,
            },
    {
        Command { name: String::from_str(name), actions, seconds_since_last_action }
    }

    /// The spoken phrase.
    pub fn get_name(&self) -> (r: &str)
        ensures
            r@ == self@.name,
    {
        self.name.as_str()
    }

    /// The actions performed.
    pub fn get_actions(&self) -> (r: &Vec<BasicAction>)
        ensures
            actions_view(r@) == self@.actions,
    {
        &self.actions
    }

    /// The seconds since the command before this one, where known.
    pub fn get_seconds_since_last_action(&self) -> (r: Option<u32>)
        ensures
            match r {
                Some(s) => self@.seconds == Some(s as int),
                None => self@.seconds is None,
            },
    {
        self.seconds_since_last_action
    }

    /// The command written out for a reader.
    pub fn to_string(&self) -> (r: String)
        ensures
            r@ == command_text(self@),
    {
        let mut out = chars_of("Command(");
        let name = chars_of(self.name.as_str());
        append_chars(&mut out, &name);
        let comma = chars_of(", ");
        append_chars(&mut out, &comma);
        match self.seconds_since_last_action {
            Some(seconds) => {
                let numeral = integer_to_chars(seconds as i64);
                append_chars(&mut out, &numeral);
            },
            None => {
                assert(out@ + Seq::<char>::empty() == out@);
            },
        }
        append_chars(&mut out, &comma);
        let actions = canonical_chars(&self.actions);
        append_chars(&mut out, &actions);
        string_of(&out)
    }

    /// Adds the actions of `command` after this command's own, and its
    /// phrase directly after this command's phrase.
    pub fn append(&mut self, command: &Command)
        ensures
            final(self)@.name == old(self)@.name + command@.name,
            final(self)@.actions == old(self)@.actions + command@.actions,
            final(self)@.seconds == old(self)@.seconds,
    {
        let mut i: usize = 0;
        while i < command.actions.len()
            invariant
                i <= command.actions.len(),
                self.name == old(self).name,
                self.seconds_since_last_action == old(self).seconds_since_last_action,
                actions_view(self.actions@) == actions_view(old(self).actions@) + actions_view(
                    command.actions@,
                ).subrange(0, i as int),
            decreases command.actions.len() - i,
        {
            let ghost before = actions_view(self.actions@);
            self.actions.push(command.actions[i].clone());
            assert(actions_view(self.actions@) =~= before.push(command.actions[i as int]@));
            assert(actions_view(command.actions@).subrange(0, i + 1) =~= actions_view(
                command.actions@,
            ).subrange(0, i as int).push(command.actions[i as int]@));
            i += 1;
        }
        assert(actions_view(command.actions@).subrange(0, command.actions.len() as int)
            == actions_view(command.actions@));
        self.name.append(command.name.as_str());
    }

    /// A copy of the command.
    pub fn duplicate(&self) -> (r: Self)
        ensures
            r@ == self@,
    {
        Command {
            name: self.name.clone(),
            actions: clone_actions(&self.actions),
            seconds_since_last_action: self.seconds_since_last_action,
        }
    }
}

/// What a chain is: the commands it spans taken as one command, the record
/// index of its first command and the number of commands.
pub struct ChainView {
    pub command: CommandView,
    pub start: int,
    pub size: int,
}

/// A run of consecutive commands of the record, taken as one command.
pub struct CommandChain {
    command: Command,
    chain_number: usize,
    chain_size: usize,
}

impl View for CommandChain {
    type V = ChainView;

    closed spec fn view(&self) -> ChainView {
        ChainView {
            command: self.command@,
            start: self.chain_number as int,
            size: self.chain_size as int,
        }
    }
}

impl CommandChain {
    /// The chain that starts at record index `chain_number`, spans
    /// `chain_size` commands and amounts to `command`.
    pub fn new(command: Command, chain_number: usize, chain_size: usize) -> (r: Self)
        ensures
            r@ == (ChainView {
                command: command@,
                start: chain_number as int,
                size: chain_size as int,
            }),
    {
        CommandChain { command, chain_number, chain_size }
    }

    /// The chain that starts at record index `chain_number` and spans no
    /// command yet.
    pub fn empty(chain_number: usize) -> (r: Self)
        ensures
            r@.start == chain_number,
            r@.size == 0,
            r@.command.name == Seq::<char>::empty(),
            r@.command.actions == Seq::<ActionView>::empty(),
            r@.command.seconds is None,
    {
        let command = Command::new("", Vec::new(), None);
        proof {
            reveal_strlit("");
            assert(""@ =~= Seq::<char>::empty());
            assert(command@.actions =~= Seq::<ActionView>::empty());
        }
        CommandChain { command, chain_number, chain_size: 0 }
    }

    /// The chain taken as one command.
    pub fn get_command(&self) -> (r: &Command)
        ensures
            r@ == self@.command,
    {
        &self.command
    }

    /// The record index of the chain's first command.
    pub fn get_chain_number(&self) -> (r: usize)
        ensures
            r == self@.start,
    {
        self.chain_number
    }

    /// The record index of the chain's last command.
    pub fn get_chain_ending_index(&self) -> (r: usize)
        requires
            self@.size >= 1,
            self@.start + self@.size - 1 <= usize::MAX,
        ensures
            r == self@.start + self@.size - 1,
    {
        self.chain_number + (self.chain_size - 1)
    }

    /// The record index after the chain's last command.
    pub fn get_next_chain_index(&self) -> (r: usize)
        requires
            self@.start + self@.size <= usize::MAX,
        ensures
            r == self@.start + self@.size,
    {
        self.chain_number + self.chain_size
    }

    /// The number of commands that the chain spans.
    pub fn get_size(&self) -> (r: usize)
        ensures
            r == self@.size,
    {
        self.chain_size
    }

    /// Makes the chain one command longer: the command's actions follow the
    /// chain's, and its phrase follows the chain's after a space (directly,
    /// where the chain spanned no command).
    pub fn append_command(&mut self, command: Command)
        requires
            old(self)@.size < usize::MAX,
        ensures
            final(self)@.start == old(self)@.start,
            final(self)@.size == old(self)@.size + 1,
            final(self)@.command.name == chain_name(old(self)@, command@.name),
            final(self)@.command.actions == old(self)@.command.actions + command@.actions,
            final(self)@.command.seconds == old(self)@.command.seconds,
    {
        if self.chain_size > 0 {
            self.command.name.append(" ");
        }
        self.command.append(&command);
        self.chain_size += 1;
    }

    /// A copy of the chain.
    pub fn duplicate(&self) -> (r: Self)
        ensures
            r@ == self@,
    {
        CommandChain {
            command: self.command.duplicate(),
            chain_number: self.chain_number,
            chain_size: self.chain_size,
        }
    }
}

/// The phrase of a chain after a command with phrase `name` joined it.
pub open spec fn chain_name(chain: ChainView, name: Seq<char>) -> Seq<char> {
    if chain.size > 0 {
        chain.command.name + " "@ + name
    } else {
        chain.command.name + name
    }
}

/// One line of the record's meaning: the start of a recording, or a command.
#[derive(Clone, Debug, PartialEq)]
pub enum Entry {
    RecordingStart,
    Command(Command),
}

/// What an entry is.
pub enum EntryView {
    RecordingStart,
    Command(CommandView),
}

impl View for Entry {
    type V = EntryView;

    open spec fn view(&self) -> EntryView {
        match self {
            Entry::RecordingStart => EntryView::RecordingStart,
            Entry::Command(c) => EntryView::Command(c@),
        }
    }
}

/// The views of the entries, in order.
pub open spec fn record_view(record: Seq<Entry>) -> Seq<EntryView> {
    record.map_values(|e: Entry| e@)
}

} // verus!
