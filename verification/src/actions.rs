//! The action model: captures, arguments, actions, commands, chains of
//! commands and record entries, with their written forms.

use crate::numbers::{decimal, integer_to_chars};
use crate::text::{append_chars, chars_of, string_of};
use vstd::prelude::*;

verus! {

/// What a capture is: its name, its instance number and the text that
/// follows it in command syntax.
pub struct CaptureView {
    pub name: Seq<char>,
    pub instance: int,
    pub postfix: Seq<char>,
}

/// What an argument is.
pub enum ArgumentView {
    Text(Seq<char>),
    Int(int),
    Bool(bool),
    Float(Seq<char>),
    Capture(CaptureView),
}

/// What an action is: its name and its arguments in order.
pub struct ActionView {
    pub name: Seq<char>,
    pub arguments: Seq<ArgumentView>,
}

/// What a command is: the spoken phrase, the actions performed and the
/// seconds since the command before it, where known.
pub struct CommandView {
    pub name: Seq<char>,
    pub actions: Seq<ActionView>,
    pub seconds: Option<int>,
}

/// A text with `\` before each `"` and each `\`.
pub open spec fn escaped(s: Seq<char>) -> Seq<char>
    decreases s.len(),
{
    if s.len() == 0 {
        Seq::empty()
    } else if s.last() == '"' || s.last() == '\\' {
        escaped(s.drop_last()).push('\\').push(s.last())
    } else {
        escaped(s.drop_last()).push(s.last())
    }
}

/// A text with `\` before each `"`.
pub open spec fn quote_escaped(s: Seq<char>) -> Seq<char>
    decreases s.len(),
{
    if s.len() == 0 {
        Seq::empty()
    } else if s.last() == '"' {
        quote_escaped(s.drop_last()).push('\\').push(s.last())
    } else {
        quote_escaped(s.drop_last()).push(s.last())
    }
}

/// A text between double quotes, escaped so that it ends at the closing one.
pub open spec fn quoted(s: Seq<char>) -> Seq<char> {
    seq!['"'] + escaped(s) + seq!['"']
}

/// `name_instance`.
pub open spec fn capture_identifier(c: CaptureView) -> Seq<char> {
    c.name + seq!['_'] + decimal(c.instance)
}

/// `<name_instance>`: the capture as it stands in a command's phrase.
pub open spec fn capture_component(c: CaptureView) -> Seq<char> {
    seq!['<'] + capture_identifier(c) + seq!['>']
}

/// The capture as a JSON object; the postfix is a member where there is one.
pub open spec fn capture_json(c: CaptureView) -> Seq<char> {
    "{\"name\": "@ + quoted(c.name) + ", \"instance\": "@ + decimal(c.instance) + (if c.postfix.len()
        > 0 {
        ", \"postfix\": "@ + quoted(c.postfix)
    } else {
        Seq::empty()
    }) + seq!['}']
}

/// `true` or `false`.
pub open spec fn bool_text(b: bool) -> Seq<char> {
    if b {
        "true"@
    } else {
        "false"@
    }
}

/// An argument as a JSON value.
pub open spec fn argument_json(a: ArgumentView) -> Seq<char> {
    match a {
        ArgumentView::Text(s) => quoted(s),
        ArgumentView::Int(i) => decimal(i),
        ArgumentView::Bool(b) => bool_text(b),
        ArgumentView::Float(t) => t,
        ArgumentView::Capture(c) => capture_json(c),
    }
}

/// An argument in the target script's syntax.
pub open spec fn argument_script(a: ArgumentView) -> Seq<char> {
    match a {
        ArgumentView::Text(s) => seq!['"'] + quote_escaped(s) + seq!['"'],
        ArgumentView::Int(i) => decimal(i),
        ArgumentView::Bool(b) => bool_text(b),
        ArgumentView::Float(t) => t,
        ArgumentView::Capture(c) => capture_component(c) + c.postfix,
    }
}

/// The texts joined by `, `.
pub open spec fn comma_joined(items: Seq<Seq<char>>) -> Seq<char>
    decreases items.len(),
{
    if items.len() == 0 {
        Seq::empty()
    } else if items.len() == 1 {
        items[0]
    } else {
        comma_joined(items.drop_last()) + ", "@ + items.last()
    }
}

/// The arguments as JSON values, in order.
pub open spec fn arguments_json(args: Seq<ArgumentView>) -> Seq<Seq<char>> {
    args.map_values(|a: ArgumentView| argument_json(a))
}

/// The arguments in the target script's syntax, in order.
pub open spec fn arguments_script(args: Seq<ArgumentView>) -> Seq<Seq<char>> {
    args.map_values(|a: ArgumentView| argument_script(a))
}

/// An action as a JSON object.
pub open spec fn action_json(a: ActionView) -> Seq<char> {
    "{\"name\": "@ + quoted(a.name) + ", \"arguments\": ["@ + comma_joined(
        arguments_json(a.arguments),
    ) + "]}"@
}

/// An action in the target script's syntax: `name(arg1, arg2)`.
pub open spec fn action_script(a: ActionView) -> Seq<char> {
    a.name + seq!['('] + comma_joined(arguments_script(a.arguments)) + seq![')']
}

/// The canonical form of a sequence of actions: their JSON objects, one
/// after the other.
pub open spec fn canonical(actions: Seq<ActionView>) -> Seq<char>
    decreases actions.len(),
{
    if actions.len() == 0 {
        Seq::empty()
    } else {
        canonical(actions.drop_last()) + action_json(actions.last())
    }
}

/// The views of arguments, in order.
pub open spec fn arguments_view(args: Seq<Argument>) -> Seq<ArgumentView> {
    args.map_values(|a: Argument| a@)
}

/// The views of actions, in order.
pub open spec fn actions_view(actions: Seq<BasicAction>) -> Seq<ActionView> {
    actions.map_values(|a: BasicAction| a@)
}

/// Writes `s` with `\` before each `"`, and before each `\` where
/// `backslashes` is set.
fn escape_chars(s: &Vec<char>, backslashes: bool) -> (r: Vec<char>)
    ensures
        backslashes ==> r@ == escaped(s@),
        !backslashes ==> r@ == quote_escaped(s@),
{
    let mut out: Vec<char> = Vec::new();
    let mut i: usize = 0;
    while i < s.len()
        invariant
            i <= s.len(),
            backslashes ==> out@ == escaped(s@.subrange(0, i as int)),
            !backslashes ==> out@ == quote_escaped(s@.subrange(0, i as int)),
        decreases s.len() - i,
    {
        assert(s@.subrange(0, i + 1).drop_last() == s@.subrange(0, i as int));
        let c = s[i];
        if c == '"' || (backslashes && c == '\\') {
            out.push('\\');
        }
        out.push(c);
        i += 1;
    }
    assert(s@.subrange(0, s.len() as int) == s@);
    out
}

/// Writes `s` between double quotes.
fn quote_chars(s: &Vec<char>, backslashes: bool) -> (r: Vec<char>)
    ensures
        backslashes ==> r@ == quoted(s@),
        !backslashes ==> r@ == seq!['"'] + quote_escaped(s@) + seq!['"'],
{
    let mut out: Vec<char> = Vec::new();
    out.push('"');
    let body = escape_chars(s, backslashes);
    append_chars(&mut out, &body);
    out.push('"');
    out
}

/// Joins the texts with `, `.
fn join_with_commas(items: &Vec<Vec<char>>) -> (r: Vec<char>)
    ensures
        r@ == comma_joined(items@.map_values(|v: Vec<char>| v@)),
{
    let ghost views = items@.map_values(|v: Vec<char>| v@);
    let mut out: Vec<char> = Vec::new();
    let mut i: usize = 0;
    while i < items.len()
        invariant
            i <= items.len(),
            views == items@.map_values(|v: Vec<char>| v@),
            out@ == comma_joined(views.subrange(0, i as int)),
        decreases items.len() - i,
    {
        let ghost before = views.subrange(0, i as int);
        let ghost after = views.subrange(0, i + 1);
        assert(after.drop_last() == before);
        assert(after.last() == items@[i as int]@);
        if i > 0 {
            let separator = chars_of(", ");
            append_chars(&mut out, &separator);
        }
        append_chars(&mut out, &items[i]);
        i += 1;
    }
    assert(views.subrange(0, items.len() as int) == views);
    out
}

/// A placeholder in a command that binds a spoken phrase.
#[derive(Clone, Debug, PartialEq, Eq)]
pub struct TalonCapture {
    name: String,
    instance: i32,
    postfix: String,
}

impl View for TalonCapture {
    type V = CaptureView;

    closed spec fn view(&self) -> CaptureView {
        CaptureView { name: self.name@, instance: self.instance as int, postfix: self.postfix@ }
    }
}

impl TalonCapture {
    /// A capture without postfix.
    pub fn new(name: &str, instance: i32) -> (r: Self)
        ensures
            r@ == (CaptureView { name: name@, instance: instance as int, postfix: Seq::empty() }),
    {
        TalonCapture { name: String::from_str(name), instance, postfix: String::new() }
    }

    /// Replaces the text that follows the capture in command syntax.
    pub fn set_postfix(&mut self, postfix: &str)
        ensures
            final(self)@ == (CaptureView { postfix: postfix@, ..old(self)@ }),
    {
        self.postfix = String::from_str(postfix);
    }

    /// The capture's name.
    pub fn get_name(&self) -> (r: &str)
        ensures
            r@ == self@.name,
    {
        self.name.as_str()
    }

    /// The capture's instance number.
    pub fn get_instance(&self) -> (r: i32)
        ensures
            r == self@.instance,
    {
        self.instance
    }

    /// The text that follows the capture in command syntax.
    pub fn get_postfix(&self) -> (r: &str)
        ensures
            r@ == self@.postfix,
    {
        self.postfix.as_str()
    }

    pub(crate) fn identifier_chars(&self) -> (r: Vec<char>)
        ensures
            r@ == capture_identifier(self@),
    {
        let mut out = chars_of(self.name.as_str());
        out.push('_');
        let number = integer_to_chars(self.instance as i64);
        append_chars(&mut out, &number);
        out
    }

    pub(crate) fn component_chars(&self) -> (r: Vec<char>)
        ensures
            r@ == capture_component(self@),
    {
        let mut out: Vec<char> = Vec::new();
        out.push('<');
        let identifier = self.identifier_chars();
        append_chars(&mut out, &identifier);
        out.push('>');
        out
    }

    pub(crate) fn json_chars(&self) -> (r: Vec<char>)
        ensures
            r@ == capture_json(self@),
    {
        let mut out = chars_of("{\"name\": ");
        let name = quote_chars(&chars_of(self.name.as_str()), true);
        append_chars(&mut out, &name);
        let label = chars_of(", \"instance\": ");
        append_chars(&mut out, &label);
        let number = integer_to_chars(self.instance as i64);
        append_chars(&mut out, &number);
        let postfix = chars_of(self.postfix.as_str());
        if postfix.len() > 0 {
            let postfix_label = chars_of(", \"postfix\": ");
            append_chars(&mut out, &postfix_label);
            let postfix_text = quote_chars(&postfix, true);
            append_chars(&mut out, &postfix_text);
            assert(out@ == "{\"name\": "@ + quoted(self@.name) + ", \"instance\": "@ + decimal(
                self@.instance,
            ) + (", \"postfix\": "@ + quoted(self@.postfix)));
        } else {
            assert(out@ == "{\"name\": "@ + quoted(self@.name) + ", \"instance\": "@ + decimal(
                self@.instance,
            ) + Seq::<char>::empty());
        }
        out.push('}');
        out
    }

    /// `name_instance`.
    pub fn compute_string_representation(&self) -> (r: String)
        ensures
            r@ == capture_identifier(self@),
    {
        string_of(&self.identifier_chars())
    }

    /// `<name_instance>`: the capture as it stands in a command's phrase.
    pub fn compute_command_component(&self) -> (r: String)
        ensures
            r@ == capture_component(self@),
    {
        string_of(&self.component_chars())
    }

    /// The capture as a JSON object.
    pub fn to_json(&self) -> (r: String)
        ensures
            r@ == capture_json(self@),
    {
        string_of(&self.json_chars())
    }

    /// A copy of the capture.
    pub fn clone(&self) -> (r: Self)
        ensures
            r@ == self@,
    {
        TalonCapture {
            name: self.name.clone(),
            instance: self.instance,
            postfix: self.postfix.clone(),
        }
    }

    /// Whether two captures are the same.
    pub fn same_as(&self, other: &TalonCapture) -> (r: bool)
        ensures
            r == (self@ == other@),
    {
        self.name == other.name && self.instance == other.instance && self.postfix == other.postfix
    }
}

/// An argument of an action. A floating-point argument is held as the text
/// of the number.
#[derive(Clone, Debug, PartialEq)]
pub enum Argument {
    StringArgument(String),
    IntArgument(i32),
    BoolArgument(bool),
    FloatArgument(String),
    CaptureArgument(TalonCapture),
}

impl View for Argument {
    type V = ArgumentView;

    open spec fn view(&self) -> ArgumentView {
        match self {
            Argument::StringArgument(s) => ArgumentView::Text(s@),
            Argument::IntArgument(i) => ArgumentView::Int(*i as int),
            Argument::BoolArgument(b) => ArgumentView::Bool(*b),
            Argument::FloatArgument(t) => ArgumentView::Float(t@),
            Argument::CaptureArgument(c) => ArgumentView::Capture(c@),
        }
    }
}

impl Argument {
    /// A copy of the argument.
    pub fn duplicate(&self) -> (r: Self)
        ensures
            r@ == self@,
    {
        match self {
            Argument::StringArgument(s) => Argument::StringArgument(s.clone()),
            Argument::IntArgument(i) => Argument::IntArgument(*i),
            Argument::BoolArgument(b) => Argument::BoolArgument(*b),
            Argument::FloatArgument(t) => Argument::FloatArgument(t.clone()),
            Argument::CaptureArgument(c) => Argument::CaptureArgument(c.clone()),
        }
    }

    /// Whether two arguments are the same.
    pub fn same_as(&self, other: &Argument) -> (r: bool)
        ensures
            r == (self@ == other@),
    {
        match self {
            Argument::StringArgument(a) => match other {
                Argument::StringArgument(b) => *a == *b,
                _ => false,
            },
            Argument::IntArgument(a) => match other {
                Argument::IntArgument(b) => *a == *b,
                _ => false,
            },
            Argument::BoolArgument(a) => match other {
                Argument::BoolArgument(b) => *a == *b,
                _ => false,
            },
            Argument::FloatArgument(a) => match other {
                Argument::FloatArgument(b) => *a == *b,
                _ => false,
            },
            Argument::CaptureArgument(a) => match other {
                Argument::CaptureArgument(b) => a.same_as(b),
                _ => false,
            },
        }
    }

    pub(crate) fn script_chars(&self) -> (r: Vec<char>)
        ensures
            r@ == argument_script(self@),
    {
        match self {
            Argument::StringArgument(s) => quote_chars(&chars_of(s.as_str()), false),
            Argument::IntArgument(i) => integer_to_chars(*i as i64),
            Argument::BoolArgument(b) => if *b {
                chars_of("true")
            } else {
                chars_of("false")
            },
            Argument::FloatArgument(t) => chars_of(t.as_str()),
            Argument::CaptureArgument(c) => {
                let mut out = c.component_chars();
                let postfix = chars_of(c.get_postfix());
                append_chars(&mut out, &postfix);
                out
            },
        }
    }

    pub(crate) fn json_chars(&self) -> (r: Vec<char>)
        ensures
            r@ == argument_json(self@),
    {
        match self {
            Argument::StringArgument(s) => quote_chars(&chars_of(s.as_str()), true),
            Argument::IntArgument(i) => integer_to_chars(*i as i64),
            Argument::BoolArgument(b) => if *b {
                chars_of("true")
            } else {
                chars_of("false")
            },
            Argument::FloatArgument(t) => chars_of(t.as_str()),
            Argument::CaptureArgument(c) => c.json_chars(),
        }
    }
}

/// A named operation with its arguments.
#[derive(Clone, Debug, PartialEq)]
pub struct BasicAction {
    name: String,
    arguments: Vec<Argument>,
}

impl View for BasicAction {
    type V = ActionView;

    closed spec fn view(&self) -> ActionView {
        ActionView { name: self.name@, arguments: arguments_view(self.arguments@) }
    }
}

impl BasicAction {
    /// The action with this name and these arguments.
    pub fn new(name: &str, arguments: Vec<Argument>) -> (r: Self)
        ensures
            r@ == (ActionView { name: name@, arguments: arguments_view(arguments@) }),
    {
        BasicAction { name: String::from_str(name), arguments }
    }

    /// The action's name.
    pub fn get_name(&self) -> (r: &str)
        ensures
            r@ == self@.name,
    {
        self.name.as_str()
    }

    /// The action's arguments.
    pub fn get_arguments(&self) -> (r: &Vec<Argument>)
        ensures
            arguments_view(r@) == self@.arguments,
    {
        &self.arguments
    }

    pub(crate) fn script_chars(&self) -> (r: Vec<char>)
        ensures
            r@ == action_script(self@),
    {
        let mut parts: Vec<Vec<char>> = Vec::new();
        let mut i: usize = 0;
        while i < self.arguments.len()
            invariant
                i <= self.arguments.len(),
                parts.len() == i,
                forall|k: int| 0 <= k < i ==> (#[trigger] parts[k])@ == argument_script(self.arguments[k]@),
            decreases self.arguments.len() - i,
        {
            let piece = self.arguments[i].script_chars();
            parts.push(piece);
            i += 1;
        }
        assert(parts@.map_values(|v: Vec<char>| v@) =~= arguments_script(self@.arguments));
        let mut out = chars_of(self.name.as_str());
        out.push('(');
        let joined = join_with_commas(&parts);
        append_chars(&mut out, &joined);
        out.push(')');
        out
    }

    pub(crate) fn json_chars(&self) -> (r: Vec<char>)
        ensures
            r@ == action_json(self@),
    {
        let mut parts: Vec<Vec<char>> = Vec::new();
        let mut i: usize = 0;
        while i < self.arguments.len()
            invariant
                i <= self.arguments.len(),
                parts.len() == i,
                forall|k: int| 0 <= k < i ==> (#[trigger] parts[k])@ == argument_json(self.arguments[k]@),
            decreases self.arguments.len() - i,
        {
            let piece = self.arguments[i].json_chars();
            parts.push(piece);
            i += 1;
        }
        assert(parts@.map_values(|v: Vec<char>| v@) =~= arguments_json(self@.arguments));
        let mut out = chars_of("{\"name\": ");
        let name = quote_chars(&chars_of(self.name.as_str()), true);
        append_chars(&mut out, &name);
        let label = chars_of(", \"arguments\": [");
        append_chars(&mut out, &label);
        let joined = join_with_commas(&parts);
        append_chars(&mut out, &joined);
        let closing = chars_of("]}");
        append_chars(&mut out, &closing);
        out
    }

    /// The action in the target script's syntax.
    pub fn compute_talon_script(&self) -> (r: String)
        ensures
            r@ == action_script(self@),
    {
        string_of(&self.script_chars())
    }

    /// Each argument in the target script's syntax.
    pub fn compute_arguments_converted_to_talon_script_string(&self) -> (r: Vec<String>)
        ensures
            r@.map_values(|s: String| s@) == arguments_script(self@.arguments),
    {
        let mut out: Vec<String> = Vec::new();
        let mut i: usize = 0;
        while i < self.arguments.len()
            invariant
                i <= self.arguments.len(),
                out.len() == i,
                forall|k: int| 0 <= k < i ==> (#[trigger] out[k])@ == argument_script(self.arguments[k]@),
            decreases self.arguments.len() - i,
        {
            let piece = self.compute_string_argument(&self.arguments[i]);
            out.push(piece);
            i += 1;
        }
        assert(out@.map_values(|s: String| s@) =~= arguments_script(self@.arguments));
        out
    }

    /// An argument in the target script's syntax.
    pub fn compute_string_argument(&self, argument: &Argument) -> (r: String)
        ensures
            r@ == argument_script(argument@),
    {
        string_of(&argument.script_chars())
    }

    /// An argument as a JSON value.
    pub fn compute_argument_json(&self, argument: &Argument) -> (r: String)
        ensures
            r@ == argument_json(argument@),
    {
        string_of(&argument.json_chars())
    }

    /// The action as a JSON object.
    pub fn to_json(&self) -> (r: String)
        ensures
            r@ == action_json(self@),
    {
        string_of(&self.json_chars())
    }

    /// A copy of the action.
    pub fn clone(&self) -> (r: Self)
        ensures
            r@ == self@,
    {
        let mut arguments: Vec<Argument> = Vec::new();
        let mut i: usize = 0;
        while i < self.arguments.len()
            invariant
                i <= self.arguments.len(),
                arguments.len() == i,
                forall|k: int| 0 <= k < i ==> (#[trigger] arguments[k])@ == self.arguments[k]@,
            decreases self.arguments.len() - i,
        {
            arguments.push(self.arguments[i].duplicate());
            i += 1;
        }
        assert(arguments_view(arguments@) =~= self@.arguments);
        BasicAction { name: self.name.clone(), arguments }
    }

    /// Whether two actions are the same: the same name and the same
    /// arguments in the same order.
    pub fn same_as(&self, other: &BasicAction) -> (r: bool)
        ensures
            r == (self@ == other@),
    {
        if self.name != other.name {
            return false;
        }
        if self.arguments.len() != other.arguments.len() {
            assert(self@.arguments.len() != other@.arguments.len());
            return false;
        }
        let mut i: usize = 0;
        while i < self.arguments.len()
            invariant
                self.arguments.len() == other.arguments.len(),
                i <= self.arguments.len(),
                forall|k: int| 0 <= k < i ==> self@.arguments[k] == other@.arguments[k],
            decreases self.arguments.len() - i,
        {
            if !self.arguments[i].same_as(&other.arguments[i]) {
                assert(self@.arguments[i as int] != other@.arguments[i as int]);
                return false;
            }
            i += 1;
        }
        assert(self@.arguments =~= other@.arguments);
        true
    }
}

} // verus!
