//! The record's text: how one line that holds an action is read, how a line
//! is told from another, and how lines make up the record's entries.

use crate::actions::{
    arguments_view, ActionView, Argument, ArgumentView, BasicAction, CaptureView, TalonCapture,
};
use crate::actions::actions_view;
use crate::commands::{clone_actions, record_view, Command, Entry, EntryView};
use crate::numbers::{is_float_numeral, is_float_text, numeral_in_range, read_numeral};
use crate::text::{
    chars_equal, chars_of, has_prefix, slice_chars, starts_with, string_of, trim, trim_chars,
};
use vstd::prelude::*;

verus! {

/// Why a line does not hold an action.
#[derive(Clone, Copy, Debug, PartialEq, Eq, Structural)]
pub enum ActionParseError {
    /// A value is due and none was written.
    EmptyValue,
    /// The action has two names.
    MultipleNames,
    /// A capture has two instance numbers.
    MultipleInstances,
    /// A capture's instance is no integer.
    InvalidInstance,
    /// A capture's instance is negative.
    NegativeInstance,
    /// A value outside the list stands under a key other than `name` and
    /// `instance`.
    KeyWithoutList,
    /// An element of the list is neither a number, `true`, `false`, a string
    /// nor a capture.
    InvalidElement,
    /// A list inside the list.
    NestedList,
    /// A list that the key `arguments` does not precede.
    ListWithoutArgumentsKey,
    /// A list that is not directly inside the outer object.
    ListOutsideObject,
    /// A closing brace that closes nothing.
    ExtraneousClosingBrace,
    /// A closing bracket outside a list.
    ClosingBracketWithoutList,
    /// A colon while an earlier key still waits for its value.
    ColonWithKey,
    /// A colon outside every object.
    ColonOutsideObject,
    /// The text ends inside a string.
    UnclosedString,
    /// The text ends inside an object.
    UnclosedBraces,
    /// The text ends inside the list.
    UnclosedList,
    /// The text ends with a key or a value that belongs to nothing.
    IncompletePair,
}

/// What the reader of an action holds between two characters.
pub struct ActionReaderView {
    pub name: Seq<char>,
    pub arguments: Seq<ArgumentView>,
    pub key: Seq<char>,
    pub inside_string: bool,
    pub inside_list: bool,
    pub value_is_string: bool,
    pub value: Seq<char>,
    pub escape_next: bool,
    pub boundary: char,
    pub open_braces: int,
    pub capture_name: Seq<char>,
    pub capture_instance: int,
    pub after_capture: bool,
}

/// The reader before the first character.
pub open spec fn reader_start() -> ActionReaderView {
    ActionReaderView {
        name: Seq::empty(),
        arguments: Seq::empty(),
        key: Seq::empty(),
        inside_string: false,
        inside_list: false,
        value_is_string: false,
        value: Seq::empty(),
        escape_next: false,
        boundary: '"',
        open_braces: 0,
        capture_name: Seq::empty(),
        capture_instance: -1,
        after_capture: false,
    }
}

/// The argument that an element of the list denotes: a string as it
/// stands; otherwise, without the whitespace around it, an integer of 32
/// bits, else a floating-point number, else `true` or `false`.
pub open spec fn element_argument(value: Seq<char>, is_string: bool) -> Result<
    ArgumentView,
    ActionParseError,
> {
    if is_string {
        Ok(ArgumentView::Text(value))
    } else {
        let t = trim(value);
        match numeral_in_range(t, -0x8000_0000, 0x7fff_ffff) {
            Some(i) => Ok(ArgumentView::Int(i)),
            None => if is_float_numeral(t) {
                Ok(ArgumentView::Float(t))
            } else if t == "true"@ {
                Ok(ArgumentView::Bool(true))
            } else if t == "false"@ {
                Ok(ArgumentView::Bool(false))
            } else {
                Err(ActionParseError::InvalidElement)
            },
        }
    }
}

/// The reader after the value it holds was put where its key says: the
/// action's name, a capture's name or instance, or the list.
pub open spec fn reader_take_value(s: ActionReaderView) -> Result<
    ActionReaderView,
    ActionParseError,
> {
    if s.value.len() == 0 {
        Err(ActionParseError::EmptyValue)
    } else if s.key == "name"@ {
        if s.open_braces == 2 {
            Ok(
                ActionReaderView {
                    capture_name: s.value,
                    key: Seq::empty(),
                    value: Seq::empty(),
                    value_is_string: false,
                    ..s
                },
            )
        } else if s.name.len() > 0 {
            Err(ActionParseError::MultipleNames)
        } else {
            Ok(
                ActionReaderView {
                    name: s.value,
                    key: Seq::empty(),
                    value: Seq::empty(),
                    value_is_string: false,
                    ..s
                },
            )
        }
    } else if s.key == "instance"@ {
        if s.capture_instance != -1 {
            Err(ActionParseError::MultipleInstances)
        } else {
            match numeral_in_range(s.value, -0x8000_0000, 0x7fff_ffff) {
                None => Err(ActionParseError::InvalidInstance),
                Some(i) => if i < 0 {
                    Err(ActionParseError::NegativeInstance)
                } else {
                    Ok(
                        ActionReaderView {
                            capture_instance: i,
                            key: Seq::empty(),
                            value: Seq::empty(),
                            value_is_string: false,
                            ..s
                        },
                    )
                },
            }
        }
    } else if s.inside_list {
        match element_argument(s.value, s.value_is_string) {
            Err(e) => Err(e),
            Ok(a) => Ok(
                ActionReaderView {
                    arguments: s.arguments.push(a),
                    value: Seq::empty(),
                    value_is_string: false,
                    ..s
                },
            ),
        }
    } else {
        Err(ActionParseError::KeyWithoutList)
    }
}

/// Something waits to be put somewhere: a key, a value, or an empty string.
pub open spec fn reader_has_pending(s: ActionReaderView) -> bool {
    s.key.len() > 0 || s.value.len() > 0 || s.value_is_string
}

/// The reader after a closing brace.
pub open spec fn reader_close_brace(s: ActionReaderView) -> Result<
    ActionReaderView,
    ActionParseError,
> {
    if s.open_braces == 0 {
        Err(ActionParseError::ExtraneousClosingBrace)
    } else {
        let closed = ActionReaderView { open_braces: s.open_braces - 1, ..s };
        let taken = if reader_has_pending(closed) {
            reader_take_value(closed)
        } else {
            Ok(closed)
        };
        match taken {
            Err(e) => Err(e),
            Ok(t) => if t.inside_list {
                Ok(
                    ActionReaderView {
                        arguments: t.arguments.push(
                            ArgumentView::Capture(
                                CaptureView {
                                    name: t.capture_name,
                                    instance: t.capture_instance,
                                    postfix: Seq::empty(),
                                },
                            ),
                        ),
                        capture_name: Seq::empty(),
                        capture_instance: -1,
                        after_capture: true,
                        ..t
                    },
                )
            } else {
                Ok(t)
            },
        }
    }
}

/// The reader after one more character: a comma directly after a capture,
/// or after the spaces that follow it, only parts the capture from the next
/// element; every other character is read as the reader's state says.
pub open spec fn reader_step(s: ActionReaderView, c: char) -> Result<
    ActionReaderView,
    ActionParseError,
> {
    if !s.inside_string && c == ',' && s.after_capture {
        Ok(ActionReaderView { after_capture: false, ..s })
    } else {
        match reader_step_plain(ActionReaderView { after_capture: false, ..s }, c) {
            Err(e) => Err(e),
            Ok(t) => if c == ' ' && !s.inside_string {
                Ok(ActionReaderView { after_capture: s.after_capture, ..t })
            } else {
                Ok(t)
            },
        }
    }
}

/// The reader after one more character that is no comma after a capture.
pub open spec fn reader_step_plain(s: ActionReaderView, c: char) -> Result<
    ActionReaderView,
    ActionParseError,
> {
    if s.inside_string {
        if c == '\\' {
            if s.escape_next {
                Ok(ActionReaderView { value: s.value.push(c), escape_next: false, ..s })
            } else {
                Ok(ActionReaderView { escape_next: true, ..s })
            }
        } else if c == s.boundary {
            if s.escape_next {
                Ok(ActionReaderView { value: s.value.push(c), escape_next: false, ..s })
            } else {
                Ok(ActionReaderView { inside_string: false, ..s })
            }
        } else {
            Ok(ActionReaderView { value: s.value.push(c), ..s })
        }
    } else if c == '{' {
        Ok(ActionReaderView { open_braces: s.open_braces + 1, ..s })
    } else if c == '[' {
        if s.inside_list {
            Err(ActionParseError::NestedList)
        } else if s.key != "arguments"@ {
            Err(ActionParseError::ListWithoutArgumentsKey)
        } else if s.open_braces != 1 {
            Err(ActionParseError::ListOutsideObject)
        } else {
            Ok(ActionReaderView { inside_list: true, ..s })
        }
    } else if c == '}' {
        reader_close_brace(s)
    } else if c == ']' {
        if !s.inside_list {
            Err(ActionParseError::ClosingBracketWithoutList)
        } else {
            let taken = if s.value.len() > 0 {
                reader_take_value(s)
            } else {
                Ok(s)
            };
            match taken {
                Err(e) => Err(e),
                Ok(t) => Ok(ActionReaderView { inside_list: false, key: Seq::empty(), ..t }),
            }
        }
    } else if c == ':' {
        if s.key.len() > 0 && !s.inside_list {
            Err(ActionParseError::ColonWithKey)
        } else if s.open_braces == 0 {
            Err(ActionParseError::ColonOutsideObject)
        } else {
            Ok(
                ActionReaderView {
                    key: s.value,
                    value: Seq::empty(),
                    value_is_string: false,
                    ..s
                },
            )
        }
    } else if c == ',' {
        reader_take_value(s)
    } else if c == '"' || c == '\'' {
        Ok(ActionReaderView { inside_string: true, boundary: c, value_is_string: true, ..s })
    } else if s.inside_list && (s.value.len() > 0 || c != ' ') {
        Ok(ActionReaderView { value: s.value.push(c), ..s })
    } else {
        Ok(s)
    }
}

/// The reader after the characters of `text`, one after the other.
pub open spec fn reader_run(s: ActionReaderView, text: Seq<char>) -> Result<
    ActionReaderView,
    ActionParseError,
>
    decreases text.len(),
{
    if text.len() == 0 {
        Ok(s)
    } else {
        match reader_step(s, text[0]) {
            Err(e) => Err(e),
            Ok(next) => reader_run(next, text.drop_first()),
        }
    }
}

/// The action that the reader holds once the text has ended.
pub open spec fn reader_finish(s: ActionReaderView) -> Result<ActionView, ActionParseError> {
    if s.inside_string {
        Err(ActionParseError::UnclosedString)
    } else if s.open_braces > 0 {
        Err(ActionParseError::UnclosedBraces)
    } else if s.inside_list {
        Err(ActionParseError::UnclosedList)
    } else if reader_has_pending(s) {
        Err(ActionParseError::IncompletePair)
    } else {
        Ok(ActionView { name: s.name, arguments: s.arguments })
    }
}

/// The action that a line of the record holds: the line is read without the
/// whitespace around it, character by character.
pub open spec fn parsed_action(line: Seq<char>) -> Result<ActionView, ActionParseError> {
    match reader_run(reader_start(), trim(line)) {
        Err(e) => Err(e),
        Ok(s) => reader_finish(s),
    }
}

struct ActionReader {
    name: Vec<char>,
    arguments: Vec<Argument>,
    key: Vec<char>,
    inside_string: bool,
    inside_list: bool,
    value_is_string: bool,
    value: Vec<char>,
    escape_next: bool,
    boundary: char,
    open_braces: usize,
    capture_name: Vec<char>,
    capture_instance: i32,
    after_capture: bool,
}

impl View for ActionReader {
    type V = ActionReaderView;

    closed spec fn view(&self) -> ActionReaderView {
        ActionReaderView {
            name: self.name@,
            arguments: arguments_view(self.arguments@),
            key: self.key@,
            inside_string: self.inside_string,
            inside_list: self.inside_list,
            value_is_string: self.value_is_string,
            value: self.value@,
            escape_next: self.escape_next,
            boundary: self.boundary,
            open_braces: self.open_braces as int,
            capture_name: self.capture_name@,
            capture_instance: self.capture_instance as int,
            after_capture: self.after_capture,
        }
    }
}

/// The argument that an element of the list denotes.
fn parse_basic_action_json_argument_element(text: &Vec<char>, is_string: bool) -> (r: Result<
    Argument,
    ActionParseError,
>)
    ensures
        match r {
            Ok(a) => element_argument(text@, is_string) == Ok::<ArgumentView, ActionParseError>(a@),
            Err(e) => element_argument(text@, is_string) == Err::<ArgumentView, ActionParseError>(
                e,
            ),
        },
{
    if is_string {
        return Ok(Argument::StringArgument(string_of(text)));
    }
    let trimmed = trim_chars(text);
    match read_numeral(&trimmed, -0x8000_0000, 0x7fff_ffff) {
        Some(i) => Ok(Argument::IntArgument(i as i32)),
        None => {
            if is_float_text(&trimmed) {
                Ok(Argument::FloatArgument(string_of(&trimmed)))
            } else if chars_equal(&trimmed, &chars_of("true")) {
                Ok(Argument::BoolArgument(true))
            } else if chars_equal(&trimmed, &chars_of("false")) {
                Ok(Argument::BoolArgument(false))
            } else {
                Err(ActionParseError::InvalidElement)
            }
        },
    }
}

impl ActionReader {
    fn new() -> (r: Self)
        ensures
            r@ == reader_start(),
    {
        let r = ActionReader {
            name: Vec::new(),
            arguments: Vec::new(),
            key: Vec::new(),
            inside_string: false,
            inside_list: false,
            value_is_string: false,
            value: Vec::new(),
            escape_next: false,
            boundary: '"',
            open_braces: 0,
            capture_name: Vec::new(),
            capture_instance: -1,
            after_capture: false,
        };
        assert(r@.arguments =~= Seq::empty());
        r
    }

    /// Puts the value that the reader holds where its key says.
    fn add_current_item(&mut self) -> (r: Result<(), ActionParseError>)
        ensures
            match r {
                Ok(()) => reader_take_value(old(self)@) == Ok::<
                    ActionReaderView,
                    ActionParseError,
                >(final(self)@),
                Err(e) => reader_take_value(old(self)@) == Err::<
                    ActionReaderView,
                    ActionParseError,
                >(e),
            },
    {
        if self.value.len() == 0 {
            return Err(ActionParseError::EmptyValue);
        }
        if chars_equal(&self.key, &chars_of("name")) {
            if self.open_braces == 2 {
                self.capture_name = self.value.clone();
            } else {
                if self.name.len() > 0 {
                    return Err(ActionParseError::MultipleNames);
                }
                self.name = self.value.clone();
            }
            self.key.clear();
        } else if chars_equal(&self.key, &chars_of("instance")) {
            if self.capture_instance != -1 {
                return Err(ActionParseError::MultipleInstances);
            }
            match read_numeral(&self.value, -0x8000_0000, 0x7fff_ffff) {
                None => {
                    return Err(ActionParseError::InvalidInstance);
                },
                Some(i) => {
                    if i < 0 {
                        return Err(ActionParseError::NegativeInstance);
                    }
                    self.capture_instance = i as i32;
                },
            }
            self.key.clear();
        } else if self.inside_list {
            match parse_basic_action_json_argument_element(&self.value, self.value_is_string) {
                Err(e) => {
                    return Err(e);
                },
                Ok(a) => {
                    let ghost before = arguments_view(self.arguments@);
                    self.arguments.push(a);
                    assert(arguments_view(self.arguments@) =~= before.push(a@));
                },
            }
        } else {
            return Err(ActionParseError::KeyWithoutList);
        }
        self.value.clear();
        self.value_is_string = false;
        Ok(())
    }

    fn close_brace(&mut self) -> (r: Result<(), ActionParseError>)
        ensures
            match r {
                Ok(()) => reader_close_brace(old(self)@) == Ok::<
                    ActionReaderView,
                    ActionParseError,
                >(final(self)@),
                Err(e) => reader_close_brace(old(self)@) == Err::<
                    ActionReaderView,
                    ActionParseError,
                >(e),
            },
    {
        if self.open_braces == 0 {
            return Err(ActionParseError::ExtraneousClosingBrace);
        }
        self.open_braces -= 1;
        if self.key.len() > 0 || self.value.len() > 0 || self.value_is_string {
            match self.add_current_item() {
                Err(e) => {
                    return Err(e);
                },
                Ok(()) => {},
            }
        }
        if self.inside_list {
            let capture_name = string_of(&self.capture_name);
            let capture = TalonCapture::new(capture_name.as_str(), self.capture_instance);
            let ghost before = arguments_view(self.arguments@);
            let argument = Argument::CaptureArgument(capture);
            self.arguments.push(argument);
            assert(arguments_view(self.arguments@) =~= before.push(argument@));
            self.capture_name.clear();
            self.capture_instance = -1;
            self.after_capture = true;
        }
        Ok(())
    }

    /// Reads one more character.
    fn step(&mut self, c: char) -> (r: Result<(), ActionParseError>)
        requires
            old(self).open_braces < usize::MAX,
        ensures
            match r {
                Ok(()) => reader_step(old(self)@, c) == Ok::<ActionReaderView, ActionParseError>(
                    final(self)@,
                ) && final(self).open_braces <= old(self).open_braces + 1,
                Err(e) => reader_step(old(self)@, c) == Err::<ActionReaderView, ActionParseError>(
                    e,
                ),
            },
    {
        let after_capture = self.after_capture;
        let inside_string = self.inside_string;
        self.after_capture = false;
        if !inside_string && c == ',' && after_capture {
            return Ok(());
        }
        match self.step_plain(c) {
            Err(e) => Err(e),
            Ok(()) => {
                if c == ' ' && !inside_string {
                    self.after_capture = after_capture;
                }
                Ok(())
            },
        }
    }

    /// Reads one more character that is no comma after a capture.
    fn step_plain(&mut self, c: char) -> (r: Result<(), ActionParseError>)
        requires
            old(self).open_braces < usize::MAX,
        ensures
            match r {
                Ok(()) => reader_step_plain(old(self)@, c) == Ok::<
                    ActionReaderView,
                    ActionParseError,
                >(final(self)@) && final(self).open_braces <= old(self).open_braces + 1,
                Err(e) => reader_step_plain(old(self)@, c) == Err::<
                    ActionReaderView,
                    ActionParseError,
                >(e),
            },
    {
        if self.inside_string {
            if c == '\\' {
                if self.escape_next {
                    self.value.push(c);
                    self.escape_next = false;
                } else {
                    self.escape_next = true;
                }
            } else if c == self.boundary {
                if self.escape_next {
                    self.value.push(c);
                    self.escape_next = false;
                } else {
                    self.inside_string = false;
                }
            } else {
                self.value.push(c);
            }
            Ok(())
        } else if c == '{' {
            self.open_braces += 1;
            Ok(())
        } else if c == '[' {
            if self.inside_list {
                return Err(ActionParseError::NestedList);
            }
            if !chars_equal(&self.key, &chars_of("arguments")) {
                return Err(ActionParseError::ListWithoutArgumentsKey);
            }
            if self.open_braces != 1 {
                return Err(ActionParseError::ListOutsideObject);
            }
            self.inside_list = true;
            Ok(())
        } else if c == '}' {
            self.close_brace()
        } else if c == ']' {
            if !self.inside_list {
                return Err(ActionParseError::ClosingBracketWithoutList);
            }
            if self.value.len() > 0 {
                match self.add_current_item() {
                    Err(e) => {
                        return Err(e);
                    },
                    Ok(()) => {},
                }
            }
            self.inside_list = false;
            self.key.clear();
            Ok(())
        } else if c == ':' {
            if self.key.len() > 0 && !self.inside_list {
                return Err(ActionParseError::ColonWithKey);
            }
            if self.open_braces == 0 {
                return Err(ActionParseError::ColonOutsideObject);
            }
            self.key = self.value.clone();
            self.value.clear();
            self.value_is_string = false;
            Ok(())
        } else if c == ',' {
            self.add_current_item()
        } else if c == '"' || c == '\'' {
            self.inside_string = true;
            self.boundary = c;
            self.value_is_string = true;
            Ok(())
        } else {
            if self.inside_list && (self.value.len() > 0 || c != ' ') {
                self.value.push(c);
            }
            Ok(())
        }
    }

    fn finish(self) -> (r: Result<BasicAction, ActionParseError>)
        ensures
            match r {
                Ok(a) => reader_finish(self@) == Ok::<ActionView, ActionParseError>(a@),
                Err(e) => reader_finish(self@) == Err::<ActionView, ActionParseError>(e),
            },
    {
        if self.inside_string {
            Err(ActionParseError::UnclosedString)
        } else if self.open_braces > 0 {
            Err(ActionParseError::UnclosedBraces)
        } else if self.inside_list {
            Err(ActionParseError::UnclosedList)
        } else if self.key.len() > 0 || self.value.len() > 0 || self.value_is_string {
            Err(ActionParseError::IncompletePair)
        } else {
            let name = string_of(&self.name);
            Ok(BasicAction::new(name.as_str(), self.arguments))
        }
    }
}

/// Reads the action that a line of the record holds.
pub fn load_basic_action_from_json(json: &str) -> (r: Result<BasicAction, ActionParseError>)
    ensures
        match r {
            Ok(a) => parsed_action(json@) == Ok::<ActionView, ActionParseError>(a@),
            Err(e) => parsed_action(json@) == Err::<ActionView, ActionParseError>(e),
        },
{
    let text = trim_chars(&chars_of(json));
    let mut reader = ActionReader::new();
    let mut i: usize = 0;
    assert(text@.subrange(0, text.len() as int) == text@);
    while i < text.len()
        invariant
            i <= text.len(),
            text@ == trim(json@),
            reader.open_braces <= i,
            reader_run(reader_start(), text@) == reader_run(
                reader@,
                text@.subrange(i as int, text.len() as int),
            ),
        decreases text.len() - i,
    {
        let ghost rest = text@.subrange(i as int, text.len() as int);
        assert(rest.drop_first() == text@.subrange(i + 1, text.len() as int));
        assert(rest[0] == text@[i as int]);
        let ghost before = reader@;
        match reader.step(text[i]) {
            Err(e) => {
                assert(reader_run(before, rest) == Err::<ActionReaderView, ActionParseError>(e));
                return Err(e);
            },
            Ok(()) => {
                assert(reader_run(before, rest) == reader_run(reader@, rest.drop_first()));
            },
        }
        i += 1;
    }
    reader.finish()
}

/// Why a line of the record cannot be read.
#[derive(Clone, Copy, Debug, PartialEq, Eq, Structural)]
pub enum RecordError {
    /// The line holds an action that cannot be read.
    Action(ActionParseError),
    /// `Command: ` with no phrase after it.
    EmptyCommandName,
    /// The line does not begin with `Command: `.
    MissingCommandPrefix,
    /// What follows `T` is no number of seconds.
    InvalidTimeDifference,
    /// The line does not begin with `T`.
    MissingTimePrefix,
    /// An action before the first command of a recording.
    ActionWithoutCommand,
    /// A command without an action.
    CommandWithoutActions,
}

/// A line that cannot be read, by its number; the first line is line one.
#[derive(Clone, Copy, Debug, PartialEq, Eq, Structural)]
pub struct RecordLineError {
    pub line_number: usize,
    pub error: RecordError,
}

/// The phrase of a command line: what follows `Command: `.
pub open spec fn command_name_of(line: Seq<char>) -> Result<Seq<char>, RecordError> {
    if starts_with(line, "Command: "@) {
        if line.len() == "Command: "@.len() {
            Err(RecordError::EmptyCommandName)
        } else {
            Ok(line.subrange("Command: "@.len() as int, line.len() as int))
        }
    } else {
        Err(RecordError::MissingCommandPrefix)
    }
}

/// The seconds of a time line: the number that follows `T`.
pub open spec fn seconds_of(line: Seq<char>) -> Result<int, RecordError> {
    if starts_with(line, "T"@) {
        match numeral_in_range(line.subrange("T"@.len() as int, line.len() as int), 0, 0xffff_ffff) {
            Some(seconds) => Ok(seconds),
            None => Err(RecordError::InvalidTimeDifference),
        }
    } else {
        Err(RecordError::MissingTimePrefix)
    }
}

/// The phrase of a command line.
pub fn compute_command_name_without_prefix(name: &str) -> (r: Result<String, RecordError>)
    ensures
        match r {
            Ok(phrase) => command_name_of(name@) == Ok::<Seq<char>, RecordError>(phrase@),
            Err(e) => command_name_of(name@) == Err::<Seq<char>, RecordError>(e),
        },
{
    let line = chars_of(name);
    let prefix = chars_of("Command: ");
    if has_prefix(&line, &prefix) {
        if line.len() == prefix.len() {
            return Err(RecordError::EmptyCommandName);
        }
        Ok(string_of(&slice_chars(&line, prefix.len(), line.len())))
    } else {
        Err(RecordError::MissingCommandPrefix)
    }
}

/// The seconds of a time line.
pub fn compute_seconds_since_last_action(time_record: &str) -> (r: Result<u32, RecordError>)
    ensures
        match r {
            Ok(seconds) => seconds_of(time_record@) == Ok::<int, RecordError>(seconds as int),
            Err(e) => seconds_of(time_record@) == Err::<int, RecordError>(e),
        },
{
    let line = chars_of(time_record);
    let prefix = chars_of("T");
    if has_prefix(&line, &prefix) {
        let time_text = slice_chars(&line, prefix.len(), line.len());
        match read_numeral(&time_text, 0, 0xffff_ffff) {
            Some(seconds) => Ok(seconds as u32),
            None => Err(RecordError::InvalidTimeDifference),
        }
    } else {
        Err(RecordError::MissingTimePrefix)
    }
}

/// Whether the line tells the seconds since the command before.
pub fn is_line_time_difference(line: &str) -> (r: bool)
    ensures
        r == starts_with(line@, "T"@),
{
    has_prefix(&chars_of(line), &chars_of("T"))
}

/// Whether the line starts a recording.
pub fn is_line_recording_start(line: &str) -> (r: bool)
    ensures
        r == (line@ == "START"@),
{
    chars_equal(&chars_of(line), &chars_of("START"))
}

/// Whether the line starts a command.
pub fn is_line_command_start(line: &str) -> (r: bool)
    ensures
        r == starts_with(line@, "Command: "@),
{
    has_prefix(&chars_of(line), &chars_of("Command: "))
}

/// Whether the line ends the command before it.
pub fn is_line_command_ending(line: &str) -> (r: bool)
    ensures
        r == (starts_with(line@, "Command: "@) || line@ == "START"@),
{
    is_line_command_start(line) || is_line_recording_start(line)
}

/// Whether the line holds an action.
pub fn is_line_action(line: &str) -> (r: bool)
    ensures
        r == starts_with(line@, "{"@),
{
    has_prefix(&chars_of(line), &chars_of("{"))
}

/// What the reader of a record holds between two lines: the entries read,
/// the command that is being read, and the seconds that the next command
/// is to get.
pub struct RecordReaderView {
    pub record: Seq<EntryView>,
    pub name: Seq<char>,
    pub actions: Seq<ActionView>,
    pub seconds: Option<int>,
    pub seconds_for_next: Option<int>,
}

/// The reader before the first line.
pub open spec fn record_start() -> RecordReaderView {
    RecordReaderView {
        record: Seq::empty(),
        name: Seq::empty(),
        actions: Seq::empty(),
        seconds: None,
        seconds_for_next: None,
    }
}

/// The reader after the command that is being read, if there is one, became
/// an entry. A command without an action is refused.
pub open spec fn record_flushed(s: RecordReaderView) -> Result<RecordReaderView, RecordError> {
    if s.name.len() == 0 {
        Ok(s)
    } else if s.actions.len() == 0 {
        Err(RecordError::CommandWithoutActions)
    } else {
        Ok(
            RecordReaderView {
                record: s.record.push(
                    EntryView::Command(
                        crate::actions::CommandView {
                            name: s.name,
                            actions: s.actions,
                            seconds: s.seconds,
                        },
                    ),
                ),
                name: Seq::empty(),
                actions: Seq::empty(),
                seconds: None,
                ..s
            },
        )
    }
}

/// The reader after one more line, which is read as it stands: a line that
/// begins with `{` holds an action of the command that is being read; one
/// that begins with `Command: ` ends that command and begins another, which
/// gets the seconds told last; one that begins with `T` tells the seconds
/// for the next command; `START` ends the command and starts a recording.
/// Any other line is passed over.
pub open spec fn record_line_read(s: RecordReaderView, line: Seq<char>) -> Result<
    RecordReaderView,
    RecordError,
> {
    if starts_with(line, "{"@) {
        if s.name.len() == 0 {
            Err(RecordError::ActionWithoutCommand)
        } else {
            match parsed_action(line) {
                Err(e) => Err(RecordError::Action(e)),
                Ok(action) => Ok(RecordReaderView { actions: s.actions.push(action), ..s }),
            }
        }
    } else if starts_with(line, "Command: "@) {
        match record_flushed(s) {
            Err(e) => Err(e),
            Ok(flushed) => match command_name_of(line) {
                Err(e) => Err(e),
                Ok(name) => Ok(
                    RecordReaderView {
                        name,
                        seconds: flushed.seconds_for_next,
                        seconds_for_next: None,
                        ..flushed
                    },
                ),
            },
        }
    } else if starts_with(line, "T"@) {
        match seconds_of(line) {
            Err(e) => Err(e),
            Ok(seconds) => Ok(RecordReaderView { seconds_for_next: Some(seconds), ..s }),
        }
    } else if line == "START"@ {
        match record_flushed(s) {
            Err(e) => Err(e),
            Ok(flushed) => Ok(
                RecordReaderView {
                    record: flushed.record.push(EntryView::RecordingStart),
                    ..flushed
                },
            ),
        }
    } else {
        Ok(s)
    }
}

/// The reader after the lines from `from` on, each without the whitespace
/// around it; an error comes with the number of its line.
pub open spec fn record_lines_read(s: RecordReaderView, lines: Seq<Seq<char>>, from: int) -> Result<
    RecordReaderView,
    RecordLineError,
>
    decreases lines.len() - from,
{
    if from < 0 || from >= lines.len() {
        Ok(s)
    } else {
        match record_line_read(s, trim(lines[from])) {
            Err(error) => Err(RecordLineError { line_number: (from + 1) as usize, error }),
            Ok(next) => record_lines_read(next, lines, from + 1),
        }
    }
}

/// The entries that the lines of a record hold.
pub open spec fn record_of_lines(lines: Seq<Seq<char>>) -> Result<Seq<EntryView>, RecordLineError> {
    match record_lines_read(record_start(), lines, 0) {
        Err(e) => Err(e),
        Ok(s) => match record_flushed(s) {
            Err(error) => Err(RecordLineError { line_number: lines.len() as usize, error }),
            Ok(flushed) => Ok(flushed.record),
        },
    }
}

/// Reads a record line by line.
pub struct RecordParser {
    record: Vec<Entry>,
    current_command_name: String,
    current_command_actions: Vec<BasicAction>,
    seconds_since_last_action: Option<u32>,
    seconds_since_last_action_for_next_command: Option<u32>,
}

/// The seconds as an integer.
pub open spec fn seconds_view(seconds: Option<u32>) -> Option<int> {
    match seconds {
        Some(s) => Some(s as int),
        None => None,
    }
}

impl View for RecordParser {
    type V = RecordReaderView;

    closed spec fn view(&self) -> RecordReaderView {
        RecordReaderView {
            record: record_view(self.record@),
            name: self.current_command_name@,
            actions: actions_view(self.current_command_actions@),
            seconds: seconds_view(self.seconds_since_last_action),
            seconds_for_next: seconds_view(self.seconds_since_last_action_for_next_command),
        }
    }
}

impl RecordParser {
    /// The parser before the first line.
    pub fn new() -> (r: Self)
        ensures
            r@ == record_start(),
    {
        let r = RecordParser {
            record: Vec::new(),
            current_command_name: String::new(),
            current_command_actions: Vec::new(),
            seconds_since_last_action: None,
            seconds_since_last_action_for_next_command: None,
        };
        assert(r@.record =~= Seq::empty());
        assert(r@.actions =~= Seq::empty());
        r
    }

    /// Whether a command is being read that has an action.
    pub fn is_command_found(&self) -> (r: bool)
        ensures
            r == (self@.name.len() > 0 && self@.actions.len() > 0),
    {
        assert(actions_view(self.current_command_actions@).len()
            == self.current_command_actions.len());
        self.current_command_name.as_str().unicode_len() > 0 && self.current_command_actions.len()
            > 0
    }

    /// Makes the command that is being read, if there is one, an entry.
    pub fn add_current_command_if_available(&mut self) -> (r: Result<(), RecordError>)
        ensures
            match r {
                Ok(()) => record_flushed(old(self)@) == Ok::<RecordReaderView, RecordError>(
                    final(self)@,
                ),
                Err(e) => record_flushed(old(self)@) == Err::<RecordReaderView, RecordError>(e),
            },
    {
        assert(actions_view(self.current_command_actions@).len()
            == self.current_command_actions.len());
        if self.current_command_name.as_str().unicode_len() == 0 {
            return Ok(());
        }
        if self.current_command_actions.len() == 0 {
            return Err(RecordError::CommandWithoutActions);
        }
        let command = Command::new(
            self.current_command_name.as_str(),
            clone_actions(&self.current_command_actions),
            self.seconds_since_last_action,
        );
        let ghost before = record_view(self.record@);
        let entry = Entry::Command(command);
        self.record.push(entry);
        assert(record_view(self.record@) =~= before.push(entry@));
        self.current_command_name = String::new();
        self.current_command_actions = Vec::new();
        assert(actions_view(self.current_command_actions@) =~= Seq::empty());
        self.seconds_since_last_action = None;
        Ok(())
    }

    /// Reads one line, which comes without whitespace around it.
    pub fn parse_line(&mut self, line: &str) -> (r: Result<(), RecordError>)
        ensures
            match r {
                Ok(()) => record_line_read(old(self)@, line@) == Ok::<
                    RecordReaderView,
                    RecordError,
                >(final(self)@),
                Err(e) => record_line_read(old(self)@, line@) == Err::<
                    RecordReaderView,
                    RecordError,
                >(e),
            },
    {
        if is_line_action(line) {
            if self.current_command_name.as_str().unicode_len() == 0 {
                return Err(RecordError::ActionWithoutCommand);
            }
            match load_basic_action_from_json(line) {
                Err(e) => Err(RecordError::Action(e)),
                Ok(action) => {
                    let ghost before = actions_view(self.current_command_actions@);
                    self.current_command_actions.push(action);
                    assert(actions_view(self.current_command_actions@) =~= before.push(action@));
                    Ok(())
                },
            }
        } else if is_line_command_start(line) {
            match self.add_current_command_if_available() {
                Err(e) => {
                    return Err(e);
                },
                Ok(()) => {},
            }
            match compute_command_name_without_prefix(line) {
                Err(e) => Err(e),
                Ok(name) => {
                    self.current_command_name = name;
                    self.seconds_since_last_action =
                    self.seconds_since_last_action_for_next_command;
                    self.seconds_since_last_action_for_next_command = None;
                    Ok(())
                },
            }
        } else if is_line_time_difference(line) {
            match compute_seconds_since_last_action(line) {
                Err(e) => Err(e),
                Ok(seconds) => {
                    self.seconds_since_last_action_for_next_command = Some(seconds);
                    Ok(())
                },
            }
        } else if is_line_recording_start(line) {
            match self.add_current_command_if_available() {
                Err(e) => {
                    return Err(e);
                },
                Ok(()) => {},
            }
            let ghost before = record_view(self.record@);
            self.record.push(Entry::RecordingStart);
            assert(record_view(self.record@) =~= before.push(EntryView::RecordingStart));
            Ok(())
        } else {
            Ok(())
        }
    }

    /// Ends the record: the command that is being read becomes its last
    /// entry.
    pub fn finish(self) -> (r: Result<Vec<Entry>, RecordError>)
        ensures
            match r {
                Ok(record) => match record_flushed(self@) {
                    Ok(flushed) => flushed.record == record_view(record@),
                    Err(_) => false,
                },
                Err(e) => record_flushed(self@) == Err::<RecordReaderView, RecordError>(e),
            },
    {
        let mut parser = self;
        match parser.add_current_command_if_available() {
            Err(e) => Err(e),
            Ok(()) => Ok(parser.record),
        }
    }
}

/// Reads the entries that the lines of a record hold.
pub fn parse_record_lines(lines: &Vec<String>) -> (r: Result<Vec<Entry>, RecordLineError>)
    ensures
        match r {
            Ok(record) => record_of_lines(lines@.map_values(|l: String| l@)) == Ok::<
                Seq<EntryView>,
                RecordLineError,
            >(record_view(record@)),
            Err(e) => record_of_lines(lines@.map_values(|l: String| l@)) == Err::<
                Seq<EntryView>,
                RecordLineError,
            >(e),
        },
{
    let ghost all = lines@.map_values(|l: String| l@);
    let mut parser = RecordParser::new();
    let mut i: usize = 0;
    while i < lines.len()
        invariant
            i <= lines.len(),
            all == lines@.map_values(|l: String| l@),
            record_lines_read(record_start(), all, 0) == record_lines_read(parser@, all, i as int),
        decreases lines.len() - i,
    {
        let line = string_of(&trim_chars(&chars_of(lines[i].as_str())));
        assert(line@ == trim(all[i as int]));
        match parser.parse_line(line.as_str()) {
            Err(error) => {
                return Err(RecordLineError { line_number: i + 1, error });
            },
            Ok(()) => {},
        }
        i += 1;
    }
    match parser.finish() {
        Err(error) => Err(RecordLineError { line_number: lines.len(), error }),
        Ok(record) => Ok(record),
    }
}

} // verus!
