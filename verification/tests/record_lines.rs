use command_recommender::actions::{Argument, BasicAction};
use command_recommender::commands::{compute_string_representation_of_actions, Command, Entry};
use command_recommender::record::{
    compute_command_name_without_prefix, compute_seconds_since_last_action, is_line_action,
    is_line_command_ending, is_line_command_start, is_line_recording_start,
    is_line_time_difference, parse_record_lines, ActionParseError, RecordError, RecordLineError,
    RecordParser,
};

fn lines(text: &[&str]) -> Vec<String> {
    text.iter().map(|l| l.to_string()).collect()
}

fn key(letter: &str) -> BasicAction {
    BasicAction::new("key", vec![Argument::StringArgument(String::from(letter))])
}

#[test]
fn lines_are_told_apart() {
    assert!(is_line_action("{\"name\": \"key\"}"));
    assert!(!is_line_action("Command: x"));
    assert!(is_line_command_start("Command: go left"));
    assert!(!is_line_command_start("Command:"));
    assert!(is_line_recording_start("START"));
    assert!(!is_line_recording_start("START "));
    assert!(is_line_time_difference("T12"));
    assert!(is_line_command_ending("START"));
    assert!(is_line_command_ending("Command: x"));
    assert!(!is_line_command_ending("T12"));
}

#[test]
fn command_names_and_seconds_are_read() {
    assert_eq!(
        compute_command_name_without_prefix("Command: go left"),
        Ok(String::from("go left"))
    );
    assert_eq!(
        compute_command_name_without_prefix("Command: "),
        Err(RecordError::EmptyCommandName)
    );
    assert_eq!(
        compute_command_name_without_prefix("go left"),
        Err(RecordError::MissingCommandPrefix)
    );
    assert_eq!(compute_seconds_since_last_action("T0"), Ok(0));
    assert_eq!(compute_seconds_since_last_action("T4294967295"), Ok(4294967295));
    assert_eq!(
        compute_seconds_since_last_action("T4294967296"),
        Err(RecordError::InvalidTimeDifference)
    );
    assert_eq!(
        compute_seconds_since_last_action("T-1"),
        Err(RecordError::InvalidTimeDifference)
    );
    assert_eq!(
        compute_seconds_since_last_action("12"),
        Err(RecordError::MissingTimePrefix)
    );
}

#[test]
fn a_record_is_read_line_by_line() {
    let record = parse_record_lines(&lines(&[
        "START",
        "Command: go left",
        "  {\"name\": \"key\", \"arguments\": [\"left\"]}",
        "T7",
        "Command: say hello",
        "{\"name\": \"insert\", \"arguments\": [\"hello\"]}",
        "{\"name\": \"key\", \"arguments\": [\"enter\"]}",
        "",
        "START",
        "Command: go left",
        "{\"name\": \"key\", \"arguments\": [\"left\"]}",
    ]))
    .unwrap();
    let expected = vec![
        Entry::RecordingStart,
        Entry::Command(Command::new("go left", vec![key("left")], None)),
        Entry::Command(Command::new(
            "say hello",
            vec![
                BasicAction::new("insert", vec![Argument::StringArgument(String::from("hello"))]),
                key("enter"),
            ],
            Some(7),
        )),
        Entry::RecordingStart,
        Entry::Command(Command::new("go left", vec![key("left")], None)),
    ];
    assert_eq!(record, expected);
}

#[test]
fn the_last_command_is_flushed_at_the_end() {
    let mut parser = RecordParser::new();
    assert_eq!(parser.parse_line("Command: one"), Ok(()));
    assert!(!parser.is_command_found());
    assert_eq!(parser.parse_line("{\"name\": \"key\", \"arguments\": [\"a\"]}"), Ok(()));
    assert!(parser.is_command_found());
    let record = parser.finish().unwrap();
    assert_eq!(record, vec![Entry::Command(Command::new("one", vec![key("a")], None))]);
}

#[test]
fn faulty_records_are_refused_with_the_line() {
    assert_eq!(
        parse_record_lines(&lines(&["{\"name\": \"key\", \"arguments\": [\"a\"]}"])),
        Err(RecordLineError { line_number: 1, error: RecordError::ActionWithoutCommand })
    );
    assert_eq!(
        parse_record_lines(&lines(&["Command: one", "Command: two"])),
        Err(RecordLineError { line_number: 2, error: RecordError::CommandWithoutActions })
    );
    assert_eq!(
        parse_record_lines(&lines(&["Command: one"])),
        Err(RecordLineError { line_number: 1, error: RecordError::CommandWithoutActions })
    );
    assert_eq!(
        parse_record_lines(&lines(&["Command: one", "{\"name\": \"key\", \"arguments\": [[]]}"])),
        Err(RecordLineError {
            line_number: 2,
            error: RecordError::Action(ActionParseError::NestedList)
        })
    );
    assert_eq!(
        parse_record_lines(&lines(&["Tomorrow"])),
        Err(RecordLineError { line_number: 1, error: RecordError::InvalidTimeDifference })
    );
}

#[test]
fn canonical_forms_tell_sequences_apart() {
    let sequences = vec![
        vec![BasicAction::new("insert", vec![Argument::StringArgument(String::from("1"))])],
        vec![BasicAction::new("insert", vec![Argument::IntArgument(1)])],
        vec![BasicAction::new("insert", vec![Argument::StringArgument(String::from("a, b"))])],
        vec![BasicAction::new(
            "insert",
            vec![
                Argument::StringArgument(String::from("a")),
                Argument::StringArgument(String::from("b")),
            ],
        )],
        vec![BasicAction::new("insert", vec![Argument::StringArgument(String::from("a\", \"b"))])],
        vec![BasicAction::new("insert", vec![Argument::BoolArgument(true)])],
        vec![BasicAction::new("insert", vec![Argument::StringArgument(String::from("true"))])],
        vec![key("a"), key("b")],
        vec![key("a")],
        vec![],
    ];
    for (i, a) in sequences.iter().enumerate() {
        for (j, b) in sequences.iter().enumerate() {
            let same = compute_string_representation_of_actions(a)
                == compute_string_representation_of_actions(b);
            assert_eq!(same, i == j);
        }
    }
    assert_eq!(
        compute_string_representation_of_actions(&vec![key("a\"b\\")]),
        "{\"name\": \"key\", \"arguments\": [\"a\\\"b\\\\\"]}"
    );
}
