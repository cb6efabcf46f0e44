use command_recommender::actions::{Argument, BasicAction, TalonCapture};
use command_recommender::record::{load_basic_action_from_json, ActionParseError};

#[test]
fn test_basic_action_string() {
    let action = BasicAction::new(
        "text_action",
        vec![
            Argument::StringArgument(String::from("text")),
            Argument::IntArgument(42),
            Argument::BoolArgument(true),
            Argument::FloatArgument(3.14f64.to_string()),
            Argument::CaptureArgument(TalonCapture::new("capture_name", 1)),
        ],
    );
    let talon_script = String::from("text_action(\"text\", 42, true, 3.14, <capture_name_1>)");
    assert_eq!(action.compute_talon_script(), talon_script);
}

fn assert_actions_match(action: &BasicAction, name: &str, arguments: &Vec<Argument>) {
    assert_eq!(action.get_name(), name, "Action name does not match");
    assert_eq!(
        action.get_arguments().len(),
        arguments.len(),
        "Number of arguments do not match"
    );
    for (i, expected_argument) in arguments.iter().enumerate() {
        let actual_argument = &action.get_arguments()[i];
        assert_eq!(
            expected_argument, actual_argument,
            "Argument at index {} does not match",
            i
        );
    }
}

fn assert_action_matches_expected_from_string(name: &str, arguments: &Vec<Argument>, text: &str) {
    let actual_result = load_basic_action_from_json(text);
    match actual_result {
        Ok(actual) => {
            assert_actions_match(&actual, name, arguments);
        }
        Err(error) => {
            panic!("Error parsing JSON:\n    {:?}", error);
        }
    }
}

#[test]
fn test_insert_action() {
    let name = String::from("insert");
    let arguments = vec![Argument::StringArgument(String::from("text"))];
    let json = r#"{"name": "insert", "arguments": ["text"]}"#;
    assert_action_matches_expected_from_string(&name, &arguments, json);
}

#[test]
fn test_insert_capture_action() {
    let name = String::from("insert");
    let arguments = vec![Argument::CaptureArgument(TalonCapture::new("capture_name", 1))];
    let json = r#"{"name": "insert", "arguments": [{"name": "capture_name", "instance": 1}]}"#;
    assert_action_matches_expected_from_string(&name, &arguments, json);
}

#[test]
fn test_mouse_move_action() {
    let name = String::from("mouse_move");
    let arguments = vec![Argument::IntArgument(100), Argument::IntArgument(200)];
    let json = r#"{"name": "mouse_move", "arguments": [100, 200]}"#;
    assert_action_matches_expected_from_string(&name, &arguments, json);
}

#[test]
fn test_mouse_click_action() {
    let name = String::from("mouse_click");
    let arguments = vec![Argument::IntArgument(1)];
    let json = r#"{"name": "mouse_click", "arguments": [1]}"#;
    assert_action_matches_expected_from_string(&name, &arguments, json);
}

#[test]
fn test_mouse_scroll_action() {
    let name = String::from("mouse_scroll");
    let arguments = vec![
        Argument::IntArgument(0),
        Argument::IntArgument(1),
        Argument::BoolArgument(true),
    ];
    let json = r#"{"name": "mouse_scroll", "arguments": [0, 1, true]}"#;
    assert_action_matches_expected_from_string(&name, &arguments, json);
}

#[test]
fn action_line_errors_are_told_apart() {
    assert_eq!(
        load_basic_action_from_json("{\"name\": \"a\", \"arguments\": [[1]]}").err(),
        Some(ActionParseError::NestedList)
    );
    assert_eq!(
        load_basic_action_from_json("{\"name\": \"a\", \"args\": [1]}").err(),
        Some(ActionParseError::ListWithoutArgumentsKey)
    );
    assert_eq!(
        load_basic_action_from_json("}").err(),
        Some(ActionParseError::ExtraneousClosingBrace)
    );
    assert_eq!(
        load_basic_action_from_json("{\"name\": \"a\"").err(),
        Some(ActionParseError::UnclosedBraces)
    );
    assert_eq!(
        load_basic_action_from_json("{\"name\": \"a").err(),
        Some(ActionParseError::UnclosedString)
    );
    assert_eq!(
        load_basic_action_from_json("{\"name\": \"a\", \"arguments\": [what]}").err(),
        Some(ActionParseError::InvalidElement)
    );
}

#[test]
fn float_elements_keep_their_text() {
    let action = load_basic_action_from_json("{\"name\": \"wait\", \"arguments\": [ 2.5, 1e3, 7]}")
        .unwrap();
    assert_eq!(
        action.get_arguments(),
        &vec![
            Argument::FloatArgument(String::from("2.5")),
            Argument::FloatArgument(String::from("1e3")),
            Argument::IntArgument(7),
        ]
    );
}

#[test]
fn every_fault_of_an_action_line_has_its_error() {
    let cases = [
        ("{\"name\": \"\", \"arguments\": []}", ActionParseError::EmptyValue),
        ("{\"name\": \"a\", \"name\": \"b\", \"arguments\": []}", ActionParseError::MultipleNames),
        (
            "{\"name\": \"a\", \"arguments\": [{\"instance\": 1, \"instance\": 2}]}",
            ActionParseError::MultipleInstances,
        ),
        (
            "{\"name\": \"a\", \"arguments\": [{\"name\": \"c\", \"instance\": x}]}",
            ActionParseError::InvalidInstance,
        ),
        (
            "{\"name\": \"a\", \"arguments\": [{\"name\": \"c\", \"instance\": -2}]}",
            ActionParseError::NegativeInstance,
        ),
        ("{\"name\": \"a\", \"other\": \"b\"}", ActionParseError::KeyWithoutList),
        ("{\"name\": \"a\", \"arguments\": [1, maybe]}", ActionParseError::InvalidElement),
        ("{\"name\": \"a\", \"arguments\": [1, [2]]}", ActionParseError::NestedList),
        ("{\"name\": \"a\", \"list\": [1]}", ActionParseError::ListWithoutArgumentsKey),
        ("{{\"arguments\": [1]}}", ActionParseError::ListOutsideObject),
        ("{\"name\": \"a\", \"arguments\": []}}", ActionParseError::ExtraneousClosingBrace),
        ("{\"name\": \"a\"]", ActionParseError::ClosingBracketWithoutList),
        ("{\"a\": \"b\": \"c\"}", ActionParseError::ColonWithKey),
        ("\"a\": 1", ActionParseError::ColonOutsideObject),
        ("{\"name\": \"a", ActionParseError::UnclosedString),
        ("{\"name\": \"a\", \"arguments\": [1]", ActionParseError::UnclosedBraces),
        ("{\"arguments\": [1}", ActionParseError::UnclosedList),
        ("{\"name\": \"a\", \"arguments\": [1]} \"x\"", ActionParseError::IncompletePair),
    ];
    for (line, error) in cases {
        assert_eq!(load_basic_action_from_json(line).err(), Some(error), "{}", line);
    }
}

#[test]
fn strings_and_captures_of_an_action_line() {
    let action = load_basic_action_from_json(
        "  {\"name\": \"say\", \"arguments\": ['it\\'s', \"a \\\"b\\\" \\\\\", {\"name\": \"user.text\", \"instance\": 2}, false, -7]}  ",
    )
    .unwrap();
    assert_eq!(action.get_name(), "say");
    assert_eq!(
        action.get_arguments(),
        &vec![
            Argument::StringArgument(String::from("it's")),
            Argument::StringArgument(String::from("a \"b\" \\")),
            Argument::CaptureArgument(TalonCapture::new("user.text", 2)),
            Argument::BoolArgument(false),
            Argument::IntArgument(-7),
        ]
    );
    let capture = TalonCapture::new("user.text", 2);
    assert_eq!(capture.compute_string_representation(), "user.text_2");
    assert_eq!(capture.compute_command_component(), "<user.text_2>");
    assert_eq!(capture.to_json(), "{\"name\": \"user.text\", \"instance\": 2}");
    assert_eq!(capture.clone(), capture);
    assert_eq!(
        action.to_json(),
        "{\"name\": \"say\", \"arguments\": [\"it's\", \"a \\\"b\\\" \\\\\", {\"name\": \"user.text\", \"instance\": 2}, false, -7]}"
    );
    assert_eq!(
        action.compute_arguments_converted_to_talon_script_string(),
        vec!["\"it's\"", "\"a \\\"b\\\" \\\"", "<user.text_2>", "false", "-7"]
    );
}

#[test]
fn written_actions_are_read_back() {
    let actions = vec![
        BasicAction::new("insert", vec![Argument::StringArgument(String::from("a \"b\" \\ 'c', d"))]),
        BasicAction::new(
            "mouse",
            vec![
                Argument::IntArgument(-2147483648),
                Argument::BoolArgument(true),
                Argument::CaptureArgument(TalonCapture::new("user.text", 1)),
                Argument::StringArgument(String::from("{[x]}: ")),
                Argument::IntArgument(0),
            ],
        ),
        BasicAction::new("wait", vec![Argument::FloatArgument(String::from("2.5"))]),
        BasicAction::new("stop", vec![]),
    ];
    for action in actions {
        assert_eq!(load_basic_action_from_json(&action.to_json()), Ok(action));
    }
}
