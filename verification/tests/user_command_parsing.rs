use command_recommender::user_command_parsing::UserCommand;
use std::collections::HashSet;

fn compute_persistent_rejection_string(action_number: usize) -> String {
    format!("reject_action_persistently_{}", action_number)
}
fn compute_rejection_string(action_number: usize) -> String {
    format!("reject_action_{}", action_number)
}
fn compute_flags(command: &UserCommand) -> HashSet<String> {
    let mut flags = HashSet::new();
    if command.encountered_no {
        flags.insert("no".to_string());
    }
    if command.encountered_yes {
        flags.insert("yes".to_string());
    }
    if command.encountered_reject_command_persistently {
        flags.insert("reject_command_persistently".to_string());
    }
    if let Some(action_number) = command.action_number_to_reject {
        flags.insert(compute_rejection_string(action_number));
    }
    if let Some(action_number) = command.action_number_reject_persistently {
        flags.insert(compute_persistent_rejection_string(action_number));
    }
    if command.encountered_accept_the_rest_of_the_commands {
        flags.insert("accept_the_rest_of_the_commands".to_string());
    }
    flags
}

fn assert_input_has_flags(input: &str, expected_flags: &HashSet<String>) {
    let command = UserCommand::new(input.to_string()).unwrap();
    let flags = compute_flags(&command);
    assert_eq!(flags, *expected_flags);
}

fn assert_error(input: &str) {
    let result = UserCommand::new(input.to_string());
    assert!(result.is_err(), "Expected an error for input: {}", input);
}

#[test]
fn handles_empty() {
    let input = "";
    let expected_flags = HashSet::from(["no".to_string()]);
    assert_input_has_flags(&input, &expected_flags);
}

#[test]
fn rejects_two_spaces() {
    let input = "yr 3 9";
    assert_error(input);
}

#[test]
fn handles_yes() {
    let input = "y";
    let expected_flags = HashSet::from(["yes".to_string()]);
    assert_input_has_flags(&input, &expected_flags);
}

#[test]
fn rejects_yes_and_no() {
    let input = "yn";
    assert_error(input);
}

#[test]
fn handles_no() {
    let input = "n";
    let expected_flags = HashSet::from(["no".to_string()]);
    assert_input_has_flags(&input, &expected_flags);
}

#[test]
fn handles_persistently_reject_number_one() {
    let input = "r 1";
    let expected_flags = HashSet::from([compute_persistent_rejection_string(1).to_string()]);
    assert_input_has_flags(&input, &expected_flags);
}

#[test]
fn handles_reject_number_two() {
    let input = "d 2";
    let expected_flags = HashSet::from([compute_rejection_string(2).to_string()]);
    assert_input_has_flags(&input, &expected_flags);
}

