use command_recommender::actions::{Argument, BasicAction, TalonCapture};
use command_recommender::output::{format_numbered_actions, format_recommendations};
use command_recommender::filtering::{
    filter_out_recommendations, filter_out_recommendations_containing_action,
    filter_out_recommendations_containing_actions,
    filter_out_recommendations_with_action_matching_filter,
};
use command_recommender::generation::{ActionSet, CommandStatistics};
use command_recommender::ordering::{
    compare_information, create_sorted_info, sort_recommendations, SortKey,
};
use command_recommender::refinement::{
    find_actions_to_remove, perform_removals, RefinementSession,
};
use command_recommender::user_command_parsing::{UserCommand, UserCommandError};

fn key(letter: &str) -> BasicAction {
    BasicAction::new("key", vec![Argument::StringArgument(String::from(letter))])
}

fn candidate(actions: Vec<BasicAction>, used: usize, saved: u32) -> CommandStatistics {
    CommandStatistics {
        number_of_times_used: used,
        number_of_words_saved: saved,
        instantiation_set: None,
        number_of_actions: actions.len(),
        actions,
        total_number_of_words_dictated: 0,
    }
}

fn answer(text: &str) -> UserCommand {
    UserCommand::new(text.to_string()).unwrap()
}

#[test]
fn answers_are_read() {
    assert!(answer("").encountered_no);
    assert!(answer("   ").encountered_no);
    assert_eq!(UserCommand::new("yn".to_string()), Err(UserCommandError::AcceptAndReject));
    assert_eq!(
        UserCommand::new("yx".to_string()),
        Err(UserCommandError::InvalidCharacter('x'))
    );
    assert_eq!(UserCommand::new("d".to_string()), Err(UserCommandError::MissingActionNumber));
    assert_eq!(
        UserCommand::new("r".to_string()),
        Err(UserCommandError::MissingPersistentActionNumber)
    );
    assert_eq!(
        UserCommand::new("r three".to_string()),
        Err(UserCommandError::InvalidActionNumber)
    );
    assert_eq!(UserCommand::new("y 1 2".to_string()), Err(UserCommandError::TooManyWords));
    let both = answer("cay");
    assert!(both.encountered_yes);
    assert!(both.encountered_reject_command_persistently);
    assert!(both.encountered_accept_the_rest_of_the_commands);
    assert!(!both.encountered_no);
}

#[test]
fn rejecting_an_action_for_good_keeps_the_candidate() {
    let recommendation = candidate(vec![key("a"), key("b"), key("c")], 2, 3);
    let mut session = RefinementSession::new();
    assert!(session.consider(&recommendation));
    let settled = session.apply_user_command(&recommendation, &answer("r 3"));
    assert!(!settled);
    assert_eq!(session.to_persistently_reject_actions, vec![key("c")]);
    assert!(session.to_remove_containing.contains_action(&key("c")));
    assert_eq!(session.to_remove.get_size(), 0);
    assert!(session.is_satisfied());
    // with n as well, the candidate is removed
    let settled = session.apply_user_command(&recommendation, &answer("n"));
    assert!(settled);
    assert!(session.to_remove.contains(&recommendation.actions));
    assert!(!session.is_satisfied());
}

#[test]
fn answers_change_the_session() {
    let first = candidate(vec![key("a")], 2, 3);
    let second = candidate(vec![key("b")], 2, 3);
    let third = candidate(vec![key("c"), key("d")], 2, 3);
    let mut session = RefinementSession::new();
    assert!(session.apply_user_command(&first, &answer("y")));
    assert!(session.to_keep.contains(&first.actions));
    assert!(!session.consider(&first));
    assert!(session.apply_user_command(&second, &answer("nc")));
    assert_eq!(session.to_persistently_reject_commands, vec![second.actions.clone()]);
    assert!(!session.apply_user_command(&third, &answer("d 2")));
    assert!(session.to_remove_containing.contains_action(&key("d")));
    assert!(session.to_persistently_reject_actions.is_empty());
    // an action number that the candidate does not have changes nothing
    assert!(!session.apply_user_command(&third, &answer("d 7")));
    assert_eq!(session.to_remove_containing.get_size(), 1);
    assert!(session.apply_user_command(&third, &answer("a")));
    // from now on every candidate is accepted unasked
    assert!(!session.consider(&third));
    assert!(session.to_keep.contains(&third.actions));
}

#[test]
fn removals_keep_what_was_accepted() {
    let mut recommendations = vec![
        candidate(vec![key("a")], 2, 3),
        candidate(vec![key("b")], 2, 3),
        candidate(vec![key("c"), key("d")], 2, 3),
        candidate(vec![key("d")], 2, 3),
        candidate(vec![key("e")], 2, 3),
    ];
    let mut session = RefinementSession::new();
    session.apply_user_command(&recommendations[3], &answer("y"));
    session.apply_user_command(&recommendations[1], &answer("n"));
    session.apply_user_command(&recommendations[2], &answer("d 2"));
    session.apply_user_command(&recommendations[4], &answer("y"));
    let mut start = vec![0];
    perform_removals(&mut start, &mut recommendations, &session);
    let kept: Vec<Vec<BasicAction>> = recommendations.iter().map(|r| r.actions.clone()).collect();
    // b was removed; c, d holds the rejected d; d alone was accepted and stays
    assert_eq!(kept, vec![vec![key("a")], vec![key("d")], vec![key("e")]]);
    assert_eq!(start, vec![1, 2]);
    session.begin_round();
    assert!(session.is_satisfied());
    assert_eq!(session.to_remove_containing.get_size(), 0);
    assert!(session.to_keep.contains(&vec![key("d")]));
}

#[test]
fn numbered_actions_count_from_one() {
    let recommendation = candidate(vec![key("a"), key("b")], 2, 3);
    assert_eq!(find_actions_to_remove(Some(1), &recommendation), Some(key("a")));
    assert_eq!(find_actions_to_remove(Some(2), &recommendation), Some(key("b")));
    assert_eq!(find_actions_to_remove(Some(0), &recommendation), None);
    assert_eq!(find_actions_to_remove(Some(3), &recommendation), None);
    assert_eq!(find_actions_to_remove(None, &recommendation), None);
}

#[test]
fn recommendations_are_filtered() {
    let recommendations = vec![
        candidate(vec![key("a")], 2, 3),
        candidate(vec![key("b"), key("c")], 5, 3),
        candidate(vec![key("c")], 2, 9),
    ];
    let used_twice = filter_out_recommendations(recommendations.clone(), |r| {
        r.number_of_times_used == 2
    });
    assert_eq!(used_twice.len(), 1);
    assert_eq!(used_twice[0].actions, vec![key("b"), key("c")]);
    let without_c = filter_out_recommendations_with_action_matching_filter(
        recommendations.clone(),
        |a| a.get_arguments() == &vec![Argument::StringArgument(String::from("c"))],
    );
    assert_eq!(without_c.len(), 1);
    assert_eq!(without_c[0].actions, vec![key("a")]);
    let also = filter_out_recommendations_containing_action(recommendations.clone(), &key("c"));
    assert_eq!(also.len(), 1);
    let mut rejected = ActionSet::new();
    rejected.insert_action(&key("a"));
    rejected.insert_action(&key("b"));
    let only_c = filter_out_recommendations_containing_actions(recommendations, &rejected);
    assert_eq!(only_c.len(), 1);
    assert_eq!(only_c[0].actions, vec![key("c")]);
}

#[test]
fn recommendations_are_ordered() {
    let mut recommendations = vec![
        candidate(vec![key("a")], 2, 3),
        candidate(vec![key("b")], 5, 1),
        candidate(vec![key("c")], 2, 9),
        candidate(vec![key("d")], 7, 3),
    ];
    create_sorted_info(&mut recommendations);
    let order: Vec<Vec<BasicAction>> = recommendations.iter().map(|r| r.actions.clone()).collect();
    assert_eq!(order, vec![vec![key("d")], vec![key("b")], vec![key("a")], vec![key("c")]]);
    sort_recommendations(&mut recommendations, SortKey::WordsSaved);
    let order: Vec<Vec<BasicAction>> = recommendations.iter().map(|r| r.actions.clone()).collect();
    assert_eq!(order, vec![vec![key("c")], vec![key("d")], vec![key("a")], vec![key("b")]]);
    assert!(compare_information(&recommendations[1], &recommendations[0]));
    assert!(!compare_information(&recommendations[0], &recommendations[1]));
}

#[test]
fn recommendations_are_written_out() {
    let mut instantiations = ActionSet::new();
    instantiations.insert(&vec![key("a")]);
    instantiations.insert(&vec![key("b")]);
    let mut capture = TalonCapture::new("number_small", 1);
    capture.set_postfix(" - 1");
    let recommendations = vec![
        CommandStatistics {
            actions: vec![
                BasicAction::new(
                    "insert",
                    vec![Argument::StringArgument(String::from("say \"hi\""))],
                ),
                BasicAction::new("repeat", vec![Argument::CaptureArgument(capture)]),
            ],
            number_of_times_used: 12,
            number_of_actions: 2,
            total_number_of_words_dictated: 40,
            number_of_words_saved: 7,
            instantiation_set: Some(instantiations),
        },
        candidate(vec![BasicAction::new("mouse_move", vec![Argument::IntArgument(-3), Argument::BoolArgument(false)])], 2, 0),
    ];
    assert_eq!(
        format_recommendations(&recommendations),
        "#Number of times used: 12\n#Number of words saved: 7\nNumber of instantiations of abstract command: 2\ninsert(\"say \\\"hi\\\"\")\nrepeat(<number_small_1> - 1)\n\n\n#Number of times used: 2\n#Number of words saved: 0\nmouse_move(-3, false)\n\n\n"
    );
    assert_eq!(
        format_numbered_actions(&recommendations[0]),
        "1. insert(\"say \\\"hi\\\"\")\n2. repeat(<number_small_1> - 1)"
    );
    assert_eq!(format_recommendations(&vec![]), "");
}
