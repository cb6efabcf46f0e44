use command_recommender::actions::{Argument, BasicAction, TalonCapture};
use command_recommender::commands::{create_insert_action, Command, CommandChain, Entry};
use command_recommender::generation::{
    compute_recommendations_from_record, make_abstract_repeat_representation_for,
    should_make_abstract_repeat_representation, simplify_command_chain, ActionSet, ChainHandler,
    CommandStatistics, PotentialCommandInformation,
};

fn key(letter: &str) -> BasicAction {
    BasicAction::new("key", vec![Argument::StringArgument(String::from(letter))])
}

fn repeat(count: i32) -> BasicAction {
    BasicAction::new("repeat", vec![Argument::IntArgument(count)])
}

fn chain(name: &str, actions: Vec<BasicAction>) -> CommandChain {
    CommandChain::new(Command::new(name, actions, None), 0, 1)
}

fn simplified_actions(actions: Vec<BasicAction>) -> Vec<BasicAction> {
    simplify_command_chain(&chain("name", actions))
        .get_command()
        .get_actions()
        .clone()
}

#[test]
fn simplify_fuses_inserts_and_repetitions() {
    let simplified = simplified_actions(vec![
        create_insert_action("foo"),
        create_insert_action("bar"),
        key("a"),
        key("a"),
        key("a"),
        create_insert_action("x"),
    ]);
    assert_eq!(
        simplified,
        vec![create_insert_action("foobar"), key("a"), repeat(2), create_insert_action("x")]
    );
}

#[test]
fn simplify_keeps_name_start_and_size() {
    let unsimplified = CommandChain::new(
        Command::new("say it twice", vec![key("a"), key("a")], Some(7)),
        4,
        2,
    );
    let simplified = simplify_command_chain(&unsimplified);
    assert_eq!(simplified.get_command().get_name(), "say it twice");
    assert_eq!(simplified.get_command().get_seconds_since_last_action(), Some(7));
    assert_eq!(simplified.get_chain_number(), 4);
    assert_eq!(simplified.get_size(), 2);
    assert_eq!(simplified.get_chain_ending_index(), 5);
    assert_eq!(simplified.get_command().get_actions(), &vec![key("a"), repeat(1)]);
}

#[test]
fn simplify_leaves_out_inserts_of_nothing() {
    assert_eq!(
        simplified_actions(vec![create_insert_action(""), key("a"), create_insert_action("")]),
        vec![key("a")]
    );
}

#[test]
fn simplifying_twice_changes_nothing_more() {
    let inputs = vec![
        vec![
            create_insert_action("foo"),
            create_insert_action("bar"),
            key("a"),
            key("a"),
            key("a"),
            create_insert_action("x"),
        ],
        vec![key("a"), key("b"), key("b"), key("a"), key("a")],
        vec![create_insert_action("a"), create_insert_action("a"), key("b")],
        vec![],
    ];
    for input in inputs {
        let once = simplified_actions(input);
        let twice = simplified_actions(once.clone());
        assert_eq!(once, twice);
    }
}

#[test]
fn abstract_repeat_of_three_equal_actions() {
    let unsimplified = chain("type x three times", vec![key("x"), key("x"), key("x")]);
    let simplified = simplify_command_chain(&unsimplified);
    assert_eq!(simplified.get_command().get_actions(), &vec![key("x"), repeat(2)]);
    assert!(should_make_abstract_repeat_representation(&simplified));
    let abstraction = make_abstract_repeat_representation_for(&simplified);
    assert_eq!(
        abstraction.command_chain.get_command().get_name(),
        "type x three times <number_small_1>"
    );
    let mut capture = TalonCapture::new("number_small", 1);
    capture.set_postfix(" - 1");
    assert_eq!(
        abstraction.command_chain.get_command().get_actions(),
        &vec![key("x"), BasicAction::new("repeat", vec![Argument::CaptureArgument(capture)])]
    );
    assert_eq!(
        abstraction.command_chain.get_command().get_actions()[1].compute_talon_script(),
        "repeat(<number_small_1> - 1)"
    );
    assert_eq!(abstraction.words_saved, 2);
    assert_eq!(abstraction.concrete_command.get_command().get_actions(), &vec![key("x"), repeat(2)]);
}

#[test]
fn two_equal_actions_are_not_made_abstract() {
    let simplified = simplify_command_chain(&chain("twice", vec![key("x"), key("x")]));
    assert!(!should_make_abstract_repeat_representation(&simplified));
}

#[test]
fn a_chain_counts_only_after_the_last_counted_one() {
    let handler = ChainHandler::new();
    assert!(handler.should_process_usage(0));
    let mut info = PotentialCommandInformation::new(vec![key("a")]);
    let first = CommandChain::new(Command::new("one two", vec![key("a")], None), 3, 2);
    info.process_usage(&first);
    assert_eq!(info.get_statistics().number_of_times_used, 1);
    assert_eq!(info.get_statistics().total_number_of_words_dictated, 2);
    assert!(!info.should_process_usage(4));
    assert!(info.should_process_usage(5));
    // begins at 4, where the last counted chain ended: not counted
    info.process_usage(&CommandChain::new(Command::new("x", vec![key("a")], None), 4, 1));
    assert_eq!(info.get_statistics().number_of_times_used, 1);
    // begins at 6: counted
    info.process_usage(&CommandChain::new(Command::new("x y z", vec![key("a")], None), 6, 1));
    assert_eq!(info.get_statistics().number_of_times_used, 2);
    assert_eq!(info.get_statistics().total_number_of_words_dictated, 5);
    info.compute_number_of_words_saved();
    // two uses, two whole words on average: 2 * (2 - 1)
    assert_eq!(info.get_statistics().number_of_words_saved, 2);
}

#[test]
fn action_sets_hold_each_sequence_once() {
    let mut set = ActionSet::new();
    assert_eq!(set.get_size(), 0);
    set.insert(&vec![key("a"), key("b")]);
    set.insert(&vec![key("a"), key("b")]);
    set.insert(&vec![key("a")]);
    assert_eq!(set.get_size(), 2);
    assert!(set.contains(&vec![key("a")]));
    assert!(!set.contains(&vec![key("b")]));
    assert!(set.contains_action(&key("a")));
    set.insert_action(&key("b"));
    assert!(set.contains(&vec![key("b")]));
    assert_eq!(set.clone().get_size(), 3);
}

#[test]
fn a_chain_that_shares_a_command_with_the_last_counted_one_is_not_counted() {
    let pair = vec![key("a"), key("a")];
    let mut info = PotentialCommandInformation::new(pair.clone());
    // three equal commands at 0, 1 and 2: the chains 0..1 and 1..2 share command 1
    info.process_usage(&CommandChain::new(Command::new("go now go now", pair.clone(), None), 0, 2));
    assert_eq!(info.get_statistics().number_of_times_used, 1);
    assert_eq!(info.get_statistics().total_number_of_words_dictated, 4);
    assert!(!info.should_process_usage(1));
    info.process_usage(&CommandChain::new(Command::new("go now go now", pair.clone(), None), 1, 2));
    assert_eq!(info.get_statistics().number_of_times_used, 1);
    assert_eq!(info.get_statistics().total_number_of_words_dictated, 4);
    // a chain that begins before the last counted end and ends after it is not counted either
    info.process_usage(&CommandChain::new(Command::new("go now go now", pair.clone(), None), 1, 5));
    assert_eq!(info.get_statistics().number_of_times_used, 1);
    info.process_usage(&CommandChain::new(Command::new("go now go now", pair, None), 2, 2));
    assert_eq!(info.get_statistics().number_of_times_used, 2);
    assert_eq!(info.get_statistics().total_number_of_words_dictated, 8);
}

fn command(name: &str, actions: Vec<BasicAction>) -> Entry {
    Entry::Command(Command::new(name, actions, None))
}

fn find<'a>(
    recommendations: &'a Vec<CommandStatistics>,
    actions: &Vec<BasicAction>,
) -> Option<&'a CommandStatistics> {
    recommendations.iter().find(|r| &r.actions == actions)
}

#[test]
fn usage_counts_chains_that_end_later() {
    // "go left now" twice in a row, three times over, parted by recording starts.
    let mut record = Vec::new();
    for _ in 0..3 {
        record.push(command("go left now", vec![key("left"), key("home")]));
        record.push(command("go left now", vec![key("left"), key("home")]));
        record.push(Entry::RecordingStart);
    }
    let recommendations = compute_recommendations_from_record(&record, 1);
    let single = find(&recommendations, &vec![key("left"), key("home")]).unwrap();
    // one chain ends at each of the six commands
    assert_eq!(single.number_of_times_used, 6);
    assert_eq!(single.total_number_of_words_dictated, 18);
    assert_eq!(single.number_of_words_saved, 6 * (3 - 1));
    assert_eq!(single.number_of_actions, 2);
    assert!(single.instantiation_set.is_none());

    let recommendations = compute_recommendations_from_record(&record, 2);
    let double = find(
        &recommendations,
        &vec![key("left"), key("home"), key("left"), key("home")],
    )
    .unwrap();
    // the pairs do not cross a recording start
    assert_eq!(double.number_of_times_used, 3);
    assert_eq!(double.total_number_of_words_dictated, 18);
}

#[test]
fn counted_chains_share_no_command() {
    // six equal commands in a row: of the pairs that begin at 0, 1, 2, 3 and 4,
    // those at 0, 2 and 4 are counted
    let mut record = Vec::new();
    for _ in 0..6 {
        record.push(command("go left now", vec![key("left"), key("home")]));
    }
    let recommendations = compute_recommendations_from_record(&record, 2);
    let double = find(
        &recommendations,
        &vec![key("left"), key("home"), key("left"), key("home")],
    )
    .unwrap();
    assert_eq!(double.number_of_times_used, 3);
    assert_eq!(double.total_number_of_words_dictated, 18);
    let single = find(&recommendations, &vec![key("left"), key("home")]).unwrap();
    assert_eq!(single.number_of_times_used, 6);
}

#[test]
fn chains_stop_at_long_pauses() {
    let late = Entry::Command(Command::new("b", vec![key("b")], Some(301)));
    let soon = Entry::Command(Command::new("b", vec![key("b")], Some(300)));
    let first = command("a", vec![key("a")]);
    let pair = vec![key("a"), key("b")];
    let record = vec![first.clone(), late.clone(), first.clone(), late.clone()];
    let none = compute_recommendations_from_record(&record, 2);
    assert!(find(&none, &pair).is_none());
    let record = vec![first.clone(), soon.clone(), first.clone(), soon.clone()];
    let some = compute_recommendations_from_record(&record, 2);
    assert_eq!(find(&some, &pair).map(|c| c.number_of_times_used), Some(2));
}

#[test]
fn prose_in_an_insert_gives_an_abstract_candidate() {
    let phrases = ["big apple", "red car", "old house", "new moon"];
    let mut record = Vec::new();
    for phrase in phrases {
        let text = phrase.replace(' ', "_");
        record.push(command(
            &format!("snake case {}", phrase),
            vec![create_insert_action(&format!("let {} = 1;", text))],
        ));
    }
    let recommendations = compute_recommendations_from_record(&record, 1);
    let wanted = vec![
        create_insert_action("let "),
        BasicAction::new(
            "user.fire_chicken_auto_generated_command_action_insert_formatted_text",
            vec![
                Argument::CaptureArgument(TalonCapture::new("user.text", 1)),
                Argument::StringArgument(String::from("lower")),
                Argument::StringArgument(String::from("_")),
            ],
        ),
        create_insert_action(" = 1;"),
    ];
    let found = find(&recommendations, &wanted).unwrap();
    assert_eq!(found.number_of_times_used, 4);
    assert_eq!(found.instantiation_set.as_ref().map(|s| s.get_size()), Some(4));
    // "snake case <user.text>" has three words: one is saved with each use
    assert_eq!(found.total_number_of_words_dictated, 12);
    assert_eq!(found.number_of_words_saved, 4);
    // the candidates for one word of the prose were used once each
    let one_word = vec![
        create_insert_action("let big_"),
        BasicAction::new(
            "user.fire_chicken_auto_generated_command_action_insert_formatted_text",
            vec![
                Argument::CaptureArgument(TalonCapture::new("user.text", 1)),
                Argument::StringArgument(String::from("lower")),
                Argument::StringArgument(String::new()),
            ],
        ),
        create_insert_action(" = 1;"),
    ];
    assert!(find(&recommendations, &one_word).is_none());
}

#[test]
fn an_empty_record_gives_nothing() {
    assert!(compute_recommendations_from_record(&vec![], 20).is_empty());
    assert!(compute_recommendations_from_record(&vec![Entry::RecordingStart], 20).is_empty());
}
