use command_recommender::actions::{Argument, BasicAction, TalonCapture};
use command_recommender::commands::{create_insert_action, Command, CommandChain};
use command_recommender::generation::{
    create_abstract_commands, handle_needed_abstract_commands,
    make_abstract_prose_representations_for_command, obtain_inserts_from_command_chain,
    AbstractCommands,
};
use command_recommender::text_separation::{
    compute_case, compute_case_string_for_prose, has_valid_case, TextSeparation,
    TextSeparationAnalyzer,
};

fn analyzer(text: &str, prose: &str) -> TextSeparationAnalyzer {
    let mut analyzer = TextSeparationAnalyzer::new_from_text(text);
    analyzer.search_for_prose_in_separated_part(prose);
    analyzer
}

#[test]
fn prose_across_parts_is_found() {
    let found = analyzer("This_is_a_test", "this is a test");
    assert!(found.has_found_prose());
    assert_eq!(found.get_prose_index(), Some(0));
    assert_eq!(found.get_prose_beginning_index(), Some(0));
    assert_eq!(found.get_prose_ending_index(), Some(4));
    assert!(found.is_prose_separator_consistent());
    assert_eq!(found.get_first_prose_separator(), "_");
    assert_eq!(
        found.compute_prose_portion_of_text(),
        vec!["This", "is", "a", "test"]
    );
    assert_eq!(compute_case_string_for_prose(&found), "capitalized lower");
    assert_eq!(found.compute_matched_text(), "This_is_a_test");
}

#[test]
fn prose_that_is_not_there_is_not_found() {
    let missing = analyzer("This_is_a_test", "this is a test today");
    assert!(!missing.has_found_prose());
    assert_eq!(missing.get_prose_index(), None);
    assert_eq!(missing.get_prose_beginning_index(), None);
    assert_eq!(missing.get_prose_ending_index(), None);
}

#[test]
fn text_is_what_stands_before_in_and_after_the_prose() {
    let cases = [
        ("_This is_a!test today", "a test"),
        ("_This is_a!test today", "is a"),
        ("test", "st"),
        ("yes_forrealthis_is_a_testrighthere_", "this is a testr"),
        ("yesthisIsaTESThere", "this is a test"),
        ("let big_apple = 1;", "big apple"),
        ("--Trailing--", "trailing"),
    ];
    for (text, prose) in cases {
        let found = analyzer(text, prose);
        assert!(found.has_found_prose());
        let whole = format!(
            "{}{}{}",
            found.compute_text_before_prose(),
            found.compute_matched_text(),
            found.compute_text_after_prose()
        );
        assert_eq!(whole, text);
    }
}

#[test]
fn words_are_lower_upper_capitalized_or_invalid() {
    assert_eq!(compute_case("word"), Some(String::from("lower")));
    assert_eq!(compute_case("WORD"), Some(String::from("upper")));
    assert_eq!(compute_case("Word"), Some(String::from("capitalized")));
    assert_eq!(compute_case(""), Some(String::from("lower")));
    assert_eq!(compute_case("wORD"), None);
    assert_eq!(compute_case("WoRd"), None);
    assert_eq!(compute_case("w0rd"), None);
    let mixed = analyzer("say heLLo there", "hello");
    assert!(mixed.has_found_prose());
    assert!(!has_valid_case(&mixed));
    let plain = analyzer("say Hello there", "hello");
    assert!(has_valid_case(&plain));
    for component in compute_case_string_for_prose(&analyzer("aBc Def GHI jkl", "def ghi jkl"))
        .split(' ')
    {
        assert!(["lower", "upper", "capitalized"].contains(&component));
    }
}

#[test]
fn texts_are_taken_apart() {
    let separation = TextSeparation::new_from_text("__ab--cd!");
    assert_eq!(separation.get_prefix(), "__");
    assert_eq!(separation.get_separated_parts(), &vec!["ab", "cd"]);
    assert_eq!(separation.get_separators(), &vec!["--", "!"]);
    let empty = TextSeparation::new_from_text("");
    assert_eq!(empty.get_prefix(), "");
    assert!(empty.get_separated_parts().is_empty());
    assert!(empty.get_separators().is_empty());
    let ending = TextSeparation::new_from_text("abc_");
    assert_eq!(ending.get_prefix(), "");
    assert_eq!(ending.get_separated_parts(), &vec!["abc"]);
    assert_eq!(ending.get_separators(), &vec!["_"]);
    let digits = TextSeparation::new("ab12cd3", |c: char| c.is_ascii_digit());
    assert_eq!(digits.get_prefix(), "ab");
    assert_eq!(digits.get_separated_parts(), &vec!["12", "3"]);
    assert_eq!(digits.get_separators(), &vec!["cd"]);
    let with_filter = TextSeparationAnalyzer::new("a1b", |c: char| c.is_ascii_digit());
    assert!(with_filter.is_entire_text_separator_consistent());
    assert!(with_filter.is_separator_consistent(0, 0));
}

fn key(letter: &str) -> BasicAction {
    BasicAction::new("key", vec![Argument::StringArgument(String::from(letter))])
}

fn formatted(case: &str, separator: &str) -> BasicAction {
    BasicAction::new(
        "user.fire_chicken_auto_generated_command_action_insert_formatted_text",
        vec![
            Argument::CaptureArgument(TalonCapture::new("user.text", 1)),
            Argument::StringArgument(String::from(case)),
            Argument::StringArgument(String::from(separator)),
        ],
    )
}

#[test]
fn every_size_of_phrase_is_tried() {
    // the first word alone is found in a part with an invalid case; the two
    // words together are found further on
    let chain = CommandChain::new(
        Command::new("this is", vec![create_insert_action("thIs_this_is")], None),
        0,
        1,
    );
    let prose = make_abstract_prose_representations_for_command(&chain, 10);
    let whole = prose
        .iter()
        .find(|i| i.command_chain.get_command().get_name() == "<user.text>")
        .unwrap();
    assert_eq!(
        whole.command_chain.get_command().get_actions(),
        &vec![create_insert_action("thIs_"), formatted("lower", "_")]
    );
}

#[test]
fn abstract_chains_of_a_chain() {
    let chain = CommandChain::new(
        Command::new(
            "camel big apple twice",
            vec![create_insert_action("x = bigApple;"), key("enter"), BasicAction::new("repeat", vec![Argument::IntArgument(1)])],
            None,
        ),
        3,
        1,
    );
    let inserts = obtain_inserts_from_command_chain(&chain);
    assert_eq!(inserts.len(), 1);
    assert_eq!(inserts[0].index, 0);
    assert_eq!(inserts[0].text, "x = bigApple;");
    let prose = make_abstract_prose_representations_for_command(&chain, 10);
    let names: Vec<&str> = prose
        .iter()
        .map(|i| i.command_chain.get_command().get_name())
        .collect();
    assert_eq!(
        names,
        vec!["camel <user.text> apple twice", "camel <user.text> twice", "camel big <user.text> twice"]
    );
    assert_eq!(
        prose[1].command_chain.get_command().get_actions(),
        &vec![
            create_insert_action("x = "),
            formatted("lower capitalized", ""),
            create_insert_action(";"),
            key("enter"),
            BasicAction::new("repeat", vec![Argument::IntArgument(1)]),
        ]
    );
    assert_eq!(prose[1].words_saved, 1);
    assert_eq!(prose[1].concrete_command.get_command().get_name(), "camel big apple twice");
    // with one word at most, the phrase of two words is not looked for
    assert_eq!(make_abstract_prose_representations_for_command(&chain, 1).len(), 2);
    let all = create_abstract_commands(&chain);
    assert_eq!(all.len(), 4);
    assert_eq!(
        all[3].command_chain.get_command().get_name(),
        "camel big apple twice <number_small_1>"
    );
    let mut table = AbstractCommands::new();
    handle_needed_abstract_commands(&mut table, &chain);
    assert_eq!(table.get_candidates().len(), 4);
    // the same chain again begins before the last counted chain ended
    handle_needed_abstract_commands(&mut table, &chain);
    assert_eq!(table.get_candidates().len(), 4);
    for candidate in table.get_candidates() {
        assert_eq!(candidate.get_statistics().number_of_times_used, 1);
        assert_eq!(candidate.get_number_of_instantiations(), 1);
    }
    let later = CommandChain::new(
        Command::new("camel red car twice", vec![create_insert_action("x = redCar;"), key("enter"), BasicAction::new("repeat", vec![Argument::IntArgument(1)])], None),
        8,
        1,
    );
    handle_needed_abstract_commands(&mut table, &later);
    let shared = table
        .get_candidates()
        .iter()
        .find(|c| c.get_statistics().actions[1] == formatted("lower capitalized", ""))
        .unwrap();
    assert_eq!(shared.get_statistics().number_of_times_used, 2);
    assert_eq!(shared.get_number_of_instantiations(), 2);
    assert_eq!(shared.get_statistics().number_of_words_saved, 2);
    assert_eq!(shared.get_statistics().total_number_of_words_dictated, 6);
}
