use command_recommender::text_separation::{
    compute_case_string_for_prose, TextSeparationAnalyzer,
};


fn is_consistent_separator(target_text: &str) -> bool {
    let analyzer = TextSeparationAnalyzer::new_from_text(target_text);
    analyzer.is_entire_text_separator_consistent()
}

#[test]
fn test_consistent_separator_without_separators() {
    assert!(is_consistent_separator("thisisatest"));
}

#[test]
fn test_handles_single_character_separator() {
    assert!(is_consistent_separator("this_is_a_test"));
}

#[test]
fn test_inconsistent_separator_with_multiple_separators() {
    assert!(!is_consistent_separator("this_is__a_test"));
}

#[test]
fn test_consistent_separator_with_multiple_characters() {
    assert!(is_consistent_separator("this!!!!is!!!!a!!!!test"));
}

fn assert_text_before_prose_matches(original_text: &str, prose: &str, expected_text_before_prose: &str) {
    let mut analyzer = TextSeparationAnalyzer::new_from_text(original_text);
    analyzer.search_for_prose_in_separated_part(prose);
    assert_eq!(analyzer.compute_text_before_prose(), expected_text_before_prose);
}

fn assert_text_after_prose_matches(original_text: &str, prose: &str, expected_text_after_prose: &str) {
    let mut analyzer = TextSeparationAnalyzer::new_from_text(original_text);
    analyzer.search_for_prose_in_separated_part(prose);
    assert_eq!(analyzer.compute_text_after_prose(), expected_text_after_prose);
}

#[test]
fn test_can_find_empty_text_before_prose_with_one_word() {
    assert_text_before_prose_matches("test", "test", "");
}

#[test]
fn test_can_find_text_before_prose_with_one_word() {
    assert_text_before_prose_matches("test", "st", "te");
}

#[test]
fn test_can_find_text_before_prose_with_multiple_words() {
    assert_text_before_prose_matches(
        "_This is_a!test today",
        "a test",
        "_This is_",
    );
}

#[test]
fn test_can_find_empty_text_after_prose_with_one_word() {
    assert_text_after_prose_matches(
        "test",
        "test",
        "",
    );
}

#[test]
fn test_can_find_text_after_prose_with_one_word() {
    assert_text_after_prose_matches(
        "test",
        "te",
        "st",
    );
}

#[test]
fn test_can_find_text_after_prose_with_multiple_words() {
    assert_text_after_prose_matches(
        "_This is_a!test today",
        "is a",
        "!test today",
    );
}

fn assert_text_with_prose_gives_consistency_result(text: &str, prose: &str, expected_consistency: bool) {
    let mut analyzer = TextSeparationAnalyzer::new_from_text(text);
    analyzer.search_for_prose_in_separated_part(prose);
    assert_eq!(analyzer.is_prose_separator_consistent(), expected_consistency);
}

#[test]
fn test_consistent_with_single_word_prose() {
    assert_text_with_prose_gives_consistency_result("this_is_a_test", "is", true);
}

#[test]
fn test_consistent_with_snake_case_prose() {
    assert_text_with_prose_gives_consistency_result("chicken!!this_is_a_testchicken", "this is a test", true);
}

#[test]
fn test_consistent_with_spaces() {
    assert_text_with_prose_gives_consistency_result("for real this is a test", "this is a test", true);
}

#[test]
fn test_consistent_with_two_words() {
    assert_text_with_prose_gives_consistency_result("this_is!_@_______a_test", "is a", true);
}

#[test]
fn test_consistency_handles_final_word() {
    assert_text_with_prose_gives_consistency_result("this_is_a_test!", "is a test", true);
}

#[test]
fn test_inconsistent_with_two_different_separators() {
    assert_text_with_prose_gives_consistency_result("this_is a test", "this is a", false);
}

fn assert_prose_case_matches_expected(text: &str, prose: &str, expected_case: &str) {
    let mut analyzer = TextSeparationAnalyzer::new_from_text(text);
    analyzer.search_for_prose_in_separated_part(prose);
    let case_string = compute_case_string_for_prose(&analyzer);
    assert_eq!(case_string, expected_case);
}

#[test]
fn test_case_handles_single_lower_case_word() {
    assert_prose_case_matches_expected("word", "word", "lower");
}

#[test]
fn test_case_handles_single_upper_case_word() {
    assert_prose_case_matches_expected("WORD", "word", "upper");
}

#[test]
fn test_case_handles_single_capitalized_word() {
    assert_prose_case_matches_expected("Word", "word", "capitalized");
}

#[test]
fn test_case_handles_single_uppercase_character() {
    assert_prose_case_matches_expected("A", "a", "upper");
    
}

#[test]
fn test_case_handles_camel_case() {
    assert_prose_case_matches_expected("thisIsATest", "this is a test", "lower capitalized upper capitalized");
}

#[test]
fn test_case_handles_snake_case_correctly() {
    assert_prose_case_matches_expected("this_is_a_test", "this is a test", "lower");
}

#[test]
fn test_case_handles_substring_prose() {
    assert_prose_case_matches_expected("yesthisIsaTESThere", "this is a test", "lower capitalized lower upper");
}

#[test]
fn test_handles_separated_sub_string() {
    assert_prose_case_matches_expected("stuff!THIS_IS_A_TEST!stuff", "this is a test", "upper");
}

fn assert_separator_matches_expected(text: &str, prose: &str, expected_separator: &str) {
    let mut analyzer = TextSeparationAnalyzer::new_from_text(text);
    analyzer.search_for_prose_in_separated_part(prose);
    let separator = analyzer.get_first_prose_separator();
    assert_eq!(separator, expected_separator);
}

#[test]
fn test_single_word_with_no_separator() {
    assert_separator_matches_expected("this", "this", "");
}

#[test]
fn test_single_word_in_text_with_no_internal_separator() {
    assert_separator_matches_expected("stuff this test", "this", "");
}

#[test]
fn test_handles_two_words_with_separator() {
    assert_separator_matches_expected("two  words", "two words", "  ");
}

#[test]
fn test_handles_two_words_in_text_with_separator() {
    assert_separator_matches_expected("This contains two_words in the middle", "two words", "_");
}

#[test]
fn test_correct_separator_with_three_words_in_text() {
    assert_separator_matches_expected("this_is_a_bigger_test_case", "a bigger test", "_");
}

#[test]
fn test_handles_separator_with_two_words_at_beginning() {
    assert_separator_matches_expected("two_words_at_the_beginning", "two words", "_");
}

#[test]
fn test_handles_separator_with_two_words_at_end() {
    assert_separator_matches_expected("at_ending_there_are_two_words", "two words", "_");
}

fn assert_indices_match(text: &str, prose: &str, prose_index: usize, prose_beginning_index: usize, prose_ending_index: usize) {
    let mut analyzer = TextSeparationAnalyzer::new_from_text(text);
    analyzer.search_for_prose_in_separated_part(prose);
    assert_eq!(analyzer.get_prose_index().unwrap(), prose_index);
    assert_eq!(analyzer.get_prose_beginning_index().unwrap(), prose_beginning_index);
    assert_eq!(analyzer.get_prose_ending_index().unwrap(), prose_ending_index);
}

#[test]
fn test_can_find_one_word_prose_at_beginning() {
    assert_indices_match("testing this here", "test", 0, 0, 4);
}

#[test]
fn test_can_find_multiple_words_at_beginning() {
    assert_indices_match("this_is_a_test_", "this is a test", 0, 0, 4);
}

#[test]
fn test_can_find_one_word_in_middle() {
    assert_indices_match("this_is_a_realtest_right_here", "test", 3, 4, 8);
}

#[test]
fn test_can_find_multiple_words_in_middle() {
    assert_indices_match("yes_forrealthis_is_a_testrighthere_", "this is a testr", 1, 7, 5);
}

#[test]
fn test_can_find_one_word_at_ending() {
    assert_indices_match("this_is_actuallytestingstuff", "testing", 2, 8, 15);
}

#[test]
fn test_can_find_multiple_words_at_ending() {
    assert_indices_match("once_again_this_is_a_test", "this is a test", 2, 0, 4);
}

#[test]
fn can_find_multiple_words_at_middle_of_ending() {
    assert_indices_match("once_againthis_is_a_testing", "this is a test", 1, 5, 4);
}



