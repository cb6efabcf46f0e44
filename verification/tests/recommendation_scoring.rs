use command_recommender::actions::{Argument, BasicAction};
use command_recommender::commands::create_insert_action;
use command_recommender::generation::CommandStatistics;
use command_recommender::redundancy::{
    filter_out_recommendations_redundant_smaller_commands, is_part_of_actions,
};
use command_recommender::scoring::{
    compute_greedy_best, compute_greedy_best_from_scratch, compute_heuristic_recommendation_score,
    compute_max_nonidentical_prefix_or_suffix_similarity, find_best_addition, better_addition,
    SCORE_SCALE,
};
use command_recommender::commands::compute_string_representation_of_actions;

fn candidate(actions: Vec<BasicAction>, used: usize, saved: u32) -> CommandStatistics {
    CommandStatistics {
        number_of_times_used: used,
        number_of_words_saved: saved,
        instantiation_set: None,
        number_of_actions: actions.len(),
        actions,
        total_number_of_words_dictated: 0,
    }
}

fn key(letter: &str) -> BasicAction {
    BasicAction::new("key", vec![Argument::StringArgument(String::from(letter))])
}

fn as_real(score: u128) -> f64 {
    score as f64 / SCORE_SCALE as f64
}

#[test]
fn test_can_find_greedy_best() {
    let recommendations = vec![
        CommandStatistics {
            number_of_times_used: 50,
            number_of_words_saved: 1000,
            instantiation_set: None,
            actions: vec![create_insert_action("arbitrary")],
            number_of_actions: 1,
            total_number_of_words_dictated: 100,
        },
        CommandStatistics {
            number_of_times_used: 20,
            number_of_words_saved: 40,
            instantiation_set: None,
            actions: vec![create_insert_action("text")],
            number_of_actions: 1,
            total_number_of_words_dictated: 20,
        },
        CommandStatistics {
            number_of_times_used: 5000,
            number_of_words_saved: 20000,
            instantiation_set: None,
            actions: vec![create_insert_action("mod tests {\n]")],
            number_of_actions: 1,
            total_number_of_words_dictated: 400,
        },
        CommandStatistics {
            number_of_times_used: 20,
            number_of_words_saved: 30,
            instantiation_set: None,
            actions: vec![create_insert_action("tarp2")],
            number_of_actions: 1,
            total_number_of_words_dictated: 20,
        },
    ];
    let filtered = filter_out_recommendations_redundant_smaller_commands(recommendations.clone());
    let (best, _) = compute_greedy_best_from_scratch(&filtered, 2);
    assert_eq!(best.len(), 2);
    assert_eq!(best[1].actions, recommendations[0].actions);
    assert_eq!(best[0].actions, recommendations[2].actions);
}

#[test]
fn score_of_overlapping_inserts() {
    let a = candidate(vec![create_insert_action("foobar")], 3, 10);
    let b = candidate(vec![create_insert_action("barfoo")], 3, 10);
    let c = candidate(vec![key("a"), key("b")], 3, 5);
    assert_eq!(as_real(compute_heuristic_recommendation_score(&vec![a.clone()])), 10.0);
    assert_eq!(
        as_real(compute_heuristic_recommendation_score(&vec![a.clone(), b.clone()])),
        10.0
    );
    assert_eq!(
        as_real(compute_heuristic_recommendation_score(&vec![a.clone(), b.clone(), c.clone()])),
        15.0
    );
}

#[test]
fn score_does_not_depend_on_the_order() {
    let a = candidate(vec![create_insert_action("foobar")], 3, 10);
    let b = candidate(vec![create_insert_action("barfood")], 3, 7);
    let c = candidate(vec![key("a"), key("b")], 3, 5);
    let d = candidate(vec![key("a"), key("c"), key("d")], 2, 9);
    let first = compute_heuristic_recommendation_score(&vec![
        a.clone(),
        b.clone(),
        c.clone(),
        d.clone(),
    ]);
    let second = compute_heuristic_recommendation_score(&vec![
        d.clone(),
        b.clone(),
        a.clone(),
        c.clone(),
    ]);
    assert_eq!(first, second);
}

#[test]
fn score_weights_by_inverse_frequency() {
    // key("a") stands in both candidates, key("b") and key("c") in one each.
    let c = candidate(vec![key("a"), key("b")], 3, 8);
    let d = candidate(vec![key("a"), key("c")], 2, 4);
    // each weight is (1/2 + 1/1) / 2 = 3/4
    let score = compute_heuristic_recommendation_score(&vec![c, d]);
    assert_eq!(as_real(score), 8.0 * 0.75 + 4.0 * 0.75);
}

#[test]
fn score_of_nothing_is_zero() {
    assert_eq!(compute_heuristic_recommendation_score(&vec![]), 0);
}

#[test]
fn similarity_is_the_longest_shared_edge() {
    let others = vec![
        candidate(vec![create_insert_action("barfoo")], 1, 1),
        candidate(vec![create_insert_action("foobar")], 1, 1),
        candidate(vec![create_insert_action("fox")], 1, 1),
        candidate(vec![key("foobar")], 1, 1),
    ];
    assert_eq!(compute_max_nonidentical_prefix_or_suffix_similarity("foobar", &others), 3);
    assert_eq!(compute_max_nonidentical_prefix_or_suffix_similarity("fox", &others), 2);
    assert_eq!(compute_max_nonidentical_prefix_or_suffix_similarity("zzz", &others), 0);
}

#[test]
fn greedy_takes_the_two_candidates_that_save_most() {
    let recommendations = vec![
        candidate(vec![create_insert_action("A")], 5000, 20000),
        candidate(vec![create_insert_action("B")], 50, 1000),
        candidate(vec![create_insert_action("C")], 20, 40),
        candidate(vec![create_insert_action("D")], 20, 30),
    ];
    let (best, score, indexes) =
        compute_greedy_best(&recommendations, 2, &vec![], (0, recommendations.len()));
    assert_eq!(indexes, vec![0, 1]);
    assert_eq!(best.len(), 2);
    assert_eq!(as_real(score), 21000.0);
    for i in 0..4 {
        for j in (i + 1)..4 {
            if (i, j) != (0, 1) {
                let pair = vec![recommendations[i].clone(), recommendations[j].clone()];
                assert!(compute_heuristic_recommendation_score(&pair) < score);
            }
        }
    }
}

#[test]
fn greedy_selects_from_the_candidates_and_no_more_than_there_are() {
    let recommendations = vec![
        candidate(vec![key("a")], 2, 3),
        candidate(vec![key("b")], 2, 4),
        candidate(vec![key("c")], 2, 5),
    ];
    for limit in 0..6 {
        let (best, _, indexes) =
            compute_greedy_best(&recommendations, limit, &vec![], (0, recommendations.len()));
        assert_eq!(indexes.len(), limit.min(recommendations.len()));
        assert_eq!(best.len(), indexes.len());
        for (place, index) in indexes.iter().enumerate() {
            assert!(*index < recommendations.len());
            assert!(!indexes[..place].contains(index));
            assert_eq!(best[place].actions, recommendations[*index].actions);
        }
        let (more, _, more_indexes) =
            compute_greedy_best(&recommendations, limit + 1, &vec![], (0, recommendations.len()));
        assert_eq!(&more_indexes[..indexes.len()], &indexes[..]);
        assert!(more.len() >= best.len());
    }
}

#[test]
fn greedy_breaks_ties_by_the_lowest_index() {
    let recommendations = vec![
        candidate(vec![key("a")], 2, 5),
        candidate(vec![key("b")], 2, 5),
        candidate(vec![key("c")], 2, 5),
    ];
    let (_, _, indexes) =
        compute_greedy_best(&recommendations, 2, &vec![], (0, recommendations.len()));
    assert_eq!(indexes, vec![0, 1]);
    let (_, _, pinned) = compute_greedy_best(&recommendations, 2, &vec![2], (0, 3));
    assert_eq!(pinned, vec![2, 0]);
}

#[test]
fn best_addition_of_parts_is_the_best_addition() {
    let recommendations = vec![
        candidate(vec![key("a")], 2, 5),
        candidate(vec![key("b")], 2, 9),
        candidate(vec![key("c")], 2, 9),
        candidate(vec![key("d")], 2, 1),
    ];
    let whole = find_best_addition(&recommendations, &vec![], 0, 4);
    let left = find_best_addition(&recommendations, &vec![], 0, 2);
    let right = find_best_addition(&recommendations, &vec![], 2, 4);
    assert_eq!(whole.map(|w| w.0), Some(1));
    assert_eq!(better_addition(left, right), whole);
    assert_eq!(better_addition(right, left), whole);
    assert_eq!(find_best_addition(&recommendations, &vec![0, 1, 2, 3], 0, 4), None);
}

#[test]
fn parts_of_a_sequence_of_actions() {
    let actions = vec![create_insert_action("hello"), key("a"), create_insert_action("world")];
    let form = |actions: &Vec<BasicAction>| compute_string_representation_of_actions(actions);
    // a shorter window
    assert!(is_part_of_actions(&form(&vec![key("a")]), &actions));
    assert!(is_part_of_actions(
        &form(&vec![create_insert_action("hello"), key("a")]),
        &actions
    ));
    // a part of the text of one insert
    assert!(is_part_of_actions(&form(&vec![create_insert_action("ell")]), &actions));
    // the end of the leading insert and what follows
    assert!(is_part_of_actions(
        &form(&vec![create_insert_action("lo"), key("a")]),
        &actions
    ));
    // what precedes and the start of the trailing insert
    assert!(is_part_of_actions(
        &form(&vec![key("a"), create_insert_action("wor")]),
        &actions
    ));
    // both ends cut short
    assert!(is_part_of_actions(
        &form(&vec![create_insert_action("o"), key("a"), create_insert_action("w")]),
        &actions
    ));
    // the whole is no part of itself, and neither is something else
    assert!(!is_part_of_actions(&form(&actions), &actions));
    assert!(!is_part_of_actions(&form(&vec![key("b")]), &actions));
    assert!(!is_part_of_actions(
        &form(&vec![create_insert_action("hel"), key("a")]),
        &actions
    ));
}

#[test]
fn redundant_candidates_are_left_out() {
    let recommendations = vec![
        candidate(vec![key("a")], 4, 10),
        candidate(vec![key("a"), key("b")], 4, 20),
        candidate(vec![key("b")], 7, 5),
        candidate(vec![create_insert_action("fo")], 3, 5),
        candidate(vec![create_insert_action("foo")], 3, 5),
    ];
    let filtered = filter_out_recommendations_redundant_smaller_commands(recommendations.clone());
    let kept: Vec<Vec<BasicAction>> = filtered.iter().map(|c| c.actions.clone()).collect();
    assert_eq!(
        kept,
        vec![
            recommendations[1].actions.clone(),
            recommendations[2].actions.clone(),
            recommendations[4].actions.clone(),
        ]
    );
    for x in &filtered {
        for y in &recommendations {
            let form = compute_string_representation_of_actions(&x.actions);
            assert!(
                !(x.number_of_times_used == y.number_of_times_used
                    && is_part_of_actions(&form, &y.actions))
            );
        }
    }
}

#[test]
fn of_equal_forms_the_last_is_kept() {
    let recommendations = vec![
        candidate(vec![key("a")], 4, 10),
        candidate(vec![key("b")], 4, 10),
        candidate(vec![key("a")], 9, 11),
    ];
    let filtered = filter_out_recommendations_redundant_smaller_commands(recommendations);
    assert_eq!(filtered.len(), 2);
    assert_eq!(filtered[0].actions, vec![key("b")]);
    assert_eq!(filtered[1].number_of_words_saved, 11);
}
