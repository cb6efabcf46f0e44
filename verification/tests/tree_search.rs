use command_recommender::actions::{Argument, BasicAction};
use command_recommender::generation::CommandStatistics;
use command_recommender::random::RandomNumberGenerator;
use command_recommender::scoring::{compute_heuristic_recommendation_score, SCORE_SCALE};
use command_recommender::search_tree::{MonteCarloExplorationData, NodeData, ScoredNode};
use command_recommender::tree_search::{
    add_root_values, compute_best_index_from_aggregation,
    compute_number_of_trials, filter_commands, get_root_values, perform_double_greedy, Roller,
};

fn key(letter: &str) -> BasicAction {
    BasicAction::new("key", vec![Argument::StringArgument(String::from(letter))])
}

fn candidate(actions: Vec<BasicAction>, saved: u32) -> CommandStatistics {
    CommandStatistics {
        number_of_times_used: 2,
        number_of_words_saved: saved,
        instantiation_set: None,
        number_of_actions: actions.len(),
        actions,
        total_number_of_words_dictated: 0,
    }
}

fn candidates() -> Vec<CommandStatistics> {
    vec![
        candidate(vec![key("a")], 9),
        candidate(vec![key("b")], 8),
        candidate(vec![key("a"), key("b")], 7),
        candidate(vec![key("c")], 6),
        candidate(vec![key("d")], 5),
        candidate(vec![key("e")], 4),
    ]
}

#[test]
fn playouts_rise_and_have_the_size_asked_for() {
    let recommendations = candidates();
    for use_greedy in [false, true] {
        let mut roller = Roller::new(17);
        for _ in 0..50 {
            let before = roller.get_best_score();
            let score = roller.simulate_play_out(&recommendations, &vec![1], use_greedy, 4);
            let best = roller.get_best_recommendation_indexes().clone();
            assert_eq!(best.len(), 4);
            assert_eq!(best[0], 1);
            assert!(best.windows(2).all(|w| w[0] < w[1]));
            assert!(best.iter().all(|i| *i < recommendations.len()));
            assert!(roller.get_best_score() >= before);
            assert!(roller.get_best_score() >= score);
            let selection: Vec<CommandStatistics> =
                best.iter().map(|i| recommendations[*i].clone()).collect();
            assert_eq!(
                compute_heuristic_recommendation_score(&selection),
                roller.get_best_score()
            );
        }
    }
}

#[test]
fn playouts_follow_the_generator() {
    let recommendations = candidates();
    let mut roller = Roller::new(5);
    let mut generator = RandomNumberGenerator::new(5);
    roller.simulate_play_out(&recommendations, &vec![], false, 2);
    // two picks among six: the first from 0 up to 4, the second above it up to 5
    let first = generator.next_in_range(0, 5);
    let second = generator.next_in_range(first + 1, 6);
    assert_eq!(roller.get_best_recommendation_indexes(), &vec![first, second]);
}

#[test]
fn a_playout_of_every_candidate_is_the_whole() {
    let recommendations = candidates();
    let mut roller = Roller::new(1);
    let score = roller.simulate_play_out(&recommendations, &vec![], false, 6);
    assert_eq!(roller.get_best_recommendation_indexes(), &vec![0, 1, 2, 3, 4, 5]);
    assert_eq!(score, compute_heuristic_recommendation_score(&recommendations));
}

#[test]
fn double_greedy_tries_every_candidate() {
    let recommendations = candidates();
    let (score, indexes) = perform_double_greedy(vec![0], 1, &recommendations, 3).unwrap();
    assert_eq!(indexes.len(), 2);
    assert_eq!(indexes[0], 0);
    // b is taken: with it and c, nothing is shared
    assert_eq!(indexes[1], 1);
    assert_eq!(score, (9 + 8 + 6) as u128 * SCORE_SCALE);
    assert_eq!(perform_double_greedy(vec![0], 6, &recommendations, 3), None);
}

#[test]
fn candidates_that_lower_the_score_are_not_searched() {
    let recommendations = vec![
        candidate(vec![key("a"), key("b")], 100),
        candidate(vec![key("a")], 1),
        candidate(vec![key("c")], 1),
    ];
    // with a alone, the hundred words count three quarters: 75 + 0.5 < 100
    let kept = filter_commands(&vec![0usize], &recommendations);
    let kept: Vec<Vec<BasicAction>> = kept.iter().map(|c| c.actions.clone()).collect();
    assert_eq!(kept, vec![vec![key("a"), key("b")], vec![key("c")]]);
}

#[test]
fn trials_are_rounded() {
    assert_eq!(compute_number_of_trials(10, 4), 3);
    assert_eq!(compute_number_of_trials(9, 4), 2);
    assert_eq!(compute_number_of_trials(0, 4), 0);
    assert_eq!(compute_number_of_trials(7, 1), 7);
}

#[test]
fn the_tree_counts_along_the_path() {
    let mut data = MonteCarloExplorationData::new();
    assert!(!data.progress_has_children(&vec![]));
    data.handle_expansion(&vec![2, 4]);
    assert!(data.progress_has_children(&vec![]));
    assert!(data.progress_has_children(&vec![2]));
    assert!(!data.progress_has_children(&vec![2, 4]));
    assert_eq!(
        data.get_statistics(&vec![2, 4]),
        Some(NodeData { index: 4, score: 0, times_explored: 0 })
    );
    data.back_propagate_score(&vec![2, 4], 10);
    data.back_propagate_score(&vec![2, 5], 3);
    data.handle_exploration(&vec![2, 4], 10);
    data.record_rollout(&vec![3, 4], 7);
    assert_eq!(data.get_total_explored(), 10);
    assert_eq!(
        data.get_statistics(&vec![2]),
        Some(NodeData { index: 2, score: 13, times_explored: 10 })
    );
    assert_eq!(
        data.get_statistics(&vec![2, 4]),
        Some(NodeData { index: 4, score: 10, times_explored: 10 })
    );
    assert_eq!(
        data.get_statistics(&vec![2, 5]),
        Some(NodeData { index: 5, score: 3, times_explored: 0 })
    );
    assert_eq!(
        data.get_statistics(&vec![3]),
        Some(NodeData { index: 3, score: 7, times_explored: 0 })
    );
    assert_eq!(
        data.get_statistics(&vec![3, 4]),
        Some(NodeData { index: 4, score: 7, times_explored: 1 })
    );
    assert_eq!(data.get_statistics(&vec![4]), None);
    assert_eq!(data.get_statistics(&vec![]), None);
    data.increment_total_explored(5);
    assert_eq!(data.get_total_explored(), 15);
    assert_eq!(
        get_root_values(&data, 6),
        vec![
            NodeData { index: 2, score: 13, times_explored: 10 },
            NodeData { index: 3, score: 7, times_explored: 0 },
        ]
    );
}

#[test]
fn nodes_average_their_scores() {
    let mut node = ScoredNode::new(3);
    assert_eq!(node.get_index(), 3);
    assert_eq!(node.get_score(), 0);
    assert!(!node.has_children());
    node.handle_score(7);
    node.handle_score(8);
    node.handle_exploration(2);
    assert_eq!(node.get_total_score(), 15);
    assert_eq!(node.get_times_explored(), 2);
    assert_eq!(node.get_score(), 7);
    assert_eq!(node.get_data(), &NodeData { index: 3, score: 15, times_explored: 2 });
    node.walk(&vec![1, 2], 0, 4, 1, false);
    assert!(node.has_children());
    assert_eq!(
        node.get_statistics(&vec![1, 2], 0),
        Some(NodeData { index: 2, score: 4, times_explored: 1 })
    );
    assert!(node.has_children_at(&vec![1], 0));
    assert!(!node.has_children_at(&vec![1, 2], 0));
}

#[test]
fn searchers_are_taken_together() {
    let mut aggregation = vec![
        NodeData { index: 0, score: 10, times_explored: 2 },
        NodeData { index: 2, score: 30, times_explored: 3 },
    ];
    add_root_values(
        &mut aggregation,
        &vec![
            NodeData { index: 2, score: 6, times_explored: 1 },
            NodeData { index: 1, score: 16, times_explored: 2 },
        ],
    );
    assert_eq!(
        aggregation,
        vec![
            NodeData { index: 0, score: 10, times_explored: 2 },
            NodeData { index: 2, score: 36, times_explored: 4 },
            NodeData { index: 1, score: 16, times_explored: 2 },
        ]
    );
    // averages 5, 9 and 8
    assert_eq!(compute_best_index_from_aggregation(&aggregation), 2);
    assert_eq!(compute_best_index_from_aggregation(&vec![]), 0);
    assert_eq!(
        compute_best_index_from_aggregation(&vec![
            NodeData { index: 4, score: 9, times_explored: 0 },
            NodeData { index: 5, score: 8, times_explored: 2 },
            NodeData { index: 6, score: 8, times_explored: 2 },
        ]),
        5
    );
}
