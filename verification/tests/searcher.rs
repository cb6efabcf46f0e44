use command_recommender::actions::{Argument, BasicAction};
use command_recommender::generation::CommandStatistics;
use command_recommender::random::RandomNumberGenerator;
use command_recommender::scoring::{compute_greedy_best, compute_heuristic_recommendation_score};
use command_recommender::search_tree::{MonteCarloExplorationData, NodeData};
use command_recommender::searcher::{
    choose_child, compute_children, compute_next_index_after_exploration,
    compute_trials_per_worker, conclude_round, derive_worker_seeds, find_best,
    names_full_selection, perform_monte_carlo_tree_search, perform_search_round,
    perform_worker_monte_carlo_tree_search, prepare_candidates, reduce_search_results,
    resolve_choice, MonteCarloTreeSearcher, SearchResult,
};

fn key(letter: &str) -> BasicAction {
    BasicAction::new("key", vec![Argument::StringArgument(String::from(letter))])
}

fn candidate(actions: Vec<BasicAction>, saved: u32) -> CommandStatistics {
    CommandStatistics {
        number_of_times_used: 2,
        number_of_words_saved: saved,
        instantiation_set: None,
        number_of_actions: actions.len(),
        actions,
        total_number_of_words_dictated: 0,
    }
}

fn candidates() -> Vec<CommandStatistics> {
    vec![
        candidate(vec![key("a")], 9),
        candidate(vec![key("a"), key("b")], 20),
        candidate(vec![key("b")], 8),
        candidate(vec![key("c")], 6),
        candidate(vec![key("a"), key("c")], 12),
        candidate(vec![key("d")], 5),
        candidate(vec![key("e")], 4),
        candidate(vec![key("d"), key("e")], 7),
    ]
}

fn highest_average(children: &Vec<NodeData>, _times_parent_explored: usize) -> usize {
    let mut best = children[0];
    for child in children {
        let left = child.score * best.times_explored.max(1) as u128;
        let right = best.score * child.times_explored.max(1) as u128;
        if left > right {
            best = *child;
        }
    }
    best.index
}

fn one_searcher(
    recommendations: &Vec<CommandStatistics>,
    start: &Vec<usize>,
    limit: usize,
    trials: usize,
    seed: u64,
) -> (u128, Vec<usize>, usize) {
    let searcher = perform_worker_monte_carlo_tree_search(
        recommendations,
        start,
        limit,
        seed,
        trials,
        &highest_average,
    );
    let result = SearchResult {
        best_score: searcher.get_best_score(),
        best_recommendation_indexes: searcher.get_best_recommendation_indexes().clone(),
        root_values: searcher.get_root_values(recommendations.len()),
    };
    reduce_search_results(&vec![result])
}

fn is_among(selection: &Vec<CommandStatistics>, pool: &Vec<CommandStatistics>) -> bool {
    selection
        .iter()
        .all(|s| pool.iter().any(|p| p.actions == s.actions))
}

#[test]
fn an_answer_that_names_no_child_takes_the_first() {
    let children = vec![
        NodeData { index: 3, score: 1, times_explored: 1 },
        NodeData { index: 5, score: 9, times_explored: 1 },
    ];
    assert_eq!(resolve_choice(&children, 5), 5);
    assert_eq!(resolve_choice(&children, 3), 3);
    assert_eq!(resolve_choice(&children, 4), 3);
    assert_eq!(choose_child(&highest_average, &children, 2), 5);
    assert_eq!(choose_child(&|_: &Vec<NodeData>, _: usize| 77usize, &children, 2), 3);
}

#[test]
fn trials_are_shared_among_workers() {
    assert_eq!(compute_trials_per_worker(100, 1), 100);
    assert_eq!(compute_trials_per_worker(3, 1), 3);
    // 1.7 * 100 / 4 = 42.5
    assert_eq!(compute_trials_per_worker(100, 4), 43);
    // 1.7 * 100 / 8 = 21.25
    assert_eq!(compute_trials_per_worker(100, 8), 21);
    assert_eq!(compute_trials_per_worker(10, 8), 10);
}

#[test]
fn worker_seeds_follow_the_generator() {
    let mut generator = RandomNumberGenerator::new(0);
    let first = 40 + generator.next_in_range(1, 10000) as u64;
    let second = first + generator.next_in_range(1, 10000) as u64;
    assert_eq!(derive_worker_seeds(40, 2), vec![first, second]);
    assert!(derive_worker_seeds(40, 0).is_empty());
    let wrapped = derive_worker_seeds(u64::MAX, 1);
    assert!(wrapped[0] < 10000);
}

#[test]
fn results_are_taken_together() {
    let results = vec![
        SearchResult {
            best_score: 5,
            best_recommendation_indexes: vec![0, 1],
            root_values: vec![NodeData { index: 0, score: 10, times_explored: 2 }],
        },
        SearchResult {
            best_score: 9,
            best_recommendation_indexes: vec![1, 2],
            root_values: vec![
                NodeData { index: 0, score: 2, times_explored: 2 },
                NodeData { index: 1, score: 8, times_explored: 2 },
            ],
        },
        SearchResult {
            best_score: 9,
            best_recommendation_indexes: vec![2, 3],
            root_values: vec![],
        },
    ];
    // the averages are 12 / 4 = 3 and 8 / 2 = 4
    assert_eq!(reduce_search_results(&results), (9, vec![1, 2], 1));
    assert_eq!(reduce_search_results(&vec![]), (0, vec![], 0));
}

#[test]
fn children_are_listed_by_rising_index() {
    let mut data = MonteCarloExplorationData::new();
    data.record_rollout(&vec![1, 4], 3);
    data.record_rollout(&vec![1, 2], 5);
    data.record_rollout(&vec![1, 6], 1);
    let children = compute_children(&data, &vec![1], 2, 6);
    assert_eq!(
        children,
        vec![
            NodeData { index: 2, score: 5, times_explored: 1 },
            NodeData { index: 4, score: 3, times_explored: 1 },
        ]
    );
    assert!(compute_children(&data, &vec![1], 6, 2).is_empty());
    assert_eq!(compute_next_index_after_exploration(&data, &vec![1], 10), 7);
    assert_eq!(compute_next_index_after_exploration(&data, &vec![1], 5), 5);
    assert_eq!(compute_next_index_after_exploration(&data, &vec![], 10), 2);
    assert_eq!(compute_next_index_after_exploration(&data, &vec![3], 10), 0);
}

#[test]
fn a_searcher_finds_selections_with_their_scores() {
    let recommendations = candidates();
    for seed in 0..5 {
        let searcher =
            perform_worker_monte_carlo_tree_search(&recommendations, &vec![0], 4, seed, 6, &highest_average);
        let best = searcher.get_best_recommendation_indexes().clone();
        assert_eq!(best.len(), 4);
        assert_eq!(best[0], 0);
        assert!(best.windows(2).all(|w| w[0] < w[1]));
        assert!(best.iter().all(|i| *i < recommendations.len()));
        let selection: Vec<CommandStatistics> =
            best.iter().map(|i| recommendations[*i].clone()).collect();
        assert_eq!(
            compute_heuristic_recommendation_score(&selection),
            searcher.get_best_score()
        );
        assert!(!searcher.get_root_values(recommendations.len()).is_empty());
    }
}

#[test]
fn a_searcher_explores_step_by_step() {
    let recommendations = candidates();
    let mut searcher = MonteCarloTreeSearcher::new(5, &recommendations, vec![], 3);
    assert_eq!(searcher.get_best_score(), 0);
    let child = searcher
        .explore_every_child(&recommendations, &vec![], &highest_average)
        .unwrap();
    // four more are to follow the first choice among eight candidates
    assert!(child <= 3);
    let roots = searcher.get_root_values(recommendations.len());
    let tried: Vec<usize> = roots.iter().map(|r| r.index).collect();
    assert_eq!(tried, vec![0, 1, 2, 3]);
    assert!(roots.iter().all(|r| r.times_explored == 1));
    let path = searcher.select_starting_path(&recommendations, &highest_average);
    assert!(!path.is_empty() && path.len() <= 3);
    assert!(path.windows(2).all(|w| w[0] < w[1]));
    let before = searcher.get_best_score();
    assert!(searcher.explore_solution(&recommendations, &highest_average));
    searcher.explore_ending_rollouts(&recommendations);
    searcher.explore_solutions(&recommendations, 3, &highest_average);
    assert!(searcher.get_best_score() >= before);
    assert_eq!(searcher.get_best_recommendation_indexes().len(), 5);
}

#[test]
fn the_tree_search_returns_a_selection_of_the_candidates() {
    let recommendations = candidates();
    for limit in 0..7 {
        let (best, score) =
            perform_monte_carlo_tree_search(recommendations.clone(), &vec![], limit, &one_searcher);
        assert!(best.len() <= limit);
        assert!(is_among(&best, &recommendations));
        if best.is_empty() {
            assert_eq!(score, 0);
        } else {
            assert_eq!(score, compute_heuristic_recommendation_score(&best));
        }
    }
    let (pinned, _) =
        perform_monte_carlo_tree_search(recommendations.clone(), &vec![5], 3, &one_searcher);
    assert_eq!(pinned.len(), 3);
    assert!(pinned.iter().any(|c| c.actions == vec![key("d")]));
}

#[test]
fn what_the_search_answers_is_checked() {
    let recommendations = candidates();
    let lying = |_: &Vec<CommandStatistics>, _: &Vec<usize>, _: usize, _: usize, _: u64| {
        (u128::MAX, vec![99usize, 100], 1000usize)
    };
    let (best, score) = perform_monte_carlo_tree_search(recommendations.clone(), &vec![], 4, &lying);
    assert!(is_among(&best, &recommendations));
    assert_eq!(score, compute_heuristic_recommendation_score(&best));
}

#[test]
fn the_best_selection_is_no_worse_than_the_greedy_one() {
    let recommendations = candidates();
    assert_eq!(find_best(recommendations.clone(), &vec![], 8, &one_searcher).len(), 8);
    assert_eq!(find_best(recommendations.clone(), &vec![], 20, &one_searcher).len(), 8);
    for limit in 1..6 {
        let best = find_best(recommendations.clone(), &vec![], limit, &one_searcher);
        let (_, greedy_score, _) =
            compute_greedy_best(&recommendations, limit, &vec![], (0, recommendations.len()));
        assert_eq!(best.len(), limit);
        assert!(is_among(&best, &recommendations));
        assert!(compute_heuristic_recommendation_score(&best) >= greedy_score);
    }
}

fn actions_of(selection: &Vec<CommandStatistics>) -> Vec<Vec<BasicAction>> {
    selection.iter().map(|c| c.actions.clone()).collect()
}

fn lying_search(
    _: &Vec<CommandStatistics>,
    _: &Vec<usize>,
    _: usize,
    _: usize,
    _: u64,
) -> (u128, Vec<usize>, usize) {
    (u128::MAX, vec![99usize, 100], 1000usize)
}

#[test]
fn the_tree_search_selects_as_many_as_asked() {
    let recommendations = candidates();
    for limit in 2..=recommendations.len() {
        for search in [one_searcher, lying_search] {
            let (best, score) =
                perform_monte_carlo_tree_search(recommendations.clone(), &vec![], limit, &search);
            assert_eq!(best.len(), limit);
            assert!(is_among(&best, &recommendations));
            for (i, one) in best.iter().enumerate() {
                assert!(best.iter().skip(i + 1).all(|other| other.actions != one.actions));
            }
            assert_eq!(score, compute_heuristic_recommendation_score(&best));
        }
    }
    // nothing is left to settle where the start leaves one candidate to select
    let (none, score) = perform_monte_carlo_tree_search(recommendations, &vec![], 1, &one_searcher);
    assert!(none.is_empty());
    assert_eq!(score, 0);
}

#[test]
fn full_selections_name_different_candidates() {
    assert!(names_full_selection(&vec![2, 0, 5], 6, 3));
    assert!(!names_full_selection(&vec![2, 0, 2], 6, 3));
    assert!(!names_full_selection(&vec![2, 0, 6], 6, 3));
    assert!(!names_full_selection(&vec![2, 0], 6, 3));
    assert!(names_full_selection(&vec![], 0, 0));
}

#[test]
fn given_candidates_come_first_and_the_others_by_words_saved() {
    let prepared = prepare_candidates(candidates(), &vec![5, 3]);
    let saved: Vec<u32> = prepared.iter().map(|c| c.number_of_words_saved).collect();
    assert_eq!(saved, vec![5, 6, 20, 12, 9, 8, 7, 4]);
    let plain = prepare_candidates(candidates(), &vec![]);
    let saved: Vec<u32> = plain.iter().map(|c| c.number_of_words_saved).collect();
    assert_eq!(saved, vec![20, 12, 9, 8, 7, 6, 5, 4]);
}

#[test]
fn a_round_is_concluded_with_any_answer() {
    let recommendations = prepare_candidates(candidates(), &vec![]);
    // an answer that names no selection: the greedy selection is the best
    let (after, best, score) =
        conclude_round(recommendations.clone(), 0, 3, Vec::new(), 0, &vec![9, 9, 9], 4);
    assert_eq!(after[0].number_of_words_saved, 7);
    assert_eq!(after[4].number_of_words_saved, 20);
    let (greedy, greedy_score, _) = compute_greedy_best(&after, 3, &vec![0], (0, after.len()));
    assert_eq!(actions_of(&best), actions_of(&greedy));
    assert_eq!(score, greedy_score);
    // an answer that names a selection is weighed with its own score
    let answer = vec![0, 2, 3];
    let found: Vec<CommandStatistics> = answer.iter().map(|i| recommendations[*i].clone()).collect();
    let found_score = compute_heuristic_recommendation_score(&found);
    let (after, best, score) =
        conclude_round(recommendations.clone(), 0, 3, Vec::new(), 0, &answer, 0);
    assert_eq!(actions_of(&after), actions_of(&recommendations));
    let (greedy, greedy_score, _) = compute_greedy_best(&after, 3, &vec![0], (0, after.len()));
    if greedy_score > found_score {
        assert_eq!((actions_of(&best), score), (actions_of(&greedy), greedy_score));
    } else {
        assert_eq!((actions_of(&best), score), (actions_of(&found), found_score));
    }
}

#[test]
fn the_last_round_but_one_asks_no_search() {
    let recommendations = prepare_candidates(candidates(), &vec![]);
    let (after, best, score, goes_on) =
        perform_search_round(recommendations.clone(), 0, 2, Vec::new(), 0, 4, 0, &lying_search);
    assert!(goes_on);
    assert_eq!(after.len(), recommendations.len());
    assert_eq!(best.len(), 2);
    assert_eq!(score, compute_heuristic_recommendation_score(&best));
    let (whole, whole_score) =
        perform_monte_carlo_tree_search(candidates(), &vec![], 2, &lying_search);
    assert_eq!((actions_of(&whole), whole_score), (actions_of(&best), score));
    // too few candidates end the search
    let few = vec![candidate(vec![key("a")], 3)];
    let (after, best, score, goes_on) =
        perform_search_round(few.clone(), 0, 2, Vec::new(), 0, 1, 0, &lying_search);
    assert!(!goes_on);
    assert_eq!(actions_of(&after), actions_of(&few));
    assert!(best.is_empty());
    assert_eq!(score, 0);
}

#[test]
fn a_trial_on_a_path_reaches_its_places_ten_times() {
    let recommendations = candidates();
    let mut searcher = MonteCarloTreeSearcher::new(3, &recommendations, vec![], 11);
    searcher.explore_path(&recommendations, &vec![1, 4]);
    let roots = searcher.get_root_values(recommendations.len());
    assert_eq!(roots.len(), 1);
    assert_eq!(roots[0].index, 1);
    assert_eq!(roots[0].times_explored, 10);
    assert_eq!(roots[0].score, 10 * searcher.get_best_score());
    assert!(searcher.get_best_score() > 0);
    assert_eq!(searcher.get_best_recommendation_indexes().len(), 3);
    assert_eq!(&searcher.get_best_recommendation_indexes()[..2], &[1, 4]);
    let before = searcher.get_best_score();
    searcher.explore_ending_rollouts(&recommendations);
    assert!(searcher.get_best_score() >= before);
    assert_eq!(searcher.get_root_values(recommendations.len()), roots);
}
