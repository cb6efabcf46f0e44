//! The parts of the tree search that work on whole numbers: random
//! playouts, the sweep of the last round, the candidates worth searching,
//! and what the searchers found taken together.

use crate::generation::{statistics_view, CommandStatistics, StatisticsView};
use crate::random::{next_state, relevant_bits, RandomNumberGenerator};
use crate::redundancy::picked;
use crate::scoring::{
    chosen, compute_greedy_best, compute_greedy_best_in_parallel,
    compute_heuristic_recommendation_score, compute_recommendations_for_indexes, greedy_indexes,
    greedy_score, heuristic_score, indexes_view, score_with,
};
use crate::search_tree::{MonteCarloExplorationData, NodeData, NodeStatistics};
use vstd::prelude::*;

verus! {

/// The index after the last of the path; zero for the empty path.
pub open spec fn next_index(path: Seq<int>) -> int {
    if path.len() > 0 {
        path.last() + 1
    } else {
        0
    }
}

/// The path with `picks` random indexes after it, each higher than the one
/// before and low enough for the picks that follow, and `reserved` indexes
/// more, to fit below `n`; and the state of the generator after them.
#[verifier::opaque]
pub open spec fn random_extension(
    path: Seq<int>,
    n: int,
    picks: int,
    reserved: int,
    state: int,
) -> (Seq<int>, int)
    decreases picks,
{
    if picks <= 0 {
        (path, state)
    } else {
        let next = next_index(path);
        let after = next_state(state);
        let choice = next + relevant_bits(after) % (n - picks - reserved + 1 - next);
        random_extension(path.push(choice), n, picks - 1, reserved, after)
    }
}

/// The indexes that a playout leaves for the greedy selection to pick
/// from: one, where the greedy selection adds the last candidate.
pub open spec fn playout_reserve(path: Seq<int>, limit: int, use_greedy: bool) -> int {
    if use_greedy && limit > path.len() {
        1
    } else {
        0
    }
}

/// The number of random picks of a playout: all the indexes that are
/// missing, or all but the last, which the greedy selection adds.
pub open spec fn playout_picks(path: Seq<int>, limit: int, use_greedy: bool) -> int {
    if use_greedy && limit > path.len() {
        limit - path.len() - 1
    } else {
        limit - path.len()
    }
}

/// The indexes that a playout ends with.
pub open spec fn playout_indexes(
    recommendations: Seq<StatisticsView>,
    path: Seq<int>,
    limit: int,
    state: int,
    use_greedy: bool,
) -> Seq<int> {
    let extended = random_extension(
        path,
        recommendations.len() as int,
        playout_picks(path, limit, use_greedy),
        playout_reserve(path, limit, use_greedy),
        state,
    ).0;
    if use_greedy {
        greedy_indexes(
            recommendations,
            extended,
            limit,
            next_index(extended),
            recommendations.len() as int,
        )
    } else {
        extended
    }
}

/// The score of a playout.
pub open spec fn playout_score(
    recommendations: Seq<StatisticsView>,
    path: Seq<int>,
    limit: int,
    state: int,
    use_greedy: bool,
) -> int {
    let extended = random_extension(
        path,
        recommendations.len() as int,
        playout_picks(path, limit, use_greedy),
        playout_reserve(path, limit, use_greedy),
        state,
    ).0;
    let indexes = playout_indexes(recommendations, path, limit, state, use_greedy);
    if use_greedy {
        greedy_score(recommendations, extended, indexes)
    } else {
        heuristic_score(chosen(recommendations, indexes))
    }
}

/// The path rises, and its indexes lie below `n`.
pub open spec fn is_rising(path: Seq<int>, n: int) -> bool {
    &&& forall|i: int, j: int| 0 <= i < j < path.len() ==> path[i] < path[j]
    &&& forall|i: int| 0 <= i < path.len() ==> 0 <= #[trigger] path[i] < n
}

/// A random extension rises where the path rises and leaves room for the
/// picks.
pub proof fn lemma_random_extension_rises(
    path: Seq<int>,
    n: int,
    picks: int,
    reserved: int,
    state: int,
)
    requires
        is_rising(path, n),
        0 <= picks,
        0 <= reserved,
        next_index(path) + picks + reserved <= n,
    ensures
        is_rising(random_extension(path, n, picks, reserved, state).0, n),
        random_extension(path, n, picks, reserved, state).0.len() == path.len() + picks,
        next_index(random_extension(path, n, picks, reserved, state).0) + reserved <= n,
    decreases picks,
{
    reveal(random_extension);
    if picks > 0 {
        let next = next_index(path);
        let after = next_state(state);
        let width = n - picks - reserved + 1 - next;
        let choice = next + relevant_bits(after) % width;
        assert(0 <= relevant_bits(after) % width < width) by (nonlinear_arith)
            requires
                width > 0,
        ;
        let longer = path.push(choice);
        assert(is_rising(longer, n)) by {
            assert forall|i: int, j: int| 0 <= i < j < longer.len() implies longer[i]
                < longer[j] by {
                if j < path.len() {
                    assert(longer[i] == path[i] && longer[j] == path[j]);
                } else {
                    assert(longer[i] == path[i]);
                    if i < path.len() - 1 {
                        assert(path[i] < path[path.len() - 1]);
                    }
                }
            }
            assert forall|i: int| 0 <= i < longer.len() implies 0 <= #[trigger] longer[i] < n by {
                if i < path.len() {
                    assert(longer[i] == path[i]);
                }
            }
        }
        lemma_random_extension_rises(longer, n, picks - 1, reserved, after);
    } else {
        if path.len() > 0 {
            assert(0 <= path[path.len() - 1] < n);
        }
    }
}

/// A path that rises still rises with a higher index after it.
pub proof fn lemma_push_rises(path: Seq<int>, n: int, choice: int)
    requires
        is_rising(path, n),
        next_index(path) <= choice < n,
    ensures
        is_rising(path.push(choice), n),
        next_index(path.push(choice)) == choice + 1,
{
    let longer = path.push(choice);
    assert forall|i: int, j: int| 0 <= i < j < longer.len() implies longer[i] < longer[j] by {
        if j < path.len() {
            assert(longer[i] == path[i] && longer[j] == path[j]);
        } else {
            assert(longer[i] == path[i]);
            if i < path.len() - 1 {
                assert(path[i] < path[path.len() - 1]);
            }
        }
    }
    assert forall|i: int| 0 <= i < longer.len() implies 0 <= #[trigger] longer[i] < n by {
        if i < path.len() {
            assert(longer[i] == path[i]);
        }
    }
}

/// The index after the last of the path.
fn next_index_of(path: &Vec<usize>, Ghost(n): Ghost<int>) -> (r: usize)
    requires
        is_rising(indexes_view(path@), n),
        n <= usize::MAX,
    ensures
        r == next_index(indexes_view(path@)),
{
    if path.len() > 0 {
        assert(indexes_view(path@)[path.len() - 1] == path[path.len() - 1]);
        path[path.len() - 1] + 1
    } else {
        0
    }
}

/// Puts `picks` random indexes after the path, and leaves `reserved`
/// indexes above them.
fn extend_randomly(
    generator: &mut RandomNumberGenerator,
    path: &mut Vec<usize>,
    n: usize,
    picks: usize,
    reserved: usize,
)
    requires
        is_rising(indexes_view(old(path)@), n as int),
        next_index(indexes_view(old(path)@)) + picks + reserved <= n,
    ensures
        (indexes_view(final(path)@), final(generator)@) == random_extension(
            indexes_view(old(path)@),
            n as int,
            picks as int,
            reserved as int,
            old(generator)@,
        ),
        is_rising(indexes_view(final(path)@), n as int),
    decreases picks,
{
    reveal(random_extension);
    if picks == 0 {
        return ;
    }
    let ghost before = indexes_view(path@);
    let next = next_index_of(path, Ghost(n as int));
    let choice = generator.next_in_range(next, n - picks - reserved + 1);
    path.push(choice);
    proof {
        assert(indexes_view(path@) =~= before.push(choice as int));
        lemma_push_rises(before, n as int, choice as int);
    }
    extend_randomly(generator, path, n, picks - 1, reserved);
}

/// What a roller holds: the best score met, the indexes that gave it, and
/// the state of its generator.
pub struct RollerView {
    pub best_score: int,
    pub best_recommendation_indexes: Seq<int>,
    pub state: int,
}

/// Plays selections out at random and remembers the best.
pub struct Roller {
    best_score: u128,
    best_recommendation_indexes: Vec<usize>,
    generator: RandomNumberGenerator,
}

impl View for Roller {
    type V = RollerView;

    closed spec fn view(&self) -> RollerView {
        RollerView {
            best_score: self.best_score as int,
            best_recommendation_indexes: indexes_view(self.best_recommendation_indexes@),
            state: self.generator@,
        }
    }
}

/// The roller after a playout from `path`: its generator has moved on, and
/// the playout is its best where it scored higher than the best before.
pub open spec fn rolled(
    roller: RollerView,
    recommendations: Seq<StatisticsView>,
    path: Seq<int>,
    limit: int,
    use_greedy: bool,
) -> RollerView {
    let score = playout_score(recommendations, path, limit, roller.state, use_greedy);
    let state = random_extension(
        path,
        recommendations.len() as int,
        playout_picks(path, limit, use_greedy),
        playout_reserve(path, limit, use_greedy),
        roller.state,
    ).1;
    if score > roller.best_score {
        RollerView {
            best_score: score,
            best_recommendation_indexes: playout_indexes(
                recommendations,
                path,
                limit,
                roller.state,
                use_greedy,
            ),
            state,
        }
    } else {
        RollerView { state, ..roller }
    }
}

impl Roller {
    /// A roller that has met nothing, with a generator seeded by `seed`.
    pub fn new(seed: u64) -> (r: Self)
        ensures
            r@ == (RollerView {
                best_score: 0,
                best_recommendation_indexes: Seq::empty(),
                state: seed as int,
            }),
    {
        let r = Roller {
            best_score: 0,
            best_recommendation_indexes: Vec::new(),
            generator: RandomNumberGenerator::new(seed),
        };
        assert(indexes_view(r.best_recommendation_indexes@) =~= Seq::<int>::empty());
        r
    }

    /// The best score met.
    pub fn get_best_score(&self) -> (r: u128)
        ensures
            r == self@.best_score,
    {
        self.best_score
    }

    /// The indexes that gave the best score.
    pub fn get_best_recommendation_indexes(&self) -> (r: &Vec<usize>)
        ensures
            indexes_view(r@) == self@.best_recommendation_indexes,
    {
        &self.best_recommendation_indexes
    }

    /// Plays a selection out from `starting_path`: indexes are picked at
    /// random, each higher than the one before, until the selection has
    /// `recommendation_limit` candidates; with `use_greedy`, the last one is
    /// the best addition. Returns the score of the selection.
    pub fn simulate_play_out(
        &mut self,
        recommendations: &Vec<CommandStatistics>,
        starting_path: &Vec<usize>,
        use_greedy: bool,
        recommendation_limit: usize,
    ) -> (r: u128)
        requires
            is_rising(indexes_view(starting_path@), recommendations.len() as int),
            starting_path.len() <= recommendation_limit,
            next_index(indexes_view(starting_path@)) + (recommendation_limit - starting_path.len())
                <= recommendations.len(),
        ensures
            r == playout_score(
                statistics_view(recommendations@),
                indexes_view(starting_path@),
                recommendation_limit as int,
                old(self)@.state,
                use_greedy,
            ),
            final(self)@ == rolled(
                old(self)@,
                statistics_view(recommendations@),
                indexes_view(starting_path@),
                recommendation_limit as int,
                use_greedy,
            ),
    {
        let (score, indexes) = play_out(
            &mut self.generator,
            recommendations,
            starting_path,
            use_greedy,
            recommendation_limit,
        );
        if score > self.best_score {
            self.best_score = score;
            self.best_recommendation_indexes = indexes;
        }
        score
    }
}

/// Plays a selection out from `starting_path`, and returns its score and
/// its indexes.
fn play_out(
    generator: &mut RandomNumberGenerator,
    recommendations: &Vec<CommandStatistics>,
    starting_path: &Vec<usize>,
    use_greedy: bool,
    recommendation_limit: usize,
) -> (r: (u128, Vec<usize>))
    requires
        is_rising(indexes_view(starting_path@), recommendations.len() as int),
        starting_path.len() <= recommendation_limit,
        next_index(indexes_view(starting_path@)) + (recommendation_limit - starting_path.len())
            <= recommendations.len(),
    ensures
        r.0 == playout_score(
            statistics_view(recommendations@),
            indexes_view(starting_path@),
            recommendation_limit as int,
            old(generator)@,
            use_greedy,
        ),
        indexes_view(r.1@) == playout_indexes(
            statistics_view(recommendations@),
            indexes_view(starting_path@),
            recommendation_limit as int,
            old(generator)@,
            use_greedy,
        ),
        final(generator)@ == random_extension(
            indexes_view(starting_path@),
            recommendations.len() as int,
            playout_picks(indexes_view(starting_path@), recommendation_limit as int, use_greedy),
            playout_reserve(indexes_view(starting_path@), recommendation_limit as int, use_greedy),
            old(generator)@,
        ).1,
{
    let ghost all = statistics_view(recommendations@);
    let ghost begin = indexes_view(starting_path@);
    let n = recommendations.len();
    assert(all.len() == n);
    assert(begin.len() == starting_path.len());
    let num_remaining = recommendation_limit - starting_path.len();
    let reserved: usize = if use_greedy && num_remaining > 0 {
        1
    } else {
        0
    };
    let num_random: usize = num_remaining - reserved;
    let mut path: Vec<usize> = Vec::new();
    let mut k: usize = 0;
    while k < starting_path.len()
        invariant
            k <= starting_path.len(),
            path.len() == k,
            forall|j: int| 0 <= j < k ==> path[j] == starting_path[j],
        decreases starting_path.len() - k,
    {
        path.push(starting_path[k]);
        k += 1;
    }
    assert(indexes_view(path@) =~= begin);
    extend_randomly(generator, &mut path, n, num_random, reserved);
    let next_possible_index = next_index_of(&path, Ghost(n as int));
    if use_greedy {
        assert forall|j: int| 0 <= j < path.len() implies path[j] < n by {
            assert(0 <= indexes_view(path@)[j] < n);
        }
        assert(next_possible_index <= n) by {
            if path.len() > 0 {
                assert(0 <= indexes_view(path@)[path.len() - 1] < n);
            }
        }
        let (_, score, indexes) = compute_greedy_best(
            recommendations,
            recommendation_limit,
            &path,
            (next_possible_index, n),
        );
        (score, indexes)
    } else {
        assert forall|j: int| 0 <= j < path.len() implies path[j] < n by {
            assert(0 <= indexes_view(path@)[j] < n);
        }
        let selection = compute_recommendations_for_indexes(recommendations, &path);
        (compute_heuristic_recommendation_score(&selection), path)
    }
}

/// The indexes are a selection of `limit` among `n` candidates: they rise,
/// lie below `n`, and are `limit` many.
pub open spec fn is_selection(indexes: Seq<int>, n: int, limit: int) -> bool {
    is_rising(indexes, n) && indexes.len() == limit
}

/// A playout ends with indexes that rise; where it scores above zero, they
/// are a selection of as many candidates as were asked for, and the score is
/// the score of that selection.
pub proof fn lemma_playout_is_a_selection(
    recommendations: Seq<StatisticsView>,
    path: Seq<int>,
    limit: int,
    state: int,
    use_greedy: bool,
)
    requires
        is_rising(path, recommendations.len() as int),
        path.len() <= limit,
        next_index(path) + (limit - path.len()) <= recommendations.len(),
    ensures
        is_rising(
            playout_indexes(recommendations, path, limit, state, use_greedy),
            recommendations.len() as int,
        ),
        playout_score(recommendations, path, limit, state, use_greedy) > 0 || !use_greedy
            ==> is_selection(
            playout_indexes(recommendations, path, limit, state, use_greedy),
            recommendations.len() as int,
            limit,
        ) && playout_score(recommendations, path, limit, state, use_greedy) == heuristic_score(
            chosen(
                recommendations,
                playout_indexes(recommendations, path, limit, state, use_greedy),
            ),
        ),
{
    let n = recommendations.len() as int;
    let picks = playout_picks(path, limit, use_greedy);
    let reserve = playout_reserve(path, limit, use_greedy);
    let extended = random_extension(path, n, picks, reserve, state).0;
    lemma_random_extension_rises(path, n, picks, reserve, state);
    if use_greedy {
        let from = next_index(extended);
        if limit > path.len() {
            assert(extended.len() == limit - 1);
            assert(greedy_indexes(recommendations, extended, limit - 1, from, n) == extended);
            crate::scoring::lemma_best_addition_is_new(recommendations, extended, from, n);
            match crate::scoring::best_addition(recommendations, extended, from, n) {
                Some(best) => {
                    lemma_push_rises(extended, n, best);
                },
                None => {},
            }
        } else {
            assert(greedy_indexes(recommendations, extended, limit, from, n) == extended);
        }
    }
}

/// What the roller holds as its best is a selection with its score, unless
/// it has met nothing that scored above zero.
pub open spec fn roller_is_sound(
    roller: RollerView,
    recommendations: Seq<StatisticsView>,
    limit: int,
) -> bool {
    roller.best_score > 0 ==> is_selection(
        roller.best_recommendation_indexes,
        recommendations.len() as int,
        limit,
    ) && roller.best_score == heuristic_score(
        chosen(recommendations, roller.best_recommendation_indexes),
    )
}

/// A playout leaves the roller sound.
pub proof fn lemma_rolled_is_sound(
    roller: RollerView,
    recommendations: Seq<StatisticsView>,
    path: Seq<int>,
    limit: int,
    use_greedy: bool,
)
    requires
        roller_is_sound(roller, recommendations, limit),
        is_rising(path, recommendations.len() as int),
        path.len() <= limit,
        next_index(path) + (limit - path.len()) <= recommendations.len(),
    ensures
        roller_is_sound(rolled(roller, recommendations, path, limit, use_greedy), recommendations, limit),
        rolled(roller, recommendations, path, limit, use_greedy).best_score >= roller.best_score,
{
    lemma_playout_is_a_selection(recommendations, path, limit, roller.state, use_greedy);
}

/// The score of the greedy selection of at most `limit` candidates that
/// begins with the candidates at `indexes`.
pub open spec fn completed_score(
    recommendations: Seq<StatisticsView>,
    indexes: Seq<int>,
    limit: int,
) -> int {
    greedy_score(
        recommendations,
        indexes,
        greedy_indexes(recommendations, indexes, limit, 0, recommendations.len() as int),
    )
}

/// The candidate from `from` up to `to` with which, put after `indexes`,
/// the greedy selection scores highest; of several such, the first.
pub open spec fn best_double(
    recommendations: Seq<StatisticsView>,
    indexes: Seq<int>,
    limit: int,
    from: int,
    to: int,
) -> Option<int>
    decreases to - from,
{
    if to <= from {
        None
    } else {
        match best_double(recommendations, indexes, limit, from, to - 1) {
            None => Some(to - 1),
            Some(b) => if completed_score(recommendations, indexes.push(to - 1), limit)
                > completed_score(recommendations, indexes.push(b), limit) {
                Some(to - 1)
            } else {
                Some(b)
            },
        }
    }
}

/// The candidate that the double sweep finds lies in the range that was
/// swept, and there is one where the range is not empty.
pub proof fn lemma_best_double_is_within(
    recommendations: Seq<StatisticsView>,
    indexes: Seq<int>,
    limit: int,
    from: int,
    to: int,
)
    ensures
        match best_double(recommendations, indexes, limit, from, to) {
            Some(best) => from <= best < to,
            None => to <= from,
        },
    decreases to - from,
{
    if to > from {
        lemma_best_double_is_within(recommendations, indexes, limit, from, to - 1);
    }
}

/// Tries each candidate from `search_start_index` on after `indexes`,
/// completes the selection greedily, and returns the best score with the
/// indexes and the candidate that gave it; `None` where there is no
/// candidate to try.
pub fn perform_double_greedy(
    indexes: Vec<usize>,
    search_start_index: usize,
    recommendations: &Vec<CommandStatistics>,
    recommendation_limit: usize,
) -> (r: Option<(u128, Vec<usize>)>)
    requires
        forall|k: int| 0 <= k < indexes.len() ==> indexes[k] < recommendations.len(),
    ensures
        match r {
            Some((score, chosen_indexes)) => match best_double(
                statistics_view(recommendations@),
                indexes_view(indexes@),
                recommendation_limit as int,
                search_start_index as int,
                recommendations.len() as int,
            ) {
                Some(best) => indexes_view(chosen_indexes@) == indexes_view(indexes@).push(best)
                    && score == completed_score(
                    statistics_view(recommendations@),
                    indexes_view(indexes@).push(best),
                    recommendation_limit as int,
                ),
                None => false,
            },
            None => best_double(
                statistics_view(recommendations@),
                indexes_view(indexes@),
                recommendation_limit as int,
                search_start_index as int,
                recommendations.len() as int,
            ) is None,
        },
{
    let ghost all = statistics_view(recommendations@);
    let ghost begin = indexes_view(indexes@);
    let ghost limit = recommendation_limit as int;
    let ghost from = search_start_index as int;
    assert(all.len() == recommendations.len());
    let mut best: Option<(usize, u128)> = None;
    let mut trial = indexes;
    if search_start_index >= recommendations.len() {
        return None;
    }
    let mut i: usize = search_start_index;
    while i < recommendations.len()
        invariant
            search_start_index <= i <= recommendations.len(),
            all == statistics_view(recommendations@),
            all.len() == recommendations.len(),
            from == search_start_index as int,
            limit == recommendation_limit as int,
            indexes_view(trial@) == begin,
            forall|k: int| 0 <= k < trial.len() ==> trial[k] < recommendations.len(),
            match best {
                Some((b, score)) => best_double(all, begin, limit, from, i as int) == Some(
                    b as int,
                ) && score == completed_score(all, begin.push(b as int), limit)
                    && b < recommendations.len(),
                None => best_double(all, begin, limit, from, i as int) is None && i
                    == search_start_index,
            },
        decreases recommendations.len() - i,
    {
        trial.push(i);
        assert(indexes_view(trial@) =~= begin.push(i as int));
        let (_, score) = compute_greedy_best_in_parallel(
            recommendations,
            recommendation_limit,
            &trial,
        );
        trial.pop();
        assert(indexes_view(trial@) =~= begin);
        match best {
            None => {
                best = Some((i, score));
            },
            Some((_, best_score)) => {
                if score > best_score {
                    best = Some((i, score));
                }
            },
        }
        i += 1;
    }
    match best {
        Some((b, score)) => {
            trial.push(b);
            assert(indexes_view(trial@) =~= begin.push(b as int));
            Some((score, trial))
        },
        None => None,
    }
}

/// The candidates that are worth searching: those at `start`, and those
/// that do not lower the score of the candidates at `start` when they join
/// them.
pub open spec fn worth_searching(recommendations: Seq<StatisticsView>, start: Seq<int>) -> Seq<
    StatisticsView,
> {
    picked(
        recommendations,
        |i: int|
            start.contains(i) || score_with(recommendations, start, i) >= heuristic_score(
                chosen(recommendations, start),
            ),
        recommendations.len() as int,
    )
}

/// The candidates that are worth searching.
pub fn filter_commands(start: &Vec<usize>, recommendations: &Vec<CommandStatistics>) -> (r: Vec<
    CommandStatistics,
>)
    requires
        forall|k: int| 0 <= k < start.len() ==> start[k] < recommendations.len(),
    ensures
        statistics_view(r@) == worth_searching(
            statistics_view(recommendations@),
            indexes_view(start@),
        ),
{
    let ghost all = statistics_view(recommendations@);
    let ghost begin = indexes_view(start@);
    let mut selection = compute_recommendations_for_indexes(recommendations, start);
    let current_score = compute_heuristic_recommendation_score(&selection);
    let ghost keep = |i: int|
        begin.contains(i) || score_with(all, begin, i) >= heuristic_score(chosen(all, begin));
    let mut out: Vec<CommandStatistics> = Vec::new();
    let mut i: usize = 0;
    assert(statistics_view(out@) =~= picked(all, keep, 0));
    while i < recommendations.len()
        invariant
            i <= recommendations.len(),
            all == statistics_view(recommendations@),
            begin == indexes_view(start@),
            statistics_view(selection@) == chosen(all, begin),
            current_score == heuristic_score(chosen(all, begin)),
            keep == |i: int|
                begin.contains(i) || score_with(all, begin, i) >= heuristic_score(
                    chosen(all, begin),
                ),
            statistics_view(out@) == picked(all, keep, i as int),
        decreases recommendations.len() - i,
    {
        let mut kept = false;
        let mut k: usize = 0;
        while k < start.len() && !kept
            invariant
                k <= start.len(),
                begin == indexes_view(start@),
                kept ==> begin.contains(i as int),
                !kept ==> forall|m: int| 0 <= m < k ==> begin[m] != i,
            decreases start.len() - k,
        {
            if start[k] == i {
                assert(begin[k as int] == i);
                kept = true;
            }
            k += 1;
        }
        if !kept {
            let ghost before = statistics_view(selection@);
            let candidate = recommendations[i].duplicate();
            selection.push(candidate);
            assert(all[i as int] == candidate@);
            assert(statistics_view(selection@) =~= before.push(candidate@));
            assert(chosen(all, begin.push(i as int)) =~= chosen(all, begin).push(all[i as int]));
            let new_score = compute_heuristic_recommendation_score(&selection);
            selection.pop();
            assert(statistics_view(selection@) =~= before);
            kept = new_score >= current_score;
        }
        assert(kept == keep(i as int));
        if kept {
            let ghost before = statistics_view(out@);
            let copy = recommendations[i].duplicate();
            out.push(copy);
            assert(statistics_view(out@) =~= before.push(all[i as int]));
        }
        i += 1;
    }
    assert(all.len() == recommendations.len());
    out
}

/// The number of trials of a search: the number of candidates divided by
/// the number of candidates to select, rounded to the nearest whole number,
/// a half upwards.
pub fn compute_number_of_trials(number_of_recommendations: usize, recommendation_limit: usize) -> (r:
    usize)
    requires
        recommendation_limit > 0,
    ensures
        r == (2 * number_of_recommendations + recommendation_limit) / (2 * recommendation_limit),
{
    let doubled = 2 * (number_of_recommendations as u128) + (recommendation_limit as u128);
    let quotient = doubled / (2 * (recommendation_limit as u128));
    assert(quotient <= usize::MAX) by (nonlinear_arith)
        requires
            quotient as int == (doubled as int) / (2 * (recommendation_limit as int)),
            doubled as int == 2 * (number_of_recommendations as int) + (
            recommendation_limit as int),
            recommendation_limit >= 1,
            number_of_recommendations <= usize::MAX,
    ;
    quotient as usize
}

/// What a search knows of its first choices below `n`: for each candidate
/// index that it tried first, in rising order, the scores and the
/// explorations.
pub open spec fn root_values(data: MonteCarloExplorationData, n: int) -> Seq<NodeData>
    decreases n,
{
    if n <= 0 {
        Seq::empty()
    } else {
        match data.statistics_at(seq![n - 1]) {
            Some(s) => root_values(data, n - 1).push(
                NodeData {
                    index: (n - 1) as usize,
                    score: s.score as u128,
                    times_explored: s.times_explored as usize,
                },
            ),
            None => root_values(data, n - 1),
        }
    }
}

/// What the search knows of its first choices among the candidates.
pub fn get_root_values(data: &MonteCarloExplorationData, number_of_recommendations: usize) -> (r:
    Vec<NodeData>)
    ensures
        r@ == root_values(*data, number_of_recommendations as int),
{
    let mut values: Vec<NodeData> = Vec::new();
    let mut i: usize = 0;
    while i < number_of_recommendations
        invariant
            i <= number_of_recommendations,
            values@ == root_values(*data, i as int),
        decreases number_of_recommendations - i,
    {
        let mut path: Vec<usize> = Vec::new();
        path.push(i);
        assert(indexes_view(path@) =~= seq![i as int]);
        match data.get_statistics(&path) {
            Some(found) => {
                values.push(NodeData { index: i, score: found.score, times_explored: found.times_explored });
            },
            None => {},
        }
        i += 1;
    }
    values
}

/// The place, at or after `from`, of the value for the candidate index
/// `index`.
pub open spec fn value_place(values: Seq<NodeData>, index: usize, from: int) -> Option<int>
    decreases values.len() - from,
{
    if from < 0 || from >= values.len() {
        None
    } else if values[from].index == index {
        Some(from)
    } else {
        value_place(values, index, from + 1)
    }
}

/// Two values for one candidate index taken together: the scores added,
/// and the explorations; the numbers stop at the largest that their types
/// hold.
pub open spec fn values_added(a: NodeData, b: NodeData) -> NodeData {
    NodeData {
        index: a.index,
        score: if a.score + b.score > u128::MAX {
            u128::MAX
        } else {
            (a.score + b.score) as u128
        },
        times_explored: if a.times_explored + b.times_explored > usize::MAX {
            usize::MAX
        } else {
            (a.times_explored + b.times_explored) as usize
        },
    }
}

/// The values with one more taken in: it is added to the value for its
/// candidate index, and joins the values where there is none.
pub open spec fn value_taken_in(values: Seq<NodeData>, value: NodeData) -> Seq<NodeData> {
    match value_place(values, value.index, 0) {
        Some(k) => values.update(k, values_added(values[k], value)),
        None => values.push(value),
    }
}

/// The values with the first `n` of `more` taken in.
pub open spec fn values_taken_in(values: Seq<NodeData>, more: Seq<NodeData>, n: int) -> Seq<NodeData>
    decreases n,
{
    if n <= 0 {
        values
    } else {
        value_taken_in(values_taken_in(values, more, n - 1), more[n - 1])
    }
}

/// A found place lies among the values.
proof fn lemma_value_place(values: Seq<NodeData>, index: usize, from: int)
    requires
        0 <= from,
    ensures
        match value_place(values, index, from) {
            Some(k) => from <= k < values.len() && values[k].index == index,
            None => true,
        },
    decreases values.len() - from,
{
    if from < values.len() && values[from].index != index {
        lemma_value_place(values, index, from + 1);
    }
}

/// Takes what another searcher knows of its first choices into what is
/// known already.
pub fn add_root_values(aggregation: &mut Vec<NodeData>, values: &Vec<NodeData>)
    ensures
        final(aggregation)@ == values_taken_in(old(aggregation)@, values@, values.len() as int),
{
    let mut i: usize = 0;
    while i < values.len()
        invariant
            i <= values.len(),
            aggregation@ == values_taken_in(old(aggregation)@, values@, i as int),
        decreases values.len() - i,
    {
        let value = values[i];
        let ghost before = aggregation@;
        let mut place: Option<usize> = None;
        let mut k: usize = 0;
        while k < aggregation.len() && place.is_none()
            invariant
                k <= aggregation.len(),
                aggregation@ == before,
                match place {
                    Some(p) => value_place(before, value.index, 0) == Some(p as int),
                    None => value_place(before, value.index, 0) == value_place(
                        before,
                        value.index,
                        k as int,
                    ),
                },
            decreases aggregation.len() - k,
        {
            if aggregation[k].index == value.index {
                place = Some(k);
            }
            k += 1;
        }
        proof {
            lemma_value_place(before, value.index, 0);
        }
        match place {
            Some(p) => {
                let known = aggregation[p];
                let sum = NodeData {
                    index: known.index,
                    score: known.score.saturating_add(value.score),
                    times_explored: known.times_explored.saturating_add(value.times_explored),
                };
                aggregation.set(p, sum);
            },
            None => {
                aggregation.push(value);
            },
        }
        i += 1;
    }
}

/// The score of a value: its scores divided by its explorations, rounded
/// down; zero where there was no exploration.
pub open spec fn value_average(value: NodeData) -> int {
    if value.times_explored == 0 {
        0
    } else {
        value.score as int / value.times_explored as int
    }
}

/// The candidate index with the highest average among the first `n`
/// values, and that average; of several such, the first. The index is zero
/// where no average is above zero.
pub open spec fn best_value(values: Seq<NodeData>, n: int) -> (usize, int)
    decreases n,
{
    if n <= 0 {
        (0usize, 0int)
    } else {
        let before = best_value(values, n - 1);
        if value_average(values[n - 1]) > before.1 {
            (values[n - 1].index, value_average(values[n - 1]))
        } else {
            before
        }
    }
}

/// The first choice that the searchers, taken together, found best: the
/// candidate index with the highest average score.
pub fn compute_best_index_from_aggregation(aggregation: &Vec<NodeData>) -> (r: usize)
    ensures
        r == best_value(aggregation@, aggregation.len() as int).0,
{
    let mut best_score: u128 = 0;
    let mut best_index: usize = 0;
    let mut i: usize = 0;
    while i < aggregation.len()
        invariant
            i <= aggregation.len(),
            (best_index, best_score as int) == best_value(aggregation@, i as int),
        decreases aggregation.len() - i,
    {
        let value = aggregation[i];
        let average: u128 = if value.times_explored == 0 {
            0
        } else {
            value.score / (value.times_explored as u128)
        };
        if average > best_score {
            best_index = value.index;
            best_score = average;
        }
        i += 1;
    }
    best_index
}

} // verus!
