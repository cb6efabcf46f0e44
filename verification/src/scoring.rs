//! The heuristic score of a selection of candidates, and the greedy
//! selection that it guides.

use crate::actions::{action_json, actions_view, ActionView, BasicAction};
use crate::commands::{
    get_insert_text_from_insert_only_actions, insert_text_view, is_insert_only_actions,
    is_insert_view,
};
use crate::generation::{statistics_view, CommandStatistics, StatisticsView};
use crate::text::{chars_equal, chars_of, slice_chars};
use vstd::prelude::*;

verus! {

/// The number that stands for the weight one: scores and weights are held
/// as whole numbers of this many parts.
pub const SCORE_SCALE: u128 = 0x1_0000_0000;

/// The candidate holds an action whose JSON form is `key`.
pub open spec fn holds_action(c: StatisticsView, key: Seq<char>) -> bool {
    exists|k: int| 0 <= k < c.actions.len() && action_json(#[trigger] c.actions[k]) == key
}

/// The number of candidates of the selection that hold an action whose
/// JSON form is `key`.
pub open spec fn action_frequency(selection: Seq<StatisticsView>, key: Seq<char>) -> int {
    selection.fold_left(
        0int,
        |count: int, c: StatisticsView|
            if holds_action(c, key) {
                count + 1
            } else {
                count
            },
    )
}

/// The candidate is one action that inserts one text.
pub open spec fn is_single_insert(c: StatisticsView) -> bool {
    c.actions.len() == 1 && is_insert_view(c.actions[0])
}

/// The text that a candidate of one `insert` inserts.
pub open spec fn single_insert_text(c: StatisticsView) -> Seq<char> {
    insert_text_view(c.actions[0])
}

/// The selection holds two candidates of one `insert` each whose texts
/// differ.
pub open spec fn has_distinct_inserts(selection: Seq<StatisticsView>) -> bool {
    exists|i: int, j: int|
        0 <= i < selection.len() && 0 <= j < selection.len() && is_single_insert(
            #[trigger] selection[i],
        ) && is_single_insert(#[trigger] selection[j]) && single_insert_text(selection[i])
            != single_insert_text(selection[j])
}

/// A start or an end of `a` that is `length` long is a start or an end of
/// `b`.
pub open spec fn shares_edge(a: Seq<char>, b: Seq<char>, length: int) -> bool {
    &&& 0 <= length <= a.len()
    &&& length <= b.len()
    &&& (a.subrange(0, length) == b.subrange(0, length) || a.subrange(0, length) == b.subrange(
        b.len() - length,
        b.len() as int,
    ) || a.subrange(a.len() - length, a.len() as int) == b.subrange(0, length) || a.subrange(
        a.len() - length,
        a.len() as int,
    ) == b.subrange(b.len() - length, b.len() as int))
}

/// The largest length, no more than `limit`, of a start or an end of `a`
/// that is a start or an end of `b`.
pub open spec fn overlap_up_to(a: Seq<char>, b: Seq<char>, limit: int) -> int
    decreases limit,
{
    if limit <= 0 {
        0
    } else if shares_edge(a, b, limit) {
        limit
    } else {
        overlap_up_to(a, b, limit - 1)
    }
}

/// The length of the longest start or end of `a` that is a start or an end
/// of `b`.
pub open spec fn overlap(a: Seq<char>, b: Seq<char>) -> int {
    overlap_up_to(
        a,
        b,
        if a.len() <= b.len() {
            a.len() as int
        } else {
            b.len() as int
        },
    )
}

/// The largest overlap of `text` with the text of another candidate of one
/// `insert` in the selection whose text differs from it.
pub open spec fn insert_similarity(selection: Seq<StatisticsView>, text: Seq<char>) -> int {
    selection.fold_left(
        0int,
        |best: int, c: StatisticsView|
            if is_single_insert(c) && single_insert_text(c) != text && overlap(
                text,
                single_insert_text(c),
            ) > best {
                overlap(text, single_insert_text(c))
            } else {
                best
            },
    )
}

/// The weight of a candidate that inserts `text`: the share of the text
/// that it does not have in common with another inserted text, in parts of
/// the scale and rounded down.
pub open spec fn insert_weight(selection: Seq<StatisticsView>, text: Seq<char>) -> int {
    if text.len() == 0 {
        0x1_0000_0000int
    } else {
        0x1_0000_0000int * (text.len() - insert_similarity(selection, text)) / (text.len() as int)
    }
}

/// The inverse frequencies of the actions, added up; each in parts of the
/// scale and rounded down.
pub open spec fn inverse_frequencies(selection: Seq<StatisticsView>, actions: Seq<ActionView>) -> int {
    actions.fold_left(
        0int,
        |sum: int, a: ActionView|
            sum + 0x1_0000_0000int / action_frequency(selection, action_json(a)),
    )
}

/// The weight of a candidate by its actions: the mean of their inverse
/// frequencies, rounded down.
pub open spec fn frequency_weight(selection: Seq<StatisticsView>, c: StatisticsView) -> int {
    if c.actions.len() == 0 {
        0
    } else {
        inverse_frequencies(selection, c.actions) / (c.actions.len() as int)
    }
}

/// The weight of a candidate in a selection.
pub open spec fn candidate_weight(selection: Seq<StatisticsView>, c: StatisticsView) -> int {
    if is_single_insert(c) && has_distinct_inserts(selection) {
        insert_weight(selection, single_insert_text(c))
    } else {
        frequency_weight(selection, c)
    }
}

/// What a candidate adds to the score of a selection.
pub open spec fn candidate_score(selection: Seq<StatisticsView>, c: StatisticsView) -> int {
    c.number_of_words_saved * candidate_weight(selection, c)
}

/// The heuristic score of a selection, in parts of the scale: the words
/// that each candidate saves, times its weight, added up.
pub open spec fn heuristic_score(selection: Seq<StatisticsView>) -> int {
    selection.fold_left(
        0int,
        |sum: int, c: StatisticsView| sum + candidate_score(selection, c),
    )
}

/// The overlap of two texts.
fn overlap_length(a: &Vec<char>, b: &Vec<char>) -> (r: usize)
    ensures
        r == overlap(a@, b@),
        r <= a.len(),
{
    let limit: usize = if a.len() <= b.len() {
        a.len()
    } else {
        b.len()
    };
    let mut best: usize = 0;
    let mut done: usize = 0;
    while done < limit
        invariant
            done <= limit,
            limit <= a.len(),
            limit <= b.len(),
            best <= done,
            best == overlap_up_to(a@, b@, done as int),
        decreases limit - done,
    {
        let length: usize = done + 1;
        let a_start = slice_chars(a, 0, length);
        let a_end = slice_chars(a, a.len() - length, a.len());
        let b_start = slice_chars(b, 0, length);
        let b_end = slice_chars(b, b.len() - length, b.len());
        if chars_equal(&a_start, &b_start) || chars_equal(&a_start, &b_end) || chars_equal(
            &a_end,
            &b_start,
        ) || chars_equal(&a_end, &b_end) {
            best = length;
        }
        done = length;
    }
    best
}

/// The largest overlap of `text` with an inserted text of the selection
/// that differs from it.
pub fn compute_max_nonidentical_prefix_or_suffix_similarity(
    text: &str,
    recommendations: &Vec<CommandStatistics>,
) -> (r: usize)
    ensures
        r == insert_similarity(statistics_view(recommendations@), text@),
        r <= text@.len(),
{
    let text_chars = chars_of(text);
    let ghost selection = statistics_view(recommendations@);
    let mut best: usize = 0;
    let mut i: usize = 0;
    while i < recommendations.len()
        invariant
            i <= recommendations.len(),
            selection == statistics_view(recommendations@),
            text_chars@ == text@,
            best == insert_similarity(selection.subrange(0, i as int), text@),
            best <= text_chars.len(),
        decreases recommendations.len() - i,
    {
        assert(selection.subrange(0, i + 1).drop_last() == selection.subrange(0, i as int));
        assert(selection.subrange(0, i + 1).last() == recommendations[i as int]@);
        let actions = &recommendations[i].actions;
        assert(actions_view(actions@).len() == actions.len());
        if is_insert_only_actions(actions.as_slice()) {
            assert(actions_view(actions@)[0] == actions[0]@);
            let other = chars_of(get_insert_text_from_insert_only_actions(actions.as_slice()).as_str());
            if !chars_equal(&other, &text_chars) {
                let similarity = overlap_length(&text_chars, &other);
                if similarity > best {
                    best = similarity;
                }
            }
        }
        i += 1;
    }
    assert(selection.subrange(0, recommendations.len() as int) == selection);
    best
}

/// The JSON forms of a candidate's actions, in order.
pub open spec fn action_keys(c: StatisticsView) -> Seq<Seq<char>> {
    c.actions.map_values(|a: ActionView| action_json(a))
}

/// The views of the texts, in order.
pub open spec fn keys_view(keys: Seq<Vec<char>>) -> Seq<Seq<char>> {
    keys.map_values(|k: Vec<char>| k@)
}

/// The JSON forms of the actions of each candidate.
fn compute_action_keys(recommendations: &Vec<CommandStatistics>) -> (r: Vec<Vec<Vec<char>>>)
    ensures
        r.len() == recommendations.len(),
        forall|i: int|
            0 <= i < r.len() ==> keys_view((#[trigger] r[i])@) == action_keys(recommendations[i]@),
{
    let mut all: Vec<Vec<Vec<char>>> = Vec::new();
    let mut i: usize = 0;
    while i < recommendations.len()
        invariant
            i <= recommendations.len(),
            all.len() == i,
            forall|j: int|
                0 <= j < i ==> keys_view((#[trigger] all[j])@) == action_keys(recommendations[j]@),
        decreases recommendations.len() - i,
    {
        let actions = &recommendations[i].actions;
        let mut keys: Vec<Vec<char>> = Vec::new();
        let mut k: usize = 0;
        while k < actions.len()
            invariant
                k <= actions.len(),
                keys.len() == k,
                forall|m: int| 0 <= m < k ==> (#[trigger] keys[m])@ == action_json(actions[m]@),
            decreases actions.len() - k,
        {
            keys.push(actions[k].json_chars());
            k += 1;
        }
        assert(keys_view(keys@) =~= action_keys(recommendations[i as int]@));
        all.push(keys);
        i += 1;
    }
    all
}

/// Whether one of the keys is `key`.
fn holds_key(keys: &Vec<Vec<char>>, key: &Vec<char>, Ghost(c): Ghost<StatisticsView>) -> (r: bool)
    requires
        keys_view(keys@) == action_keys(c),
    ensures
        r == holds_action(c, key@),
{
    let mut k: usize = 0;
    assert(keys_view(keys@).len() == keys.len());
    assert(action_keys(c).len() == c.actions.len());
    while k < keys.len()
        invariant
            k <= keys.len(),
            keys.len() == c.actions.len(),
            keys_view(keys@) == action_keys(c),
            forall|m: int| 0 <= m < k ==> action_json(#[trigger] c.actions[m]) != key@,
        decreases keys.len() - k,
    {
        assert(keys_view(keys@)[k as int] == keys[k as int]@);
        assert(action_keys(c)[k as int] == action_json(c.actions[k as int]));
        if chars_equal(&keys[k], key) {
            return true;
        }
        k += 1;
    }
    assert(keys_view(keys@).len() == c.actions.len());
    false
}

/// The number of candidates that hold an action whose JSON form is `key`.
fn frequency_of(
    all_keys: &Vec<Vec<Vec<char>>>,
    key: &Vec<char>,
    Ghost(selection): Ghost<Seq<StatisticsView>>,
) -> (r: usize)
    requires
        all_keys.len() == selection.len(),
        forall|i: int|
            0 <= i < all_keys.len() ==> keys_view((#[trigger] all_keys[i])@) == action_keys(
                selection[i],
            ),
    ensures
        r == action_frequency(selection, key@),
{
    let mut count: usize = 0;
    let mut i: usize = 0;
    while i < all_keys.len()
        invariant
            i <= all_keys.len(),
            all_keys.len() == selection.len(),
            forall|j: int|
                0 <= j < all_keys.len() ==> keys_view((#[trigger] all_keys[j])@) == action_keys(
                    selection[j],
                ),
            count <= i,
            count == action_frequency(selection.subrange(0, i as int), key@),
        decreases all_keys.len() - i,
    {
        assert(selection.subrange(0, i + 1).drop_last() == selection.subrange(0, i as int));
        assert(selection.subrange(0, i + 1).last() == selection[i as int]);
        if holds_key(&all_keys[i], key, Ghost(selection[i as int])) {
            count += 1;
        }
        i += 1;
    }
    assert(selection.subrange(0, selection.len() as int) == selection);
    count
}

/// The number of candidates of the selection that hold the action.
pub fn compute_number_of_commands_including_action(
    recommendations: &Vec<CommandStatistics>,
    action: &BasicAction,
) -> (r: usize)
    ensures
        r == action_frequency(statistics_view(recommendations@), action_json(action@)),
{
    let all_keys = compute_action_keys(recommendations);
    frequency_of(&all_keys, &action.json_chars(), Ghost(statistics_view(recommendations@)))
}

/// A selection that holds a candidate with an action of the key holds it
/// at least once, and no selection holds it more often than it has
/// candidates.
pub proof fn lemma_frequency_bounds(selection: Seq<StatisticsView>, key: Seq<char>)
    ensures
        0 <= action_frequency(selection, key) <= selection.len(),
        (exists|i: int| 0 <= i < selection.len() && holds_action(#[trigger] selection[i], key))
            ==> action_frequency(selection, key) >= 1,
    decreases selection.len(),
{
    if selection.len() > 0 {
        lemma_frequency_bounds(selection.drop_last(), key);
        if exists|i: int| 0 <= i < selection.len() && holds_action(#[trigger] selection[i], key) {
            let i = choose|i: int|
                0 <= i < selection.len() && holds_action(#[trigger] selection[i], key);
            if i < selection.len() - 1 {
                assert(holds_action(selection.drop_last()[i], key));
            }
        }
    }
}

/// The overlap of two texts is a length within the first of them.
pub proof fn lemma_overlap_bounds(a: Seq<char>, b: Seq<char>, limit: int)
    requires
        limit <= a.len(),
    ensures
        0 <= overlap_up_to(a, b, limit) <= a.len(),
    decreases limit,
{
    if limit > 0 && !shares_edge(a, b, limit) {
        lemma_overlap_bounds(a, b, limit - 1);
    }
}

/// The similarity of a text to the selection is a length within the text.
pub proof fn lemma_similarity_bounds(selection: Seq<StatisticsView>, text: Seq<char>)
    ensures
        0 <= insert_similarity(selection, text) <= text.len(),
    decreases selection.len(),
{
    if selection.len() > 0 {
        lemma_similarity_bounds(selection.drop_last(), text);
        let other = single_insert_text(selection.last());
        lemma_overlap_bounds(
            text,
            other,
            if text.len() <= other.len() {
                text.len() as int
            } else {
                other.len() as int
            },
        );
    }
}

/// The weight of an inserted text is the share of the text that it has not
/// in common with another, in parts of the scale, less than one part off:
/// it is the whole scale where the text has nothing in common with another,
/// and never more.
pub proof fn lemma_insert_weight_is_the_share(selection: Seq<StatisticsView>, text: Seq<char>)
    ensures
        0 <= insert_weight(selection, text) <= 0x1_0000_0000int,
        insert_similarity(selection, text) == 0 ==> insert_weight(selection, text)
            == 0x1_0000_0000int,
        insert_weight(selection, text) * text.len() <= 0x1_0000_0000int * (text.len()
            - insert_similarity(selection, text)),
        text.len() > 0 ==> 0x1_0000_0000int * (text.len() - insert_similarity(selection, text)) < (
        insert_weight(selection, text) + 1) * text.len(),
{
    lemma_similarity_bounds(selection, text);
    let length = text.len() as int;
    let rest = length - insert_similarity(selection, text);
    if length > 0 {
        let whole = 0x1_0000_0000int * rest;
        let weight = whole / length;
        assert(0 <= whole <= 0x1_0000_0000int * length) by (nonlinear_arith)
            requires
                whole == 0x1_0000_0000int * rest,
                0 <= rest <= length,
        ;
        assert(0 <= weight <= 0x1_0000_0000int && weight * length <= whole < (weight + 1) * length)
            by (nonlinear_arith)
            requires
                weight == whole / length,
                length > 0,
                0 <= whole <= 0x1_0000_0000int * length,
        ;
        if rest == length {
            assert(weight == 0x1_0000_0000int) by (nonlinear_arith)
                requires
                    weight == (0x1_0000_0000int * length) / length,
                    length > 0,
            ;
        }
    }
}

/// The inverse frequencies of actions that the selection holds add up to
/// no more than the whole scale for each, and to the whole scale for each
/// where every one of them stands in one candidate only.
pub proof fn lemma_inverse_frequencies_bounds(
    selection: Seq<StatisticsView>,
    actions: Seq<ActionView>,
)
    requires
        forall|k: int|
            0 <= k < actions.len() ==> action_frequency(selection, action_json(#[trigger] actions[k]))
                >= 1,
    ensures
        0 <= inverse_frequencies(selection, actions) <= 0x1_0000_0000int * actions.len(),
        (forall|k: int|
            0 <= k < actions.len() ==> action_frequency(selection, action_json(#[trigger] actions[k]))
                == 1) ==> inverse_frequencies(selection, actions) == 0x1_0000_0000int
            * actions.len(),
    decreases actions.len(),
{
    if actions.len() > 0 {
        assert forall|k: int| 0 <= k < actions.drop_last().len() implies action_frequency(
            selection,
            action_json(#[trigger] actions.drop_last()[k]),
        ) >= 1 by {
            assert(actions.drop_last()[k] == actions[k]);
        }
        lemma_inverse_frequencies_bounds(selection, actions.drop_last());
        assert(actions.last() == actions[actions.len() - 1]);
        let frequency = action_frequency(selection, action_json(actions.last()));
        let part = 0x1_0000_0000int / frequency;
        assert(0 <= part <= 0x1_0000_0000int) by (nonlinear_arith)
            requires
                part == 0x1_0000_0000int / frequency,
                frequency >= 1,
        ;
        if frequency == 1 {
            assert(0x1_0000_0000int / 1 == 0x1_0000_0000int);
        }
        assert(inverse_frequencies(selection, actions) == inverse_frequencies(
            selection,
            actions.drop_last(),
        ) + part);
        if forall|k: int|
            0 <= k < actions.len() ==> action_frequency(selection, action_json(#[trigger] actions[k]))
                == 1 {
            assert forall|k: int| 0 <= k < actions.drop_last().len() implies action_frequency(
                selection,
                action_json(#[trigger] actions.drop_last()[k]),
            ) == 1 by {
                assert(actions.drop_last()[k] == actions[k]);
            }
            assert(action_json(actions[actions.len() - 1]) == action_json(actions.last()));
        }
    }
}

/// Whether the selection holds two candidates of one `insert` each whose
/// texts differ.
pub fn has_several_single_inserts(recommendations: &Vec<CommandStatistics>) -> (r: bool)
    ensures
        r == has_distinct_inserts(statistics_view(recommendations@)),
{
    let ghost selection = statistics_view(recommendations@);
    let mut first: Option<usize> = None;
    let mut i: usize = 0;
    while i < recommendations.len()
        invariant
            i <= recommendations.len(),
            selection == statistics_view(recommendations@),
            match first {
                Some(f) => f < i && is_single_insert(selection[f as int]) && forall|j: int|
                    0 <= j < i && is_single_insert(#[trigger] selection[j]) ==> single_insert_text(
                        selection[j],
                    ) == single_insert_text(selection[f as int]),
                None => forall|j: int| 0 <= j < i ==> !is_single_insert(#[trigger] selection[j]),
            },
        decreases recommendations.len() - i,
    {
        let actions = &recommendations[i].actions;
        assert(actions_view(actions@).len() == actions.len());
        assert(selection[i as int].actions == actions_view(actions@));
        if is_insert_only_actions(actions.as_slice()) {
            assert(actions_view(actions@)[0] == actions[0]@);
            match first {
                None => {
                    first = Some(i);
                },
                Some(f) => {
                    let first_actions = &recommendations[f].actions;
                    assert(actions_view(first_actions@).len() == first_actions.len());
                    assert(selection[f as int].actions == actions_view(first_actions@));
                    assert(actions_view(first_actions@)[0] == first_actions[0]@);
                    let text = get_insert_text_from_insert_only_actions(actions.as_slice());
                    let first_text = get_insert_text_from_insert_only_actions(
                        first_actions.as_slice(),
                    );
                    if *text != *first_text {
                        assert(single_insert_text(selection[i as int]) != single_insert_text(
                            selection[f as int],
                        ));
                        return true;
                    }
                },
            }
        }
        i += 1;
    }
    false
}

/// The weight of candidate `index` by its actions.
fn frequency_weight_of(
    all_keys: &Vec<Vec<Vec<char>>>,
    index: usize,
    Ghost(selection): Ghost<Seq<StatisticsView>>,
) -> (r: u128)
    requires
        index < all_keys.len(),
        all_keys.len() == selection.len(),
        forall|i: int|
            0 <= i < all_keys.len() ==> keys_view((#[trigger] all_keys[i])@) == action_keys(
                selection[i],
            ),
    ensures
        r == frequency_weight(selection, selection[index as int]),
        r <= 0x1_0000_0000,
{
    let keys = &all_keys[index];
    let ghost c = selection[index as int];
    assert(keys_view(keys@).len() == keys.len());
    assert(action_keys(c).len() == c.actions.len());
    if keys.len() == 0 {
        return 0;
    }
    let mut sum: u128 = 0;
    let mut k: usize = 0;
    assert(c.actions.subrange(0, 0) =~= Seq::<ActionView>::empty());
    while k < keys.len()
        invariant
            k <= keys.len(),
            keys.len() == c.actions.len(),
            index < all_keys.len(),
            all_keys.len() == selection.len(),
            c == selection[index as int],
            keys_view(keys@) == action_keys(c),
            forall|i: int|
                0 <= i < all_keys.len() ==> keys_view((#[trigger] all_keys[i])@) == action_keys(
                    selection[i],
                ),
            sum == inverse_frequencies(selection, c.actions.subrange(0, k as int)),
            sum <= k * 0x1_0000_0000,
        decreases keys.len() - k,
    {
        let ghost done = c.actions.subrange(0, k as int);
        let ghost next = c.actions.subrange(0, k + 1);
        assert(next.drop_last() == done);
        assert(next.last() == c.actions[k as int]);
        assert(keys_view(keys@)[k as int] == keys[k as int]@);
        assert(action_keys(c)[k as int] == action_json(c.actions[k as int]));
        let frequency = frequency_of(all_keys, &keys[k], Ghost(selection));
        proof {
            assert(holds_action(c, keys[k as int]@));
            lemma_frequency_bounds(selection, keys[k as int]@);
            assert(0x1_0000_0000int / (frequency as int) <= 0x1_0000_0000) by (nonlinear_arith)
                requires
                    frequency >= 1,
            ;
            assert(k * 0x1_0000_0000 <= 0xffff_ffff_ffff_ffff * 0x1_0000_0000) by (nonlinear_arith)
                requires
                    k <= 0xffff_ffff_ffff_ffff,
            ;
            assert((k + 1) * 0x1_0000_0000 == k * 0x1_0000_0000 + 0x1_0000_0000)
                by (nonlinear_arith);
        }
        sum = sum + SCORE_SCALE / (frequency as u128);
        k += 1;
    }
    assert(c.actions.subrange(0, keys.len() as int) == c.actions);
    let count = keys.len() as u128;
    assert((sum as int) / (count as int) <= 0x1_0000_0000) by (nonlinear_arith)
        requires
            0 <= sum <= count * 0x1_0000_0000,
            count > 0,
    ;
    sum / count
}

/// The weight of a candidate that inserts `text`.
fn insert_weight_of(recommendations: &Vec<CommandStatistics>, text: &str) -> (r: u128)
    ensures
        r == insert_weight(statistics_view(recommendations@), text@),
        r <= 0x1_0000_0000,
{
    let length = text.unicode_len();
    if length == 0 {
        return SCORE_SCALE;
    }
    let similarity = compute_max_nonidentical_prefix_or_suffix_similarity(text, recommendations);
    let kept = (length - similarity) as u128;
    let whole = length as u128;
    assert(0x1_0000_0000 * kept <= 0x1_0000_0000 * 0xffff_ffff_ffff_ffff) by (nonlinear_arith)
        requires
            kept <= 0xffff_ffff_ffff_ffff,
    ;
    assert((0x1_0000_0000 * kept) / (whole as int) <= 0x1_0000_0000) by (nonlinear_arith)
        requires
            0 <= kept <= whole,
            whole > 0,
    ;
    SCORE_SCALE * kept / whole
}

/// The heuristic score of a selection, in parts of `SCORE_SCALE`.
pub fn compute_heuristic_recommendation_score(recommendations: &Vec<CommandStatistics>) -> (r: u128)
    ensures
        r == heuristic_score(statistics_view(recommendations@)),
{
    let ghost selection = statistics_view(recommendations@);
    let all_keys = compute_action_keys(recommendations);
    let several = has_several_single_inserts(recommendations);
    let mut score: u128 = 0;
    let mut i: usize = 0;
    assert(selection.len() == recommendations.len());
    while i < recommendations.len()
        invariant
            i <= recommendations.len(),
            selection == statistics_view(recommendations@),
            all_keys.len() == recommendations.len(),
            forall|j: int|
                0 <= j < all_keys.len() ==> keys_view((#[trigger] all_keys[j])@) == action_keys(
                    selection[j],
                ),
            several == has_distinct_inserts(selection),
            score == selection.subrange(0, i as int).fold_left(
                0int,
                |sum: int, c: StatisticsView| sum + candidate_score(selection, c),
            ),
            score <= i * 0x1_0000_0000_0000_0000,
        decreases recommendations.len() - i,
    {
        assert(selection.subrange(0, i + 1).drop_last() == selection.subrange(0, i as int));
        assert(selection.subrange(0, i + 1).last() == recommendations[i as int]@);
        let recommendation = &recommendations[i];
        let actions = &recommendation.actions;
        assert(actions_view(actions@).len() == actions.len());
        let weight = if several && is_insert_only_actions(actions.as_slice()) {
            assert(actions_view(actions@)[0] == actions[0]@);
            let text = get_insert_text_from_insert_only_actions(actions.as_slice());
            insert_weight_of(recommendations, text.as_str())
        } else {
            frequency_weight_of(&all_keys, i, Ghost(selection))
        };
        let saved = recommendation.number_of_words_saved as u128;
        assert(saved * weight <= 0x1_0000_0000_0000_0000) by (nonlinear_arith)
            requires
                saved < 0x1_0000_0000,
                weight <= 0x1_0000_0000,
        ;
        assert((i + 1) * 0x1_0000_0000_0000_0000 == i * 0x1_0000_0000_0000_0000
            + 0x1_0000_0000_0000_0000) by (nonlinear_arith);
        assert(i * 0x1_0000_0000_0000_0000 <= 0xffff_ffff_ffff_fffe * 0x1_0000_0000_0000_0000)
            by (nonlinear_arith)
            requires
                i <= 0xffff_ffff_ffff_fffe,
        ;
        score = score + saved * weight;
        i += 1;
    }
    assert(selection.subrange(0, recommendations.len() as int) == selection);
    score
}

/// The candidates at the indexes, in the order of the indexes.
pub open spec fn chosen(recommendations: Seq<StatisticsView>, indexes: Seq<int>) -> Seq<
    StatisticsView,
> {
    indexes.map_values(|i: int| recommendations[i])
}

/// The indexes as integers.
pub open spec fn indexes_view(indexes: Seq<usize>) -> Seq<int> {
    indexes.map_values(|i: usize| i as int)
}

/// The score of the selection with one more candidate.
pub open spec fn score_with(
    recommendations: Seq<StatisticsView>,
    indexes: Seq<int>,
    candidate: int,
) -> int {
    heuristic_score(chosen(recommendations, indexes.push(candidate)))
}

/// The candidate from `from` up to `to` that is not selected yet and whose
/// addition gives the highest score; of several such, the one with the
/// lowest index. `None` where every candidate in the range is selected.
pub open spec fn best_addition(
    recommendations: Seq<StatisticsView>,
    indexes: Seq<int>,
    from: int,
    to: int,
) -> Option<int>
    decreases to - from,
{
    if to <= from {
        None
    } else {
        let before = best_addition(recommendations, indexes, from, to - 1);
        if indexes.contains(to - 1) {
            before
        } else {
            match before {
                None => Some(to - 1),
                Some(b) => if score_with(recommendations, indexes, to - 1) > score_with(
                    recommendations,
                    indexes,
                    b,
                ) {
                    Some(to - 1)
                } else {
                    Some(b)
                },
            }
        }
    }
}

/// The greedy selection of at most `limit` candidates: it begins with the
/// candidates at `start`, and takes the best addition from the range, one
/// at a time, while there is any.
pub open spec fn greedy_indexes(
    recommendations: Seq<StatisticsView>,
    start: Seq<int>,
    limit: int,
    from: int,
    to: int,
) -> Seq<int>
    decreases limit,
{
    if limit <= start.len() {
        start
    } else {
        let before = greedy_indexes(recommendations, start, limit - 1, from, to);
        if before.len() < limit - 1 {
            before
        } else {
            match best_addition(recommendations, before, from, to) {
                Some(best) => before.push(best),
                None => before,
            }
        }
    }
}

/// The score that the greedy selection reports: that of the selection where
/// a candidate was added to the start, zero where none was.
pub open spec fn greedy_score(
    recommendations: Seq<StatisticsView>,
    start: Seq<int>,
    indexes: Seq<int>,
) -> int {
    if indexes.len() > start.len() {
        heuristic_score(chosen(recommendations, indexes))
    } else {
        0
    }
}

/// Whether `index` is among the indexes.
fn is_selected(indexes: &Vec<usize>, index: usize) -> (r: bool)
    ensures
        r == indexes_view(indexes@).contains(index as int),
{
    let ghost all = indexes_view(indexes@);
    let mut k: usize = 0;
    while k < indexes.len()
        invariant
            k <= indexes.len(),
            all == indexes_view(indexes@),
            forall|j: int| 0 <= j < k ==> all[j] != index,
        decreases indexes.len() - k,
    {
        if indexes[k] == index {
            assert(all[k as int] == index);
            return true;
        }
        k += 1;
    }
    false
}

/// The candidates at the indexes.
pub fn compute_recommendations_for_indexes(
    recommendations: &Vec<CommandStatistics>,
    indexes: &Vec<usize>,
) -> (r: Vec<CommandStatistics>)
    requires
        forall|k: int| 0 <= k < indexes.len() ==> indexes[k] < recommendations.len(),
    ensures
        statistics_view(r@) == chosen(
            statistics_view(recommendations@),
            indexes_view(indexes@),
        ),
{
    let mut out: Vec<CommandStatistics> = Vec::new();
    let mut k: usize = 0;
    while k < indexes.len()
        invariant
            k <= indexes.len(),
            forall|j: int| 0 <= j < indexes.len() ==> indexes[j] < recommendations.len(),
            out.len() == k,
            forall|j: int| 0 <= j < k ==> (#[trigger] out[j])@ == recommendations[indexes[j] as int]@,
        decreases indexes.len() - k,
    {
        out.push(recommendations[indexes[k]].duplicate());
        k += 1;
    }
    assert(statistics_view(out@) =~= chosen(
        statistics_view(recommendations@),
        indexes_view(indexes@),
    ));
    out
}

/// The best addition to the selection among the candidates from `from` up
/// to `to`, with the score that it gives.
pub fn find_best_addition(
    recommendations: &Vec<CommandStatistics>,
    indexes: &Vec<usize>,
    from: usize,
    to: usize,
) -> (r: Option<(usize, u128)>)
    requires
        from <= to <= recommendations.len(),
        forall|k: int| 0 <= k < indexes.len() ==> indexes[k] < recommendations.len(),
    ensures
        match r {
            Some((best, score)) => best_addition(
                statistics_view(recommendations@),
                indexes_view(indexes@),
                from as int,
                to as int,
            ) == Some(best as int) && score == score_with(
                statistics_view(recommendations@),
                indexes_view(indexes@),
                best as int,
            ) && from <= best < to,
            None => best_addition(
                statistics_view(recommendations@),
                indexes_view(indexes@),
                from as int,
                to as int,
            ) is None,
        },
{
    let ghost all = statistics_view(recommendations@);
    let ghost taken = indexes_view(indexes@);
    let mut selection = compute_recommendations_for_indexes(recommendations, indexes);
    let mut best: Option<(usize, u128)> = None;
    let mut index: usize = from;
    while index < to
        invariant
            from <= index <= to <= recommendations.len(),
            all == statistics_view(recommendations@),
            taken == indexes_view(indexes@),
            statistics_view(selection@) == chosen(all, taken),
            match best {
                Some((b, score)) => best_addition(all, taken, from as int, index as int) == Some(
                    b as int,
                ) && score == score_with(all, taken, b as int) && from <= b < index,
                None => best_addition(all, taken, from as int, index as int) is None,
            },
        decreases to - index,
    {
        if !is_selected(indexes, index) {
            let ghost before = statistics_view(selection@);
            let candidate = recommendations[index].duplicate();
            selection.push(candidate);
            assert(all[index as int] == candidate@);
            assert(statistics_view(selection@) =~= before.push(candidate@));
            assert(chosen(all, taken.push(index as int)) =~= chosen(all, taken).push(
                all[index as int],
            ));
            let score = compute_heuristic_recommendation_score(&selection);
            selection.pop();
            assert(statistics_view(selection@) =~= before);
            match best {
                None => {
                    best = Some((index, score));
                },
                Some((_, best_score)) => {
                    if score > best_score {
                        best = Some((index, score));
                    }
                },
            }
        }
        index += 1;
    }
    best
}

/// The better of two additions: the one with the higher score; of two with
/// the same score, the one with the lower index.
pub fn better_addition(a: Option<(usize, u128)>, b: Option<(usize, u128)>) -> (r: Option<
    (usize, u128),
>)
    ensures
        r == match (a, b) {
            (None, _) => b,
            (_, None) => a,
            (Some(x), Some(y)) => if y.1 > x.1 || (y.1 == x.1 && y.0 < x.0) {
                b
            } else {
                a
            },
        },
{
    match (a, b) {
        (None, _) => b,
        (_, None) => a,
        (Some(x), Some(y)) => if y.1 > x.1 || (y.1 == x.1 && y.0 < x.0) {
            b
        } else {
            a
        },
    }
}

/// The greedy selection of at most `max_number_of_recommendations`
/// candidates that begins with the candidates at `start` and adds
/// candidates from `index_range`: the candidates, the score, and their
/// indexes in the order in which they were taken.
pub fn compute_greedy_best(
    recommendations: &Vec<CommandStatistics>,
    max_number_of_recommendations: usize,
    start: &Vec<usize>,
    index_range: (usize, usize),
) -> (r: (Vec<CommandStatistics>, u128, Vec<usize>))
    requires
        index_range.0 <= index_range.1 <= recommendations.len(),
        forall|k: int| 0 <= k < start.len() ==> start[k] < recommendations.len(),
    ensures
        indexes_view(r.2@) == greedy_indexes(
            statistics_view(recommendations@),
            indexes_view(start@),
            max_number_of_recommendations as int,
            index_range.0 as int,
            index_range.1 as int,
        ),
        forall|k: int| 0 <= k < r.2.len() ==> r.2[k] < recommendations.len(),
        statistics_view(r.0@) == chosen(statistics_view(recommendations@), indexes_view(r.2@)),
        r.1 == greedy_score(
            statistics_view(recommendations@),
            indexes_view(start@),
            indexes_view(r.2@),
        ),
{
    let ghost all = statistics_view(recommendations@);
    let ghost begin = indexes_view(start@);
    let ghost from = index_range.0 as int;
    let ghost to = index_range.1 as int;
    let mut indexes: Vec<usize> = Vec::new();
    let mut k: usize = 0;
    while k < start.len()
        invariant
            k <= start.len(),
            indexes.len() == k,
            forall|j: int| 0 <= j < k ==> indexes[j] == start[j],
        decreases start.len() - k,
    {
        indexes.push(start[k]);
        k += 1;
    }
    assert(indexes_view(indexes@) =~= begin);
    let mut score: u128 = 0;
    let mut size: usize = start.len();
    assert(begin.len() == start.len());
    while size < max_number_of_recommendations
        invariant_except_break
            indexes.len() == size,
        invariant
            start.len() <= size,
            size <= max_number_of_recommendations || size == start.len(),
            index_range.0 <= index_range.1 <= recommendations.len(),
            from == index_range.0 as int,
            to == index_range.1 as int,
            all == statistics_view(recommendations@),
            begin == indexes_view(start@),
            begin.len() == start.len(),
            forall|j: int| 0 <= j < indexes.len() ==> indexes[j] < recommendations.len(),
            indexes_view(indexes@) == greedy_indexes(all, begin, size as int, from, to),
            score == greedy_score(all, begin, indexes_view(indexes@)),
            indexes.len() >= start.len(),
        ensures
            indexes_view(indexes@) == greedy_indexes(
                all,
                begin,
                max_number_of_recommendations as int,
                from,
                to,
            ),
        decreases max_number_of_recommendations - size,
    {
        let ghost before = indexes_view(indexes@);
        match find_best_addition(recommendations, &indexes, index_range.0, index_range.1) {
            Some((best, best_score)) => {
                indexes.push(best);
                assert(indexes_view(indexes@) =~= before.push(best as int));
                score = best_score;
                size += 1;
            },
            None => {
                proof {
                    lemma_greedy_stays(
                        all,
                        begin,
                        size as int,
                        max_number_of_recommendations as int,
                        from,
                        to,
                    );
                }
                break;
            },
        }
    }
    let best = compute_recommendations_for_indexes(recommendations, &indexes);
    (best, score, indexes)
}

/// The greedy selection holds no more candidates than the limit says, or
/// it is the start.
pub proof fn lemma_greedy_is_no_longer(
    recommendations: Seq<StatisticsView>,
    start: Seq<int>,
    limit: int,
    from: int,
    to: int,
)
    ensures
        greedy_indexes(recommendations, start, limit, from, to).len() <= limit || greedy_indexes(
            recommendations,
            start,
            limit,
            from,
            to,
        ) == start,
    decreases limit,
{
    if limit > start.len() {
        lemma_greedy_is_no_longer(recommendations, start, limit - 1, from, to);
    }
}

/// Once no candidate can be added, a higher limit selects no more.
pub proof fn lemma_greedy_stays(
    recommendations: Seq<StatisticsView>,
    start: Seq<int>,
    size: int,
    limit: int,
    from: int,
    to: int,
)
    requires
        start.len() <= size <= limit,
        greedy_indexes(recommendations, start, size, from, to).len() == size,
        best_addition(
            recommendations,
            greedy_indexes(recommendations, start, size, from, to),
            from,
            to,
        ) is None,
    ensures
        greedy_indexes(recommendations, start, limit, from, to) == greedy_indexes(
            recommendations,
            start,
            size,
            from,
            to,
        ),
    decreases limit - size,
{
    if limit > size {
        lemma_greedy_stays(recommendations, start, size, limit - 1, from, to);
    }
}

/// The greedy selection of at most `max_number_of_recommendations`
/// candidates from all the candidates, with its score.
pub fn compute_greedy_best_from_scratch(
    recommendations: &Vec<CommandStatistics>,
    max_number_of_recommendations: usize,
) -> (r: (Vec<CommandStatistics>, u128))
    ensures
        ({
            let all = statistics_view(recommendations@);
            let indexes = greedy_indexes(
                all,
                Seq::empty(),
                max_number_of_recommendations as int,
                0,
                all.len() as int,
            );
            statistics_view(r.0@) == chosen(all, indexes) && r.1 == greedy_score(
                all,
                Seq::empty(),
                indexes,
            )
        }),
{
    let start: Vec<usize> = Vec::new();
    assert(indexes_view(start@) =~= Seq::<int>::empty());
    compute_greedy_best_in_parallel(recommendations, max_number_of_recommendations, &start)
}

/// The greedy selection of at most `max_number_of_recommendations`
/// candidates from all the candidates, beginning with those at `start`.
pub fn compute_greedy_best_in_parallel(
    recommendations: &Vec<CommandStatistics>,
    max_number_of_recommendations: usize,
    start: &Vec<usize>,
) -> (r: (Vec<CommandStatistics>, u128))
    requires
        forall|k: int| 0 <= k < start.len() ==> start[k] < recommendations.len(),
    ensures
        ({
            let all = statistics_view(recommendations@);
            let indexes = greedy_indexes(
                all,
                indexes_view(start@),
                max_number_of_recommendations as int,
                0,
                all.len() as int,
            );
            statistics_view(r.0@) == chosen(all, indexes) && r.1 == greedy_score(
                all,
                indexes_view(start@),
                indexes,
            )
        }),
{
    assert(statistics_view(recommendations@).len() == recommendations.len());
    let (best, score, _) = compute_greedy_best(
        recommendations,
        max_number_of_recommendations,
        start,
        (0, recommendations.len()),
    );
    (best, score)
}

/// What a selection holds, however it is ordered, decides how often an
/// action stands in it.
pub proof fn lemma_frequency_permutation(
    a: Seq<StatisticsView>,
    b: Seq<StatisticsView>,
    key: Seq<char>,
)
    requires
        a.to_multiset() == b.to_multiset(),
    ensures
        action_frequency(a, key) == action_frequency(b, key),
{
    let f = |count: int, c: StatisticsView|
        if holds_action(c, key) {
            count + 1
        } else {
            count
        };
    assert(vstd::seq_lib::commutative_foldl(f));
    vstd::seq_lib::lemma_fold_left_permutation(a, b, f, 0int);
}

/// What a selection holds, however it is ordered, decides the similarity
/// of a text to its inserted texts.
pub proof fn lemma_similarity_permutation(
    a: Seq<StatisticsView>,
    b: Seq<StatisticsView>,
    text: Seq<char>,
)
    requires
        a.to_multiset() == b.to_multiset(),
    ensures
        insert_similarity(a, text) == insert_similarity(b, text),
{
    let f = |best: int, c: StatisticsView|
        if is_single_insert(c) && single_insert_text(c) != text && overlap(
            text,
            single_insert_text(c),
        ) > best {
            overlap(text, single_insert_text(c))
        } else {
            best
        };
    assert(vstd::seq_lib::commutative_foldl(f));
    vstd::seq_lib::lemma_fold_left_permutation(a, b, f, 0int);
}

/// A selection that holds what another holds has two different inserted
/// texts where the other has.
proof fn lemma_distinct_inserts_carry(a: Seq<StatisticsView>, b: Seq<StatisticsView>)
    requires
        a.to_multiset() == b.to_multiset(),
        has_distinct_inserts(a),
    ensures
        has_distinct_inserts(b),
{
    broadcast use vstd::seq_lib::group_to_multiset_ensures;

    let (i, j) = choose|i: int, j: int|
        0 <= i < a.len() && 0 <= j < a.len() && is_single_insert(#[trigger] a[i])
            && is_single_insert(#[trigger] a[j]) && single_insert_text(a[i]) != single_insert_text(
            a[j],
        );
    assert(a.contains(a[i]));
    assert(a.contains(a[j]));
    assert(a.to_multiset().count(a[i]) > 0);
    assert(a.to_multiset().count(a[j]) > 0);
    assert(b.contains(a[i]));
    assert(b.contains(a[j]));
    let m = choose|m: int| 0 <= m < b.len() && b[m] == a[i];
    let n = choose|n: int| 0 <= n < b.len() && b[n] == a[j];
    assert(is_single_insert(b[m]) && is_single_insert(b[n]) && single_insert_text(b[m])
        != single_insert_text(b[n]));
}

/// The score of a selection does not depend on the order of its
/// candidates: two selections that hold the same candidates, each as often
/// as the other, have one score.
pub proof fn lemma_score_permutation(a: Seq<StatisticsView>, b: Seq<StatisticsView>)
    requires
        a.to_multiset() == b.to_multiset(),
    ensures
        heuristic_score(a) == heuristic_score(b),
{
    assert(has_distinct_inserts(a) == has_distinct_inserts(b)) by {
        if has_distinct_inserts(a) {
            lemma_distinct_inserts_carry(a, b);
        }
        if has_distinct_inserts(b) {
            lemma_distinct_inserts_carry(b, a);
        }
    }
    assert forall|key: Seq<char>| action_frequency(a, key) == action_frequency(b, key) by {
        lemma_frequency_permutation(a, b, key);
    }
    assert forall|text: Seq<char>| insert_similarity(a, text) == insert_similarity(b, text) by {
        lemma_similarity_permutation(a, b, text);
    }
    let inverse_a = |sum: int, x: ActionView|
        sum + 0x1_0000_0000int / action_frequency(a, action_json(x));
    let inverse_b = |sum: int, x: ActionView|
        sum + 0x1_0000_0000int / action_frequency(b, action_json(x));
    assert(inverse_a =~= inverse_b);
    assert forall|c: StatisticsView| candidate_score(a, c) == candidate_score(b, c) by {
        assert(inverse_frequencies(a, c.actions) == c.actions.fold_left(0int, inverse_a));
        assert(inverse_frequencies(b, c.actions) == c.actions.fold_left(0int, inverse_b));
    }
    let score_a = |sum: int, c: StatisticsView| sum + candidate_score(a, c);
    let score_b = |sum: int, c: StatisticsView| sum + candidate_score(b, c);
    assert(score_a =~= score_b);
    assert(vstd::seq_lib::commutative_foldl(score_a));
    vstd::seq_lib::lemma_fold_left_permutation(a, b, score_a, 0int);
}

/// The best addition is a candidate of the range that is not selected yet,
/// and there is one unless every candidate of the range is selected.
pub proof fn lemma_best_addition_is_new(
    recommendations: Seq<StatisticsView>,
    indexes: Seq<int>,
    from: int,
    to: int,
)
    ensures
        match best_addition(recommendations, indexes, from, to) {
            Some(best) => from <= best < to && !indexes.contains(best),
            None => forall|i: int| from <= i < to ==> indexes.contains(i),
        },
    decreases to - from,
{
    if to > from {
        lemma_best_addition_is_new(recommendations, indexes, from, to - 1);
    }
}

/// No addition to the selection gives a higher score than the best one, and
/// none before it in the range gives the same.
pub proof fn lemma_best_addition_is_best(
    recommendations: Seq<StatisticsView>,
    indexes: Seq<int>,
    from: int,
    to: int,
    other: int,
)
    requires
        from <= other < to,
        !indexes.contains(other),
    ensures
        best_addition(recommendations, indexes, from, to) is Some,
        score_with(recommendations, indexes, other) <= score_with(
            recommendations,
            indexes,
            best_addition(recommendations, indexes, from, to)->0,
        ),
        other < best_addition(recommendations, indexes, from, to)->0 ==> score_with(
            recommendations,
            indexes,
            other,
        ) < score_with(
            recommendations,
            indexes,
            best_addition(recommendations, indexes, from, to)->0,
        ),
    decreases to - from,
{
    lemma_best_addition_is_new(recommendations, indexes, from, to - 1);
    if other < to - 1 {
        lemma_best_addition_is_best(recommendations, indexes, from, to - 1, other);
    }
}

/// Indexes below `n`, none of them twice, are no more than `n`; where they
/// are fewer, some index below `n` is not among them.
pub proof fn lemma_some_index_is_left(indexes: Seq<int>, n: int)
    requires
        0 <= n,
        indexes.no_duplicates(),
        forall|k: int| 0 <= k < indexes.len() ==> 0 <= #[trigger] indexes[k] < n,
    ensures
        indexes.len() <= n,
        indexes.len() < n ==> exists|i: int| 0 <= i < n && !indexes.contains(i),
{
    let taken = indexes.to_set();
    let range = vstd::set_lib::set_int_range(0, n);
    vstd::set_lib::lemma_int_range(0, n);
    indexes.unique_seq_to_set();
    assert(taken.subset_of(range)) by {
        assert forall|x: int| taken.contains(x) implies range.contains(x) by {
            let k = choose|k: int| 0 <= k < indexes.len() && indexes[k] == x;
            assert(0 <= indexes[k] < n);
        }
    }
    vstd::set_lib::lemma_len_subset(taken, range);
    if indexes.len() < n {
        if forall|i: int| 0 <= i < n ==> indexes.contains(i) {
            assert(range.subset_of(taken)) by {
                assert forall|x: int| range.contains(x) implies taken.contains(x) by {
                    assert(indexes.contains(x));
                }
            }
            vstd::set_lib::lemma_len_subset(range, taken);
        }
    }
}

/// The greedy selection that begins with different candidates and may take
/// every candidate takes candidates of the selection, none of them twice,
/// and as many as the limit says where there are that many.
pub proof fn lemma_greedy_fills(recommendations: Seq<StatisticsView>, start: Seq<int>, limit: int)
    requires
        start.no_duplicates(),
        forall|k: int| 0 <= k < start.len() ==> 0 <= #[trigger] start[k] < recommendations.len(),
        start.len() <= limit <= recommendations.len(),
    ensures
        ({
            let picked = greedy_indexes(
                recommendations,
                start,
                limit,
                0,
                recommendations.len() as int,
            );
            &&& forall|k: int| 0 <= k < picked.len() ==> 0 <= #[trigger] picked[k] < recommendations.len()
            &&& picked.no_duplicates()
            &&& picked.len() == limit
        }),
    decreases limit,
{
    let n = recommendations.len() as int;
    let picked = greedy_indexes(recommendations, start, limit, 0, n);
    if limit > start.len() {
        lemma_greedy_fills(recommendations, start, limit - 1);
        let before = greedy_indexes(recommendations, start, limit - 1, 0, n);
        lemma_best_addition_is_new(recommendations, before, 0, n);
        lemma_some_index_is_left(before, n);
        match best_addition(recommendations, before, 0, n) {
            Some(best) => {
                assert(picked == before.push(best));
                assert forall|k: int| 0 <= k < picked.len() implies 0 <= #[trigger] picked[k]
                    < n by {
                    if k < before.len() {
                        assert(picked[k] == before[k]);
                    }
                }
                assert forall|i: int, j: int|
                    0 <= i < picked.len() && 0 <= j < picked.len() && i != j implies picked[i]
                    != picked[j] by {
                    if i < before.len() && j < before.len() {
                        assert(before[i] != before[j]);
                    } else if i < before.len() {
                        assert(before.contains(before[i]));
                    } else {
                        assert(before.contains(before[j]));
                    }
                }
            },
            None => {
                let i = choose|i: int| 0 <= i < n && !before.contains(i);
                assert(before.contains(i));
            },
        }
    }
}

/// The greedy selection from all the candidates takes candidates of the
/// selection, none of them twice, and as many as the limit says or as there
/// are; with a higher limit it takes the same candidates first.
pub proof fn lemma_greedy_selects(recommendations: Seq<StatisticsView>, limit: int)
    requires
        0 <= limit,
    ensures
        ({
            let picked = greedy_indexes(
                recommendations,
                Seq::empty(),
                limit,
                0,
                recommendations.len() as int,
            );
            let more = greedy_indexes(
                recommendations,
                Seq::empty(),
                limit + 1,
                0,
                recommendations.len() as int,
            );
            &&& forall|k: int| 0 <= k < picked.len() ==> 0 <= #[trigger] picked[k] < recommendations.len()
            &&& picked.no_duplicates()
            &&& picked.len() == if limit <= recommendations.len() {
                limit
            } else {
                recommendations.len() as int
            }
            &&& picked.len() <= more.len()
            &&& more.subrange(0, picked.len() as int) == picked
        }),
    decreases limit,
{
    let n = recommendations.len() as int;
    let picked = greedy_indexes(recommendations, Seq::empty(), limit, 0, n);
    if limit > 0 {
        lemma_greedy_selects(recommendations, limit - 1);
        let before = greedy_indexes(recommendations, Seq::empty(), limit - 1, 0, n);
        lemma_best_addition_is_new(recommendations, before, 0, n);
        lemma_some_index_is_left(before, n);
        if before.len() == limit - 1 {
            match best_addition(recommendations, before, 0, n) {
                Some(best) => {
                    assert(picked == before.push(best));
                    assert forall|k: int| 0 <= k < picked.len() implies 0 <= #[trigger] picked[k]
                        < n by {
                        if k < before.len() {
                            assert(picked[k] == before[k]);
                        }
                    }
                    assert forall|i: int, j: int|
                        0 <= i < picked.len() && 0 <= j < picked.len() && i != j implies picked[i]
                        != picked[j] by {
                        if i < before.len() && j < before.len() {
                            assert(before[i] != before[j]);
                        } else if i < before.len() {
                            assert(before.contains(before[i]));
                        } else {
                            assert(before.contains(before[j]));
                        }
                    }
                    lemma_some_index_is_left(picked, n);
                },
                None => {
                    assert(picked == before);
                    if before.len() < n {
                        let i = choose|i: int| 0 <= i < n && !before.contains(i);
                        assert(before.contains(i));
                    }
                },
            }
        } else {
            assert(picked == before);
        }
    } else {
        assert(picked == Seq::<int>::empty());
    }
    let more = greedy_indexes(recommendations, Seq::empty(), limit + 1, 0, n);
    assert(more == picked || (more.len() == picked.len() + 1 && more.drop_last() == picked));
    assert(more.subrange(0, picked.len() as int) =~= picked);

}

/// The best addition from a range is the better of the best additions from
/// its two parts: the parts can be searched apart.
pub proof fn lemma_best_addition_splits(
    recommendations: Seq<StatisticsView>,
    indexes: Seq<int>,
    from: int,
    middle: int,
    to: int,
)
    requires
        from <= middle <= to,
    ensures
        best_addition(recommendations, indexes, from, to) == match (
            best_addition(recommendations, indexes, from, middle),
            best_addition(recommendations, indexes, middle, to),
        ) {
            (None, later) => later,
            (earlier, None) => earlier,
            (Some(x), Some(y)) => if score_with(recommendations, indexes, y) > score_with(
                recommendations,
                indexes,
                x,
            ) {
                Some(y)
            } else {
                Some(x)
            },
        },
    decreases to - middle,
{
    if to > middle {
        lemma_best_addition_splits(recommendations, indexes, from, middle, to - 1);
        lemma_best_addition_is_new(recommendations, indexes, middle, to - 1);
        if !indexes.contains(to - 1) {
            match best_addition(recommendations, indexes, middle, to - 1) {
                Some(y) => {
                    lemma_best_addition_is_best(recommendations, indexes, middle, to - 1, y);
                },
                None => {},
            }
        }
    }
}

} // verus!
