//! Which candidates are parts of larger candidates that were used as often,
//! and the selection without them.

use crate::actions::{action_json, actions_view, canonical, ActionView, BasicAction};
use crate::commands::{
    canonical_chars, create_insert_action, get_insert_text, insert_text_view, insert_view,
    is_insert, is_insert_view,
};
use crate::generation::{statistics_view, CommandStatistics, StatisticsView};
use crate::text::{append_chars, chars_equal, chars_of, slice_chars, string_of};
use vstd::prelude::*;

verus! {

/// The JSON form of the action that inserts `text`.
pub open spec fn insert_key(text: Seq<char>) -> Seq<char> {
    action_json(insert_view(text))
}

/// `key` is an `insert` of a part of `text` that is shorter than `text`.
pub open spec fn is_part_of_insert(key: Seq<char>, text: Seq<char>) -> bool {
    exists|p: int, q: int|
        0 <= p <= q < text.len() && q - p + 1 < text.len() && key == #[trigger] insert_key(
            text.subrange(p, q + 1),
        )
}

/// `key` is an `insert` of a proper end of `first_text`, and `rest` after
/// it.
pub open spec fn follows_beginning(key: Seq<char>, first_text: Seq<char>, rest: Seq<char>) -> bool {
    exists|p: int|
        1 <= p < first_text.len() && key == #[trigger] insert_key(
            first_text.subrange(p, first_text.len() as int),
        ) + rest
}

/// `key` is `rest`, and after it an `insert` of a proper start of
/// `last_text`.
pub open spec fn precedes_ending(key: Seq<char>, rest: Seq<char>, last_text: Seq<char>) -> bool {
    exists|q: int|
        1 <= q < last_text.len() && key == rest + #[trigger] insert_key(last_text.subrange(0, q))
}

/// An end of `text` from `p` on may begin a part: the whole text, or a
/// proper end.
pub open spec fn is_beginning(text: Seq<char>, p: int) -> bool {
    p == 0 || 1 <= p < text.len()
}

/// A start of `text` up to `q` may end a part: the whole text, or a proper
/// start.
pub open spec fn is_ending(text: Seq<char>, q: int) -> bool {
    q == text.len() || 1 <= q < text.len()
}

/// `key` is an `insert` of an end of `first_text`, `middle`, and an
/// `insert` of a start of `last_text`, where not both texts are whole.
pub open spec fn lies_between(
    key: Seq<char>,
    first_text: Seq<char>,
    middle: Seq<char>,
    last_text: Seq<char>,
) -> bool {
    exists|p: int, q: int|
        is_beginning(first_text, p) && is_ending(last_text, q) && !(p == 0 && q == last_text.len())
            && key == #[trigger] insert_key(first_text.subrange(p, first_text.len() as int))
            + middle + #[trigger] insert_key(last_text.subrange(0, q))
}

/// The window of `actions` from `i` to `j`, both included, gives `key`:
/// the window is shorter than the actions and `key` is its canonical form;
/// or the window is one `insert` and `key` inserts a part of its text; or
/// the window begins or ends with an `insert`, and `key` is the window with
/// that insert's text cut short at the outer side.
pub open spec fn window_gives(key: Seq<char>, actions: Seq<ActionView>, i: int, j: int) -> bool {
    let window = actions.subrange(i, j + 1);
    let first_is_insert = is_insert_view(actions[i]);
    let last_is_insert = is_insert_view(actions[j]);
    ||| window.len() < actions.len() && key == canonical(window)
    ||| i == j && first_is_insert && is_part_of_insert(key, insert_text_view(actions[i]))
    ||| i < j && first_is_insert && !last_is_insert && follows_beginning(
        key,
        insert_text_view(actions[i]),
        canonical(actions.subrange(i + 1, j + 1)),
    )
    ||| i < j && last_is_insert && !first_is_insert && precedes_ending(
        key,
        canonical(actions.subrange(i, j)),
        insert_text_view(actions[j]),
    )
    ||| i < j && first_is_insert && last_is_insert && lies_between(
        key,
        insert_text_view(actions[i]),
        canonical(actions.subrange(i + 1, j)),
        insert_text_view(actions[j]),
    )
}

/// `key` is the canonical form of a part of `actions`: some window of them
/// gives it.
pub open spec fn is_part_of(key: Seq<char>, actions: Seq<ActionView>) -> bool {
    exists|i: int, j: int| 0 <= i <= j < actions.len() && #[trigger] window_gives(key, actions, i, j)
}

/// The JSON form of the action that inserts the characters of `text` from
/// `from` up to `to`.
fn insert_key_chars(text: &Vec<char>, from: usize, to: usize) -> (r: Vec<char>)
    requires
        from <= to <= text.len(),
    ensures
        r@ == insert_key(text@.subrange(from as int, to as int)),
{
    let part = string_of(&slice_chars(text, from, to));
    create_insert_action(part.as_str()).json_chars()
}

/// Whether `key` is an `insert` of a part of `text` that is shorter than
/// `text`.
fn check_part_of_insert(key: &Vec<char>, text: &Vec<char>) -> (r: bool)
    ensures
        r == is_part_of_insert(key@, text@),
{
    let mut p: usize = 0;
    while p < text.len()
        invariant
            p <= text.len(),
            forall|a: int, b: int|
                0 <= a < p && a <= b < text.len() && b - a + 1 < text.len() ==> key@
                    != #[trigger] insert_key(text@.subrange(a, b + 1)),
        decreases text.len() - p,
    {
        let mut q: usize = p;
        while q < text.len()
            invariant
                p <= q <= text.len(),
                p < text.len(),
                forall|a: int, b: int|
                    0 <= a < p && a <= b < text.len() && b - a + 1 < text.len() ==> key@
                        != #[trigger] insert_key(text@.subrange(a, b + 1)),
                forall|b: int|
                    p <= b < q && b - p + 1 < text.len() ==> key@ != #[trigger] insert_key(
                        text@.subrange(p as int, b + 1),
                    ),
            decreases text.len() - q,
        {
            if q - p + 1 < text.len() {
                let candidate = insert_key_chars(text, p, q + 1);
                if chars_equal(&candidate, key) {
                    return true;
                }
            }
            q += 1;
        }
        p += 1;
    }
    false
}

/// Whether `key` is an `insert` of a proper end of `first_text`, and
/// `rest` after it.
fn check_follows_beginning(key: &Vec<char>, first_text: &Vec<char>, rest: &Vec<char>) -> (r: bool)
    ensures
        r == follows_beginning(key@, first_text@, rest@),
{
    let mut p: usize = 1;
    while p < first_text.len()
        invariant
            1 <= p,
            forall|a: int|
                1 <= a < p && a < first_text.len() ==> key@ != #[trigger] insert_key(
                    first_text@.subrange(a, first_text.len() as int),
                ) + rest@,
        decreases first_text.len() - p,
    {
        let mut candidate = insert_key_chars(first_text, p, first_text.len());
        append_chars(&mut candidate, rest);
        if chars_equal(&candidate, key) {
            return true;
        }
        p += 1;
    }
    false
}

/// Whether `key` is `rest`, and after it an `insert` of a proper start of
/// `last_text`.
fn check_precedes_ending(key: &Vec<char>, rest: &Vec<char>, last_text: &Vec<char>) -> (r: bool)
    ensures
        r == precedes_ending(key@, rest@, last_text@),
{
    let mut q: usize = 1;
    while q < last_text.len()
        invariant
            1 <= q,
            forall|b: int|
                1 <= b < q && b < last_text.len() ==> key@ != rest@ + #[trigger] insert_key(
                    last_text@.subrange(0, b),
                ),
        decreases last_text.len() - q,
    {
        let mut candidate = rest.clone();
        let ending = insert_key_chars(last_text, 0, q);
        append_chars(&mut candidate, &ending);
        if chars_equal(&candidate, key) {
            return true;
        }
        q += 1;
    }
    false
}

/// Whether `key` is `begun`, `middle` and an `insert` of a start of
/// `last_text` that is allowed beside the beginning: any proper start, and
/// the whole text where the beginning is not whole.
fn check_endings(
    key: &Vec<char>,
    begun: &Vec<char>,
    middle: &Vec<char>,
    last_text: &Vec<char>,
    whole_beginning: bool,
) -> (r: bool)
    ensures
        r == exists|q: int|
            is_ending(last_text@, q) && !(whole_beginning && q == last_text@.len()) && key@
                == begun@ + middle@ + #[trigger] insert_key(last_text@.subrange(0, q)),
{
    let mut head = begun.clone();
    append_chars(&mut head, middle);
    let mut q: usize = 1;
    while q < last_text.len()
        invariant
            1 <= q,
            head@ == begun@ + middle@,
            forall|b: int|
                1 <= b < q && b < last_text.len() ==> key@ != head@ + #[trigger] insert_key(
                    last_text@.subrange(0, b),
                ),
        decreases last_text.len() - q,
    {
        let mut candidate = head.clone();
        let ending = insert_key_chars(last_text, 0, q);
        append_chars(&mut candidate, &ending);
        if chars_equal(&candidate, key) {
            assert(is_ending(last_text@, q as int));
            return true;
        }
        q += 1;
    }
    if !whole_beginning {
        let mut candidate = head.clone();
        let ending = insert_key_chars(last_text, 0, last_text.len());
        append_chars(&mut candidate, &ending);
        if chars_equal(&candidate, key) {
            assert(is_ending(last_text@, last_text@.len() as int));
            return true;
        }
    }
    false
}

/// Whether `key` is an `insert` of an end of `first_text`, `middle`, and
/// an `insert` of a start of `last_text`, where not both texts are whole.
fn check_lies_between(
    key: &Vec<char>,
    first_text: &Vec<char>,
    middle: &Vec<char>,
    last_text: &Vec<char>,
) -> (r: bool)
    ensures
        r == lies_between(key@, first_text@, middle@, last_text@),
{
    let whole = insert_key_chars(first_text, 0, first_text.len());
    if check_endings(key, &whole, middle, last_text, true) {
        proof {
            let q = choose|q: int|
                is_ending(last_text@, q) && !(true && q == last_text@.len()) && key@ == whole@
                    + middle@ + #[trigger] insert_key(last_text@.subrange(0, q));
            assert(is_beginning(first_text@, 0));
            assert(key@ == insert_key(first_text@.subrange(0, first_text@.len() as int))
                + middle@ + insert_key(last_text@.subrange(0, q)));
        }
        return true;
    }
    let mut p: usize = 1;
    while p < first_text.len()
        invariant
            1 <= p,
            forall|a: int, b: int|
                (a == 0 || (1 <= a < p && a < first_text.len())) && is_ending(last_text@, b) && !(a
                    == 0 && b == last_text@.len()) ==> key@ != #[trigger] insert_key(
                    first_text@.subrange(a, first_text.len() as int),
                ) + middle@ + #[trigger] insert_key(last_text@.subrange(0, b)),
        decreases first_text.len() - p,
    {
        let begun = insert_key_chars(first_text, p, first_text.len());
        if check_endings(key, &begun, middle, last_text, false) {
            proof {
                let q = choose|q: int|
                    is_ending(last_text@, q) && !(false && q == last_text@.len()) && key@
                        == begun@ + middle@ + #[trigger] insert_key(last_text@.subrange(0, q));
                assert(is_beginning(first_text@, p as int));
                assert(key@ == insert_key(
                    first_text@.subrange(p as int, first_text@.len() as int),
                ) + middle@ + insert_key(last_text@.subrange(0, q)));
            }
            return true;
        }
        p += 1;
    }
    false
}

/// The canonical form of the actions from `from` up to `to`.
fn canonical_between(actions: &Vec<BasicAction>, from: usize, to: usize) -> (r: Vec<char>)
    requires
        from <= to <= actions.len(),
    ensures
        r@ == canonical(actions_view(actions@).subrange(from as int, to as int)),
{
    let ghost views = actions_view(actions@);
    let mut out: Vec<char> = Vec::new();
    let mut k: usize = from;
    while k < to
        invariant
            from <= k <= to <= actions.len(),
            views == actions_view(actions@),
            out@ == canonical(views.subrange(from as int, k as int)),
        decreases to - k,
    {
        assert(views.subrange(from as int, k + 1).drop_last() == views.subrange(
            from as int,
            k as int,
        ));
        assert(views.subrange(from as int, k + 1).last() == actions[k as int]@);
        let piece = actions[k].json_chars();
        append_chars(&mut out, &piece);
        k += 1;
    }
    out
}

/// Whether the window of `actions` from `i` to `j`, both included, gives
/// `key`.
fn check_window(key: &Vec<char>, actions: &Vec<BasicAction>, i: usize, j: usize) -> (r: bool)
    requires
        i <= j < actions.len(),
    ensures
        r == window_gives(key@, actions_view(actions@), i as int, j as int),
{
    let ghost views = actions_view(actions@);
    assert(views.len() == actions.len());
    assert(views[i as int] == actions[i as int]@);
    assert(views[j as int] == actions[j as int]@);
    if j - i + 1 < actions.len() {
        let whole = canonical_between(actions, i, j + 1);
        if chars_equal(&whole, key) {
            return true;
        }
    }
    let first_is_insert = is_insert(&actions[i]);
    let last_is_insert = is_insert(&actions[j]);
    if i == j {
        if first_is_insert {
            let text = chars_of(get_insert_text(&actions[i]).as_str());
            return check_part_of_insert(key, &text);
        }
        return false;
    }
    if first_is_insert && !last_is_insert {
        let text = chars_of(get_insert_text(&actions[i]).as_str());
        let rest = canonical_between(actions, i + 1, j + 1);
        check_follows_beginning(key, &text, &rest)
    } else if last_is_insert && !first_is_insert {
        let text = chars_of(get_insert_text(&actions[j]).as_str());
        let rest = canonical_between(actions, i, j);
        check_precedes_ending(key, &rest, &text)
    } else if first_is_insert && last_is_insert {
        let first_text = chars_of(get_insert_text(&actions[i]).as_str());
        let last_text = chars_of(get_insert_text(&actions[j]).as_str());
        let middle = canonical_between(actions, i + 1, j);
        check_lies_between(key, &first_text, &middle, &last_text)
    } else {
        false
    }
}

/// Whether `key` is the canonical form of a part of `actions`.
pub fn is_part_of_actions(key: &str, actions: &Vec<BasicAction>) -> (r: bool)
    ensures
        r == is_part_of(key@, actions_view(actions@)),
{
    let key_chars = chars_of(key);
    let ghost views = actions_view(actions@);
    assert(views.len() == actions.len());
    let mut i: usize = 0;
    while i < actions.len()
        invariant
            i <= actions.len(),
            views == actions_view(actions@),
            key_chars@ == key@,
            forall|a: int, b: int|
                0 <= a < i && a <= b < actions.len() ==> !#[trigger] window_gives(key@, views, a, b),
        decreases actions.len() - i,
    {
        let mut j: usize = i;
        while j < actions.len()
            invariant
                i <= j <= actions.len(),
                i < actions.len(),
                views == actions_view(actions@),
                key_chars@ == key@,
                forall|a: int, b: int|
                    0 <= a < i && a <= b < actions.len() ==> !#[trigger] window_gives(
                        key@,
                        views,
                        a,
                        b,
                    ),
                forall|b: int| i <= b < j ==> !#[trigger] window_gives(key@, views, i as int, b),
            decreases actions.len() - j,
        {
            if check_window(&key_chars, actions, i, j) {
                return true;
            }
            j += 1;
        }
        i += 1;
    }
    false
}

/// The first `n` items of which `keep` holds at their index, in order.
pub open spec fn picked<T>(items: Seq<T>, keep: spec_fn(int) -> bool, n: int) -> Seq<T>
    decreases n,
{
    if n <= 0 {
        Seq::empty()
    } else if keep(n - 1) {
        picked(items, keep, n - 1).push(items[n - 1])
    } else {
        picked(items, keep, n - 1)
    }
}

/// `x` is one of the first `n` items, and `keep` holds at its index.
pub open spec fn is_kept_item<T>(items: Seq<T>, keep: spec_fn(int) -> bool, n: int, x: T) -> bool {
    exists|i: int| 0 <= i < n && keep(i) && #[trigger] items[i] == x
}

/// Every picked item is one of the items of which `keep` holds.
pub proof fn lemma_picked_are_kept<T>(items: Seq<T>, keep: spec_fn(int) -> bool, n: int)
    requires
        0 <= n <= items.len(),
    ensures
        forall|k: int|
            0 <= k < picked(items, keep, n).len() ==> is_kept_item(
                items,
                keep,
                n,
                #[trigger] picked(items, keep, n)[k],
            ),
        picked(items, keep, n).len() <= n,
    decreases n,
{
    if n > 0 {
        lemma_picked_are_kept(items, keep, n - 1);
        let before = picked(items, keep, n - 1);
        let now = picked(items, keep, n);
        assert forall|k: int| 0 <= k < now.len() implies is_kept_item(
            items,
            keep,
            n,
            #[trigger] now[k],
        ) by {
            if k < before.len() {
                assert(is_kept_item(items, keep, n - 1, before[k]));
                let i = choose|i: int| 0 <= i < n - 1 && keep(i) && #[trigger] items[i] == before[k];
                assert(0 <= i < n && keep(i) && items[i] == now[k]);
            } else {
                assert(keep(n - 1) && items[n - 1] == now[k]);
            }
        }
    }
}

/// No later candidate has the canonical form of candidate `i`.
pub open spec fn is_latest_of_its_form(selection: Seq<StatisticsView>, i: int) -> bool {
    forall|j: int|
        i < j < selection.len() ==> canonical((#[trigger] selection[j]).actions) != canonical(
            selection[i].actions,
        )
}

/// The candidates without those whose canonical form a later candidate
/// has too.
pub open spec fn latest_forms(selection: Seq<StatisticsView>) -> Seq<StatisticsView> {
    picked(selection, |i: int| is_latest_of_its_form(selection, i), selection.len() as int)
}

/// The candidate is redundant in the selection: it is a part of a
/// candidate of the selection that was used as often.
pub open spec fn is_redundant(x: StatisticsView, selection: Seq<StatisticsView>) -> bool {
    exists|k: int|
        0 <= k < selection.len() && (#[trigger] selection[k]).number_of_times_used
            == x.number_of_times_used && is_part_of(canonical(x.actions), selection[k].actions)
}

/// The candidates that are not redundant among them.
pub open spec fn without_redundant(selection: Seq<StatisticsView>) -> Seq<StatisticsView> {
    picked(selection, |i: int| !is_redundant(selection[i], selection), selection.len() as int)
}

/// The canonical forms of the candidates.
fn compute_keys(recommendations: &Vec<CommandStatistics>) -> (r: Vec<Vec<char>>)
    ensures
        r.len() == recommendations.len(),
        forall|i: int|
            0 <= i < r.len() ==> (#[trigger] r[i])@ == canonical(recommendations[i]@.actions),
{
    let mut keys: Vec<Vec<char>> = Vec::new();
    let mut i: usize = 0;
    while i < recommendations.len()
        invariant
            i <= recommendations.len(),
            keys.len() == i,
            forall|j: int|
                0 <= j < i ==> (#[trigger] keys[j])@ == canonical(recommendations[j]@.actions),
        decreases recommendations.len() - i,
    {
        keys.push(canonical_chars(&recommendations[i].actions));
        i += 1;
    }
    keys
}

/// The candidates without those whose canonical form a later candidate has
/// too.
pub fn keep_latest_forms(recommendations: Vec<CommandStatistics>) -> (r: Vec<CommandStatistics>)
    ensures
        statistics_view(r@) == latest_forms(statistics_view(recommendations@)),
{
    let ghost selection = statistics_view(recommendations@);
    let ghost keep = |i: int| is_latest_of_its_form(selection, i);
    let keys = compute_keys(&recommendations);
    let mut out: Vec<CommandStatistics> = Vec::new();
    let mut i: usize = 0;
    assert(statistics_view(out@) =~= picked(selection, keep, 0));
    assert(selection.len() == recommendations.len());
    while i < recommendations.len()
        invariant
            i <= recommendations.len(),
            selection == statistics_view(recommendations@),
            keep == |i: int| is_latest_of_its_form(selection, i),
            keys.len() == recommendations.len(),
            forall|k: int|
                0 <= k < keys.len() ==> (#[trigger] keys[k])@ == canonical(selection[k].actions),
            statistics_view(out@) == picked(selection, keep, i as int),
        decreases recommendations.len() - i,
    {
        let mut latest = true;
        let mut j: usize = i + 1;
        while j < recommendations.len()
            invariant
                i < j <= recommendations.len(),
                selection == statistics_view(recommendations@),
                keys.len() == recommendations.len(),
                forall|k: int|
                    0 <= k < keys.len() ==> (#[trigger] keys[k])@ == canonical(
                        selection[k].actions,
                    ),
                latest == forall|k: int|
                    i < k < j ==> canonical((#[trigger] selection[k]).actions) != canonical(
                        selection[i as int].actions,
                    ),
            decreases recommendations.len() - j,
        {
            if chars_equal(&keys[j], &keys[i]) {
                assert(canonical(selection[j as int].actions) == canonical(
                    selection[i as int].actions,
                ));
                latest = false;
            }
            j += 1;
        }
        assert(latest == keep(i as int));
        if latest {
            let ghost before = statistics_view(out@);
            let kept = recommendations[i].duplicate();
            out.push(kept);
            assert(statistics_view(out@) =~= before.push(selection[i as int]));
        }
        i += 1;
    }
    out
}

/// Whether candidate `index` is redundant among the candidates.
fn check_redundant(recommendations: &Vec<CommandStatistics>, key: &str, index: usize) -> (r: bool)
    requires
        index < recommendations.len(),
        key@ == canonical(recommendations[index as int]@.actions),
    ensures
        r == is_redundant(recommendations[index as int]@, statistics_view(recommendations@)),
{
    let ghost selection = statistics_view(recommendations@);
    let ghost x = recommendations[index as int]@;
    let used = recommendations[index].number_of_times_used;
    let mut k: usize = 0;
    while k < recommendations.len()
        invariant
            k <= recommendations.len(),
            index < recommendations.len(),
            selection == statistics_view(recommendations@),
            x == recommendations[index as int]@,
            used == x.number_of_times_used,
            key@ == canonical(x.actions),
            forall|m: int|
                0 <= m < k ==> !((#[trigger] selection[m]).number_of_times_used
                    == x.number_of_times_used && is_part_of(
                    canonical(x.actions),
                    selection[m].actions,
                )),
        decreases recommendations.len() - k,
    {
        assert(selection[k as int] == recommendations[k as int]@);
        if recommendations[k].number_of_times_used == used && is_part_of_actions(
            key,
            &recommendations[k].actions,
        ) {
            return true;
        }
        k += 1;
    }
    false
}

/// The candidates without the redundant ones: of candidates with one
/// canonical form the last is taken, and a candidate is left out where it is
/// a part of another that was used as often.
pub fn filter_out_recommendations_redundant_smaller_commands(
    recommendations: Vec<CommandStatistics>,
) -> (r: Vec<CommandStatistics>)
    ensures
        statistics_view(r@) == without_redundant(latest_forms(statistics_view(recommendations@))),
        forall|k: int|
            0 <= k < r.len() ==> !is_redundant(
                (#[trigger] r[k])@,
                latest_forms(statistics_view(recommendations@)),
            ),
{
    let distinct = keep_latest_forms(recommendations);
    let ghost selection = statistics_view(distinct@);
    let ghost keep = |i: int| !is_redundant(selection[i], selection);
    let mut out: Vec<CommandStatistics> = Vec::new();
    let mut i: usize = 0;
    assert(statistics_view(out@) =~= picked(selection, keep, 0));
    assert(selection.len() == distinct.len());
    while i < distinct.len()
        invariant
            i <= distinct.len(),
            selection == statistics_view(distinct@),
            keep == |i: int| !is_redundant(selection[i], selection),
            statistics_view(out@) == picked(selection, keep, i as int),
        decreases distinct.len() - i,
    {
        assert(selection[i as int] == distinct[i as int]@);
        let key = string_of(&canonical_chars(&distinct[i].actions));
        let redundant = check_redundant(&distinct, key.as_str(), i);
        assert(!redundant == keep(i as int));
        if !redundant {
            let ghost before = statistics_view(out@);
            let kept = distinct[i].duplicate();
            out.push(kept);
            assert(statistics_view(out@) =~= before.push(selection[i as int]));
        }
        i += 1;
    }
    proof {
        lemma_picked_are_kept(selection, keep, selection.len() as int);
        assert forall|k: int| 0 <= k < out.len() implies !is_redundant(
            (#[trigger] out[k])@,
            selection,
        ) by {
            assert(statistics_view(out@)[k] == out[k]@);
            let found = picked(selection, keep, selection.len() as int);
            assert(is_kept_item(selection, keep, selection.len() as int, found[k]));
            let i = choose|i: int|
                0 <= i < selection.len() && keep(i) && #[trigger] selection[i] == found[k];
            assert(!is_redundant(selection[i], selection));
        }
    }
    out
}

} // verus!
