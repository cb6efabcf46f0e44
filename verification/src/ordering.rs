//! Orders recommendations: those used most, or those that save most, first.

use crate::generation::{statistics_view, CommandStatistics, StatisticsView};
use vstd::prelude::*;

verus! {

/// What recommendations are ordered by.
#[derive(Clone, Copy, Debug, PartialEq, Eq, Structural)]
pub enum SortKey {
    /// The number of times used.
    TimesUsed,
    /// The number of words saved.
    WordsSaved,
}

/// The number by which a recommendation is ordered.
pub open spec fn sort_value(c: StatisticsView, key: SortKey) -> int {
    match key {
        SortKey::TimesUsed => c.number_of_times_used,
        SortKey::WordsSaved => c.number_of_words_saved,
    }
}

/// The place of a new item in an ordered sequence: after the items that are
/// no smaller.
pub open spec fn place_of(sorted: Seq<StatisticsView>, item: StatisticsView, key: SortKey) -> int
    decreases sorted.len(),
{
    if sorted.len() == 0 {
        0
    } else if sort_value(sorted.last(), key) >= sort_value(item, key) {
        sorted.len() as int
    } else {
        place_of(sorted.drop_last(), item, key)
    }
}

/// The recommendations with the largest first; of two that are equal, the
/// one that came first stays first.
pub open spec fn sorted_descending(items: Seq<StatisticsView>, key: SortKey) -> Seq<StatisticsView>
    decreases items.len(),
{
    if items.len() == 0 {
        Seq::empty()
    } else {
        let before = sorted_descending(items.drop_last(), key);
        before.insert(place_of(before, items.last(), key), items.last())
    }
}

/// The place of a new item lies within the sequence or at its end.
pub proof fn lemma_place_is_within(sorted: Seq<StatisticsView>, item: StatisticsView, key: SortKey)
    ensures
        0 <= place_of(sorted, item, key) <= sorted.len(),
    decreases sorted.len(),
{
    if sorted.len() > 0 && sort_value(sorted.last(), key) < sort_value(item, key) {
        lemma_place_is_within(sorted.drop_last(), item, key);
    }
}

/// Ordering keeps every recommendation, each as often as it was there.
pub proof fn lemma_sorted_is_permutation(items: Seq<StatisticsView>, key: SortKey)
    ensures
        sorted_descending(items, key).to_multiset() == items.to_multiset(),
        sorted_descending(items, key).len() == items.len(),
    decreases items.len(),
{
    broadcast use vstd::seq_lib::group_to_multiset_ensures;

    if items.len() > 0 {
        let before = sorted_descending(items.drop_last(), key);
        lemma_sorted_is_permutation(items.drop_last(), key);
        lemma_place_is_within(before, items.last(), key);
        let place = place_of(before, items.last(), key);
        vstd::seq_lib::to_multiset_insert(before, place, items.last());
        assert(items.drop_last().push(items.last()) =~= items);
        assert(items.to_multiset() =~= items.drop_last().to_multiset().insert(items.last()));
    } else {
        assert(sorted_descending(items, key) =~= items);
    }
}

/// Before the place of a new item stand the items that are no smaller,
/// after it the smaller ones.
proof fn lemma_place_parts(sorted: Seq<StatisticsView>, item: StatisticsView, key: SortKey)
    requires
        is_descending(sorted, key),
    ensures
        forall|k: int|
            0 <= k < place_of(sorted, item, key) ==> sort_value(#[trigger] sorted[k], key)
                >= sort_value(item, key),
        forall|k: int|
            place_of(sorted, item, key) <= k < sorted.len() ==> sort_value(
                #[trigger] sorted[k],
                key,
            ) < sort_value(item, key),
    decreases sorted.len(),
{
    if sorted.len() > 0 {
        if sort_value(sorted.last(), key) >= sort_value(item, key) {
            assert forall|k: int| 0 <= k < sorted.len() implies sort_value(
                #[trigger] sorted[k],
                key,
            ) >= sort_value(item, key) by {
                if k < sorted.len() - 1 {
                    assert(sort_value(sorted[k], key) >= sort_value(sorted[sorted.len() - 1], key));
                }
            }
        } else {
            let rest = sorted.drop_last();
            assert(is_descending(rest, key)) by {
                assert forall|i: int, j: int| 0 <= i < j < rest.len() implies sort_value(
                    rest[i],
                    key,
                ) >= sort_value(rest[j], key) by {
                    assert(rest[i] == sorted[i] && rest[j] == sorted[j]);
                }
            }
            lemma_place_parts(rest, item, key);
            lemma_place_is_within(rest, item, key);
            assert forall|k: int| 0 <= k < place_of(sorted, item, key) implies sort_value(
                #[trigger] sorted[k],
                key,
            ) >= sort_value(item, key) by {
                assert(sorted[k] == rest[k]);
            }
            assert forall|k: int| place_of(sorted, item, key) <= k < sorted.len() implies sort_value(
                #[trigger] sorted[k],
                key,
            ) < sort_value(item, key) by {
                if k < rest.len() {
                    assert(sorted[k] == rest[k]);
                }
            }
        }
    }
}

/// No item is smaller than one that follows it.
pub open spec fn is_descending(items: Seq<StatisticsView>, key: SortKey) -> bool {
    forall|i: int, j: int|
        0 <= i < j < items.len() ==> sort_value(items[i], key) >= sort_value(items[j], key)
}

/// Ordered recommendations are in descending order.
pub proof fn lemma_sorted_is_descending(items: Seq<StatisticsView>, key: SortKey)
    ensures
        is_descending(sorted_descending(items, key), key),
    decreases items.len(),
{
    if items.len() > 0 {
        let before = sorted_descending(items.drop_last(), key);
        lemma_sorted_is_descending(items.drop_last(), key);
        lemma_place_is_within(before, items.last(), key);
        lemma_place_parts(before, items.last(), key);
        let place = place_of(before, items.last(), key);
        let now = before.insert(place, items.last());
        assert forall|i: int, j: int| 0 <= i < j < now.len() implies sort_value(now[i], key)
            >= sort_value(now[j], key) by {
            if j < place {
                assert(now[i] == before[i] && now[j] == before[j]);
            } else if j == place {
                assert(now[i] == before[i]);
            } else if i < place {
                assert(now[i] == before[i] && now[j] == before[j - 1]);
            } else if i == place {
                assert(now[j] == before[j - 1]);
            } else {
                assert(now[i] == before[i - 1] && now[j] == before[j - 1]);
            }
        }
    }
}

/// The number by which the recommendation is ordered.
fn sort_value_of(c: &CommandStatistics, key: SortKey) -> (r: u128)
    ensures
        r == sort_value(c@, key),
{
    match key {
        SortKey::TimesUsed => c.number_of_times_used as u128,
        SortKey::WordsSaved => c.number_of_words_saved as u128,
    }
}

/// Orders the recommendations, the largest first; of two that are equal,
/// the one that came first stays first.
pub fn sort_recommendations(commands: &mut Vec<CommandStatistics>, key: SortKey)
    ensures
        statistics_view(final(commands)@) == sorted_descending(
            statistics_view(old(commands)@),
            key,
        ),
{
    let ghost all = statistics_view(commands@);
    let mut sorted: Vec<CommandStatistics> = Vec::new();
    let mut i: usize = 0;
    assert(all.subrange(0, 0) =~= Seq::<StatisticsView>::empty());
    assert(statistics_view(sorted@) =~= Seq::<StatisticsView>::empty());
    while i < commands.len()
        invariant
            i <= commands.len(),
            all == statistics_view(commands@),
            statistics_view(sorted@) == sorted_descending(all.subrange(0, i as int), key),
        decreases commands.len() - i,
    {
        assert(all.subrange(0, i + 1).drop_last() == all.subrange(0, i as int));
        assert(all.subrange(0, i + 1).last() == commands[i as int]@);
        let item = commands[i].duplicate();
        let value = sort_value_of(&item, key);
        let ghost before = statistics_view(sorted@);
        let mut place: usize = sorted.len();
        assert(before.subrange(0, place as int) == before);
        while place > 0 && sort_value_of(&sorted[place - 1], key) < value
            invariant
                place <= sorted.len(),
                before == statistics_view(sorted@),
                value == sort_value(item@, key),
                place_of(before, item@, key) == place_of(
                    before.subrange(0, place as int),
                    item@,
                    key,
                ),
            decreases place,
        {
            assert(before.subrange(0, place as int).drop_last() == before.subrange(0, place - 1));
            assert(before.subrange(0, place as int).last() == sorted[place - 1]@);
            place -= 1;
        }
        assert(place == place_of(before, item@, key)) by {
            if place > 0 {
                assert(before.subrange(0, place as int).last() == sorted[place - 1]@);
            }
        }
        sorted.insert(place, item);
        assert(statistics_view(sorted@) =~= before.insert(place as int, item@));
        i += 1;
    }
    assert(all.subrange(0, commands.len() as int) == all);
    *commands = sorted;
}

/// Orders the recommendations by the number of times used, the most used
/// first.
pub fn create_sorted_info(commands: &mut Vec<CommandStatistics>)
    ensures
        statistics_view(final(commands)@) == sorted_descending(
            statistics_view(old(commands)@),
            SortKey::TimesUsed,
        ),
{
    sort_recommendations(commands, SortKey::TimesUsed)
}

/// Whether `a` is to stand before `b`: it was used more often.
pub fn compare_information(a: &CommandStatistics, b: &CommandStatistics) -> (r: bool)
    ensures
        r == (a@.number_of_times_used > b@.number_of_times_used),
{
    a.number_of_times_used > b.number_of_times_used
}

} // verus!
