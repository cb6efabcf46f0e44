//! How often a candidate is counted: once for each chain with its actions
//! that spans after the last chain counted for it.

use crate::actions::canonical;
use crate::commands::{ChainView, EntryView};
use crate::commands::is_insert_view;
use crate::generation::{
    abstract_counted, abstract_instances, abstract_repeat, chain_counted, chain_end, chain_grown,
    chains_counted, concrete_counted, counts_after, empty_chain, instances_counted, offered,
    prose_inserts_counted, prose_instances_from_action, prose_instances_from_size,
    prose_instances_from_start, prose_sizes_counted, prose_starts_counted, record_candidates,
    simplified_chain, starts_counted, stops_chain, table_index, wants_abstract_repeat,
    CandidateView, InstantiationView, TablesView,
};
use crate::text::words_of;
use vstd::prelude::*;

verus! {

/// The chain, simplified, has the actions with the canonical form `key`.
pub open spec fn realises(chain: ChainView, key: Seq<char>) -> bool {
    canonical(simplified_chain(chain).command.actions) == key
}

/// The record index at which the last of the spans ends, if there is one.
/// A span is the first and the last record index of a chain.
pub open spec fn last_end(spans: Seq<(int, int)>) -> Option<int> {
    if spans.len() > 0 {
        Some(spans.last().1)
    } else {
        None
    }
}

/// The spans of the chains counted for `key`, after `chain` was met: its
/// span joins them where the chain realises `key` and begins after the last of
/// them.
pub open spec fn spans_with_chain(spans: Seq<(int, int)>, chain: ChainView, key: Seq<char>) -> Seq<(int, int)> {
    if realises(chain, key) && counts_after(last_end(spans), chain.start) {
        spans.push((chain.start, chain_end(chain)))
    } else {
        spans
    }
}

/// The spans of the chains counted for `key` after the chains were met that
/// begin at `start` and end at `at` or later.
pub open spec fn spans_with_chains(
    spans: Seq<(int, int)>,
    record: Seq<EntryView>,
    max_chain_size: int,
    start: int,
    at: int,
    chain: ChainView,
    key: Seq<char>,
) -> Seq<(int, int)>
    decreases record.len() - at,
{
    if at < 0 || at >= record.len() || at >= start + max_chain_size || stops_chain(
        record,
        start,
        at,
    ) {
        spans
    } else {
        let grown = chain_grown(chain, record[at]);
        spans_with_chains(
            spans_with_chain(spans, grown, key),
            record,
            max_chain_size,
            start,
            at + 1,
            grown,
            key,
        )
    }
}

/// The spans of the chains counted for `key` after the chains were met that
/// begin at `start` or later.
pub open spec fn spans_with_starts(
    spans: Seq<(int, int)>,
    record: Seq<EntryView>,
    max_chain_size: int,
    start: int,
    key: Seq<char>,
) -> Seq<(int, int)>
    decreases record.len() - start,
{
    if start < 0 || start >= record.len() {
        spans
    } else {
        spans_with_starts(
            spans_with_chains(spans, record, max_chain_size, start, start, empty_chain(start), key),
            record,
            max_chain_size,
            start + 1,
            key,
        )
    }
}

/// The spans of the chains that are counted for the candidate with the
/// canonical form `key`: the chains of the record are met by their start
/// and then by their length, and one that realises `key` is counted where
/// it begins after the end of the last one counted.
pub open spec fn counted_spans(record: Seq<EntryView>, max_chain_size: int, key: Seq<char>) -> Seq<(int, int)> {
    spans_with_starts(Seq::empty(), record, max_chain_size, 0, key)
}

/// No two of the spans share an index: each begins after the one before it
/// ends. All lie from zero up to, not including, `bound`.
pub open spec fn spans_are_apart(spans: Seq<(int, int)>, bound: int) -> bool {
    &&& forall|i: int, j: int| 0 <= i < j < spans.len() ==> spans[i].1 < spans[j].0
    &&& forall|i: int| 0 <= i < spans.len() ==> 0 <= (#[trigger] spans[i]).0 <= spans[i].1 < bound
}

/// The candidate with the canonical form `key` was used as often as there
/// are spans, and its last counted chain ended where the last of them ends;
/// there is no such candidate where there is no span.
pub open spec fn table_agrees(table: Seq<CandidateView>, spans: Seq<(int, int)>, key: Seq<char>) -> bool {
    match table_index(table, key, 0) {
        Some(k) => spans.len() > 0 && table[k].last_end == last_end(spans)
            && table[k].statistics.number_of_times_used == spans.len(),
        None => spans.len() == 0,
    }
}

/// Spans that lie apart from zero on end no earlier than their place says.
proof fn lemma_spans_are_spread(spans: Seq<(int, int)>, bound: int, i: int)
    requires
        spans_are_apart(spans, bound),
        0 <= i < spans.len(),
    ensures
        spans[i].1 >= i,
    decreases i,
{
    if i > 0 {
        lemma_spans_are_spread(spans, bound, i - 1);
    }
}

/// A found index lies in the table at or after `from`, and its candidate has
/// the key; no candidate at or after `from` has the key where none is
/// found.
proof fn lemma_table_index(table: Seq<CandidateView>, key: Seq<char>, from: int)
    requires
        0 <= from,
    ensures
        match table_index(table, key, from) {
            Some(k) => from <= k < table.len() && canonical(table[k].statistics.actions) == key,
            None => forall|k: int|
                from <= k < table.len() ==> canonical((#[trigger] table[k]).statistics.actions)
                    != key,
        },
    decreases table.len() - from,
{
    if from < table.len() && canonical(table[from].statistics.actions) != key {
        lemma_table_index(table, key, from + 1);
    }
}

/// A candidate that is put in the place of one with the same actions
/// leaves every key where it was.
proof fn lemma_index_after_update(
    table: Seq<CandidateView>,
    at: int,
    candidate: CandidateView,
    key: Seq<char>,
    from: int,
)
    requires
        0 <= at < table.len(),
        0 <= from,
        canonical(candidate.statistics.actions) == canonical(table[at].statistics.actions),
    ensures
        table_index(table.update(at, candidate), key, from) == table_index(table, key, from),
    decreases table.len() - from,
{
    if from < table.len() {
        lemma_index_after_update(table, at, candidate, key, from + 1);
    }
}

/// A candidate that joins the table is found by its key where the key was
/// not there; every other key is where it was.
proof fn lemma_index_after_push(
    table: Seq<CandidateView>,
    candidate: CandidateView,
    key: Seq<char>,
    from: int,
)
    requires
        0 <= from <= table.len(),
    ensures
        table_index(table.push(candidate), key, from) == match table_index(table, key, from) {
            Some(k) => Some(k),
            None => if canonical(candidate.statistics.actions) == key {
                Some(table.len() as int)
            } else {
                None
            },
        },
    decreases table.len() - from,
{
    if from < table.len() {
        assert(table.push(candidate)[from] == table[from]);
        lemma_index_after_push(table, candidate, key, from + 1);
    } else {
        assert(table.push(candidate)[from] == candidate);
        assert(table_index(table.push(candidate), key, from + 1) is None);
    }
}

/// Counting one chain keeps the table and the spans in step.
proof fn lemma_chain_keeps_step(
    table: Seq<CandidateView>,
    spans: Seq<(int, int)>,
    chain: ChainView,
    key: Seq<char>,
    bound: int,
)
    requires
        table_agrees(table, spans, key),
        spans_are_apart(spans, bound),
        0 <= chain.start <= chain_end(chain) < bound <= usize::MAX,
    ensures
        table_agrees(
            concrete_counted(table, simplified_chain(chain)),
            spans_with_chain(spans, chain, key),
            key,
        ),
        spans_are_apart(spans_with_chain(spans, chain, key), bound),
{
    let simple = simplified_chain(chain);
    let own = canonical(simple.command.actions);
    let end = chain_end(chain);
    assert(chain_end(simple) == end);
    lemma_table_index(table, own, 0);
    lemma_table_index(table, key, 0);
    if spans.len() > 0 {
        lemma_spans_are_spread(spans, bound, spans.len() - 1);
    }
    match table_index(table, own, 0) {
        Some(k) => {
            let updated = offered(table[k], simple);
            lemma_index_after_update(table, k, updated, key, 0);
        },
        None => {
            let fresh = CandidateView {
                statistics: crate::generation::fresh_statistics(simple.command.actions),
                last_end: None,
            };
            lemma_index_after_push(table, offered(fresh, simple), key, 0);
        },
    }
    let now = spans_with_chain(spans, chain, key);
    if now.len() > spans.len() {
        assert forall|i: int, j: int| 0 <= i < j < now.len() implies now[i].1 < now[j].0 by {
            if j < spans.len() {
                assert(now[i] == spans[i] && now[j] == spans[j]);
            } else if spans.len() > 0 {
                assert(now[i] == spans[i]);
                assert(spans[i].1 <= spans.last().1);
            }
        }
        assert forall|i: int| 0 <= i < now.len() implies 0 <= (#[trigger] now[i]).0 <= now[i].1
            < bound by {
            if i < spans.len() {
                assert(now[i] == spans[i]);
            }
        }
    }
}

/// Counting the chains that begin at one start keeps the table and the
/// spans in step.
proof fn lemma_chains_keep_step(
    tables: TablesView,
    spans: Seq<(int, int)>,
    record: Seq<EntryView>,
    max_chain_size: int,
    start: int,
    at: int,
    chain: ChainView,
    key: Seq<char>,
)
    requires
        table_agrees(tables.concrete, spans, key),
        spans_are_apart(spans, record.len() as int),
        record.len() <= usize::MAX,
        0 <= start <= at,
        chain.start == start,
        chain.size == at - start,
    ensures
        table_agrees(
            chains_counted(tables, record, max_chain_size, start, at, chain).concrete,
            spans_with_chains(spans, record, max_chain_size, start, at, chain, key),
            key,
        ),
        spans_are_apart(
            spans_with_chains(spans, record, max_chain_size, start, at, chain, key),
            record.len() as int,
        ),
    decreases record.len() - at,
{
    if !(at >= record.len() || at >= start + max_chain_size || stops_chain(record, start, at)) {
        let grown = chain_grown(chain, record[at]);
        assert(record[at] is Command);
        assert(chain_end(grown) == at);
        lemma_chain_keeps_step(tables.concrete, spans, grown, key, record.len() as int);
        lemma_chains_keep_step(
            chain_counted(tables, grown),
            spans_with_chain(spans, grown, key),
            record,
            max_chain_size,
            start,
            at + 1,
            grown,
            key,
        );
    }
}

/// Counting the chains from one start on keeps the table and the spans in
/// step.
proof fn lemma_starts_keep_step(
    tables: TablesView,
    spans: Seq<(int, int)>,
    record: Seq<EntryView>,
    max_chain_size: int,
    start: int,
    key: Seq<char>,
)
    requires
        table_agrees(tables.concrete, spans, key),
        spans_are_apart(spans, record.len() as int),
        record.len() <= usize::MAX,
        0 <= start,
    ensures
        table_agrees(
            starts_counted(tables, record, max_chain_size, start).concrete,
            spans_with_starts(spans, record, max_chain_size, start, key),
            key,
        ),
        spans_are_apart(spans_with_starts(spans, record, max_chain_size, start, key), record.len() as int),
    decreases record.len() - start,
{
    if start < record.len() {
        lemma_chains_keep_step(
            tables,
            spans,
            record,
            max_chain_size,
            start,
            start,
            empty_chain(start),
            key,
        );
        lemma_starts_keep_step(
            chains_counted(tables, record, max_chain_size, start, start, empty_chain(start)),
            spans_with_chains(spans, record, max_chain_size, start, start, empty_chain(start), key),
            record,
            max_chain_size,
            start + 1,
            key,
        );
    }
}

/// A concrete candidate of a record was used as often as there are chains
/// counted for it; no two of the counted chains share a command of the
/// record, and the candidate remembers where the last of them ends. A
/// canonical form for which no chain was counted has no candidate.
pub proof fn lemma_usage_is_the_number_of_counted_chains(
    record: Seq<EntryView>,
    max_chain_size: int,
    key: Seq<char>,
)
    requires
        record.len() <= usize::MAX,
    ensures
        table_agrees(
            record_candidates(record, max_chain_size).concrete,
            counted_spans(record, max_chain_size, key),
            key,
        ),
        spans_are_apart(counted_spans(record, max_chain_size, key), record.len() as int),
{
    let tables = TablesView { concrete: Seq::empty(), abstracts: Seq::empty() };
    assert(table_index(tables.concrete, key, 0) is None);
    lemma_starts_keep_step(tables, Seq::empty(), record, max_chain_size, 0, key);
}

/// The spans of the chains counted for the abstract candidate `key`, after
/// an abstract chain was met: its span joins them where the chain has the
/// actions of `key` and begins after the last of them.
pub open spec fn spans_with_instance(spans: Seq<(int, int)>, instance: InstantiationView, key: Seq<char>) -> Seq<(int, int)> {
    if canonical(instance.command_chain.command.actions) == key && counts_after(
        last_end(spans),
        instance.command_chain.start,
    ) {
        spans.push((instance.command_chain.start, chain_end(instance.command_chain)))
    } else {
        spans
    }
}

/// The same after the first `n` abstract chains of a list were met.
pub open spec fn spans_with_instances(
    spans: Seq<(int, int)>,
    instances: Seq<InstantiationView>,
    n: int,
    key: Seq<char>,
) -> Seq<(int, int)>
    decreases n,
{
    if n <= 0 {
        spans
    } else {
        spans_with_instance(spans_with_instances(spans, instances, n - 1, key), instances[n - 1], key)
    }
}

/// The same after the chains were met that begin at `start` and end at
/// `at` or later.
pub open spec fn abstract_spans_with_chains(
    spans: Seq<(int, int)>,
    record: Seq<EntryView>,
    max_chain_size: int,
    start: int,
    at: int,
    chain: ChainView,
    key: Seq<char>,
) -> Seq<(int, int)>
    decreases record.len() - at,
{
    if at < 0 || at >= record.len() || at >= start + max_chain_size || stops_chain(
        record,
        start,
        at,
    ) {
        spans
    } else {
        let grown = chain_grown(chain, record[at]);
        let instances = abstract_instances(simplified_chain(grown));
        abstract_spans_with_chains(
            spans_with_instances(spans, instances, instances.len() as int, key),
            record,
            max_chain_size,
            start,
            at + 1,
            grown,
            key,
        )
    }
}

/// The same after the chains were met that begin at `start` or later.
pub open spec fn abstract_spans_with_starts(
    spans: Seq<(int, int)>,
    record: Seq<EntryView>,
    max_chain_size: int,
    start: int,
    key: Seq<char>,
) -> Seq<(int, int)>
    decreases record.len() - start,
{
    if start < 0 || start >= record.len() {
        spans
    } else {
        abstract_spans_with_starts(
            abstract_spans_with_chains(
                spans,
                record,
                max_chain_size,
                start,
                start,
                empty_chain(start),
                key,
            ),
            record,
            max_chain_size,
            start + 1,
            key,
        )
    }
}

/// The spans of the chains that are counted for the abstract candidate
/// with the canonical form `key`.
pub open spec fn abstract_counted_spans(
    record: Seq<EntryView>,
    max_chain_size: int,
    key: Seq<char>,
) -> Seq<(int, int)> {
    abstract_spans_with_starts(Seq::empty(), record, max_chain_size, 0, key)
}

/// Counting one abstract chain keeps the table and the spans in step.
proof fn lemma_instance_keeps_step(
    table: Seq<CandidateView>,
    spans: Seq<(int, int)>,
    instance: InstantiationView,
    key: Seq<char>,
    bound: int,
)
    requires
        table_agrees(table, spans, key),
        spans_are_apart(spans, bound),
        0 <= instance.command_chain.start <= chain_end(instance.command_chain) < bound
            <= usize::MAX,
    ensures
        table_agrees(abstract_counted(table, instance), spans_with_instance(spans, instance, key), key),
        spans_are_apart(spans_with_instance(spans, instance, key), bound),
{
    let own = canonical(instance.command_chain.command.actions);
    let end = chain_end(instance.command_chain);
    lemma_table_index(table, own, 0);
    lemma_table_index(table, key, 0);
    if spans.len() > 0 {
        lemma_spans_are_spread(spans, bound, spans.len() - 1);
    }
    match table_index(table, own, 0) {
        Some(k) => {
            let updated = crate::generation::instantiated(table[k], instance);
            lemma_index_after_update(table, k, updated, key, 0);
        },
        None => {
            let fresh = crate::generation::fresh_abstract(instance.command_chain.command.actions);
            lemma_index_after_push(
                table,
                crate::generation::instantiated(fresh, instance),
                key,
                0,
            );
        },
    }
    let now = spans_with_instance(spans, instance, key);
    if now.len() > spans.len() {
        assert forall|i: int, j: int| 0 <= i < j < now.len() implies now[i].1 < now[j].0 by {
            if j < spans.len() {
                assert(now[i] == spans[i] && now[j] == spans[j]);
            } else if spans.len() > 0 {
                assert(now[i] == spans[i]);
                assert(spans[i].1 <= spans.last().1);
            }
        }
        assert forall|i: int| 0 <= i < now.len() implies 0 <= (#[trigger] now[i]).0 <= now[i].1
            < bound by {
            if i < spans.len() {
                assert(now[i] == spans[i]);
            }
        }
    }
}

/// Counting the first abstract chains of a list keeps the table and the
/// spans in step, where the chains end below the bound.
proof fn lemma_instances_keep_step(
    table: Seq<CandidateView>,
    spans: Seq<(int, int)>,
    instances: Seq<InstantiationView>,
    n: int,
    key: Seq<char>,
    bound: int,
)
    requires
        table_agrees(table, spans, key),
        spans_are_apart(spans, bound),
        0 <= n <= instances.len(),
        bound <= usize::MAX,
        forall|k: int|
            0 <= k < instances.len() ==> 0 <= (#[trigger] instances[k]).command_chain.start
                <= chain_end(instances[k].command_chain) < bound,
    ensures
        table_agrees(
            instances_counted(table, instances, n),
            spans_with_instances(spans, instances, n, key),
            key,
        ),
        spans_are_apart(spans_with_instances(spans, instances, n, key), bound),
    decreases n,
{
    if n > 0 {
        lemma_instances_keep_step(table, spans, instances, n - 1, key, bound);
        lemma_instance_keeps_step(
            instances_counted(table, instances, n - 1),
            spans_with_instances(spans, instances, n - 1, key),
            instances[n - 1],
            key,
            bound,
        );
    }
}

/// The abstract chains that the phrases of some size and more give lie
/// where the chain lies.
proof fn lemma_sizes_lie_with(chain: ChainView, index: int, start: int, size: int, max: int)
    ensures
        crate::generation::lie_with(prose_instances_from_size(chain, index, start, size, max), chain),
    decreases crate::generation::prose_size_limit_of(words_of(chain.command.name), start, max) - size
        + 1,
{
    let words = words_of(chain.command.name);
    let all = prose_instances_from_size(chain, index, start, size, max);
    if !(size < 1 || size > crate::generation::prose_size_limit_of(words, start, max)) {
        match crate::generation::prose_match(
            words,
            crate::commands::insert_text_view(chain.command.actions[index]),
            start,
            size,
        ) {
            None => {
                lemma_sizes_lie_with(chain, index, start, size + 1, max);
            },
            Some(found) => {
                lemma_sizes_lie_with(chain, index, start, size + 1, max);
                let later = prose_instances_from_size(chain, index, start, size + 1, max);
                let instance = crate::generation::abstract_prose(
                    chain,
                    index,
                    crate::generation::prose_name(words, start, size),
                    found,
                );
                assert forall|k: int| 0 <= k < all.len() implies (
                #[trigger] all[k]).command_chain.start == chain.start
                    && all[k].command_chain.size == chain.size by {
                    if instance.command_chain.command.actions.len() > 1 {
                        if k > 0 {
                            assert(all[k] == later[k - 1]);
                        }
                    } else {
                        assert(all[k] == later[k]);
                    }
                }
            },
        }
    }
}

/// The same for the phrases that begin at some word or later.
proof fn lemma_starts_lie_with(chain: ChainView, index: int, start: int, max: int)
    ensures
        crate::generation::lie_with(prose_instances_from_start(chain, index, start, max), chain),
    decreases words_of(chain.command.name).len() - start,
{
    if !(start < 0 || start >= words_of(chain.command.name).len()) {
        lemma_sizes_lie_with(chain, index, start, 1, max);
        lemma_starts_lie_with(chain, index, start + 1, max);
        let here = prose_instances_from_size(chain, index, start, 1, max);
        let later = prose_instances_from_start(chain, index, start + 1, max);
        let all = prose_instances_from_start(chain, index, start, max);
        assert forall|k: int| 0 <= k < all.len() implies (#[trigger] all[k]).command_chain.start
            == chain.start && all[k].command_chain.size == chain.size by {
            if k < here.len() {
                assert(all[k] == here[k]);
            } else {
                assert(all[k] == later[k - here.len()]);
            }
        }
    }
}

/// The same for the inserts from some action on.
proof fn lemma_actions_lie_with(chain: ChainView, index: int, max: int)
    ensures
        crate::generation::lie_with(prose_instances_from_action(chain, index, max), chain),
    decreases chain.command.actions.len() - index,
{
    if !(index < 0 || index >= chain.command.actions.len()) {
        lemma_actions_lie_with(chain, index + 1, max);
        if is_insert_view(chain.command.actions[index]) {
            lemma_starts_lie_with(chain, index, 0, max);
            let here = prose_instances_from_start(chain, index, 0, max);
            let later = prose_instances_from_action(chain, index + 1, max);
            let all = prose_instances_from_action(chain, index, max);
            assert forall|k: int| 0 <= k < all.len() implies (
            #[trigger] all[k]).command_chain.start == chain.start && all[k].command_chain.size
                == chain.size by {
                if k < here.len() {
                    assert(all[k] == here[k]);
                } else {
                    assert(all[k] == later[k - here.len()]);
                }
            }
        }
    }
}

/// The abstract chains of a chain lie where the chain lies.
pub proof fn lemma_abstract_chains_lie_with(chain: ChainView)
    ensures
        crate::generation::lie_with(abstract_instances(chain), chain),
{
    lemma_actions_lie_with(chain, 0, 10);
    let prose = prose_instances_from_action(chain, 0, 10);
    let all = abstract_instances(chain);
    assert forall|k: int| 0 <= k < all.len() implies (#[trigger] all[k]).command_chain.start
        == chain.start && all[k].command_chain.size == chain.size by {
        if k < prose.len() {
            assert(all[k] == prose[k]);
        }
    }
}

/// Counting the chains that begin at one start keeps the abstract table and
/// the spans in step.
proof fn lemma_abstract_chains_keep_step(
    tables: TablesView,
    spans: Seq<(int, int)>,
    record: Seq<EntryView>,
    max_chain_size: int,
    start: int,
    at: int,
    chain: ChainView,
    key: Seq<char>,
)
    requires
        table_agrees(tables.abstracts, spans, key),
        spans_are_apart(spans, record.len() as int),
        record.len() <= usize::MAX,
        0 <= start <= at,
        chain.start == start,
        chain.size == at - start,
    ensures
        table_agrees(
            chains_counted(tables, record, max_chain_size, start, at, chain).abstracts,
            abstract_spans_with_chains(spans, record, max_chain_size, start, at, chain, key),
            key,
        ),
        spans_are_apart(
            abstract_spans_with_chains(spans, record, max_chain_size, start, at, chain, key),
            record.len() as int,
        ),
    decreases record.len() - at,
{
    if !(at >= record.len() || at >= start + max_chain_size || stops_chain(record, start, at)) {
        let grown = chain_grown(chain, record[at]);
        assert(record[at] is Command);
        let simple = simplified_chain(grown);
        assert(chain_end(simple) == at);
        let instances = abstract_instances(simple);
        lemma_abstract_chains_lie_with(simple);
        lemma_chain_counts_its_abstract_chains(tables, grown);
        assert forall|k: int| 0 <= k < instances.len() implies 0 <= (
        #[trigger] instances[k]).command_chain.start <= chain_end(instances[k].command_chain)
            < record.len() by {
            assert(instances[k].command_chain.start == simple.start);
        }
        lemma_instances_keep_step(
            tables.abstracts,
            spans,
            instances,
            instances.len() as int,
            key,
            record.len() as int,
        );
        lemma_abstract_chains_keep_step(
            chain_counted(tables, grown),
            spans_with_instances(spans, instances, instances.len() as int, key),
            record,
            max_chain_size,
            start,
            at + 1,
            grown,
            key,
        );
    }
}

/// Counting the chains from one start on keeps the abstract table and the
/// spans in step.
proof fn lemma_abstract_starts_keep_step(
    tables: TablesView,
    spans: Seq<(int, int)>,
    record: Seq<EntryView>,
    max_chain_size: int,
    start: int,
    key: Seq<char>,
)
    requires
        table_agrees(tables.abstracts, spans, key),
        spans_are_apart(spans, record.len() as int),
        record.len() <= usize::MAX,
        0 <= start,
    ensures
        table_agrees(
            starts_counted(tables, record, max_chain_size, start).abstracts,
            abstract_spans_with_starts(spans, record, max_chain_size, start, key),
            key,
        ),
        spans_are_apart(
            abstract_spans_with_starts(spans, record, max_chain_size, start, key),
            record.len() as int,
        ),
    decreases record.len() - start,
{
    if start < record.len() {
        lemma_abstract_chains_keep_step(
            tables,
            spans,
            record,
            max_chain_size,
            start,
            start,
            empty_chain(start),
            key,
        );
        lemma_abstract_starts_keep_step(
            chains_counted(tables, record, max_chain_size, start, start, empty_chain(start)),
            abstract_spans_with_chains(
                spans,
                record,
                max_chain_size,
                start,
                start,
                empty_chain(start),
                key,
            ),
            record,
            max_chain_size,
            start + 1,
            key,
        );
    }
}

/// An abstract candidate of a record was used as often as there are
/// abstract chains with its actions that were counted; no two of them share
/// a command of the record, and the candidate remembers where the last of
/// them ends.
pub proof fn lemma_abstract_usage_is_the_number_of_counted_chains(
    record: Seq<EntryView>,
    max_chain_size: int,
    key: Seq<char>,
)
    requires
        record.len() <= usize::MAX,
    ensures
        table_agrees(
            record_candidates(record, max_chain_size).abstracts,
            abstract_counted_spans(record, max_chain_size, key),
            key,
        ),
        spans_are_apart(abstract_counted_spans(record, max_chain_size, key), record.len() as int),
{
    let tables = TablesView { concrete: Seq::empty(), abstracts: Seq::empty() };
    assert(table_index(tables.abstracts, key, 0) is None);
    lemma_abstract_starts_keep_step(tables, Seq::empty(), record, max_chain_size, 0, key);
}

/// Counting abstract chains one list after the other is counting the one
/// list that they make.
pub proof fn lemma_counting_in_turn(
    table: Seq<CandidateView>,
    first: Seq<InstantiationView>,
    second: Seq<InstantiationView>,
)
    ensures
        instances_counted(table, first + second, (first + second).len() as int)
            == instances_counted(
            instances_counted(table, first, first.len() as int),
            second,
            second.len() as int,
        ),
    decreases second.len(),
{
    let all = first + second;
    if second.len() == 0 {
        assert(all =~= first);
    } else {
        let shorter = second.drop_last();
        lemma_counting_in_turn(table, first, shorter);
        lemma_counting_ignores_the_rest(table, all, first + shorter, all.len() - 1);
        lemma_counting_ignores_the_rest(
            instances_counted(table, first, first.len() as int),
            second,
            shorter,
            second.len() - 1,
        );
        assert(all[all.len() - 1] == second[second.len() - 1]);
    }
}

/// Counting the first abstract chains of a list does not look at the rest.
proof fn lemma_counting_ignores_the_rest(
    table: Seq<CandidateView>,
    a: Seq<InstantiationView>,
    b: Seq<InstantiationView>,
    n: int,
)
    requires
        0 <= n <= a.len(),
        n <= b.len(),
        forall|k: int| 0 <= k < n ==> a[k] == b[k],
    ensures
        instances_counted(table, a, n) == instances_counted(table, b, n),
    decreases n,
{
    if n > 0 {
        lemma_counting_ignores_the_rest(table, a, b, n - 1);
    }
}

/// Counting no abstract chain changes nothing; counting one counts it.
proof fn lemma_counting_few(table: Seq<CandidateView>, instance: InstantiationView)
    ensures
        instances_counted(table, Seq::empty(), 0) == table,
        instances_counted(table, seq![instance], 1) == abstract_counted(table, instance),
{
    assert(instances_counted(table, seq![instance], 0) == table);
}

/// Looking for the phrases of some size and more, and counting what is
/// found at once, counts the abstract chains that these phrases give.
proof fn lemma_sizes_counted(
    table: Seq<CandidateView>,
    chain: ChainView,
    index: int,
    start: int,
    size: int,
)
    ensures
        prose_sizes_counted(table, chain, index, start, size) == instances_counted(
            table,
            prose_instances_from_size(chain, index, start, size, 10),
            prose_instances_from_size(chain, index, start, size, 10).len() as int,
        ),
    decreases crate::generation::prose_size_limit(words_of(chain.command.name), start) - size + 1,
{
    let words = words_of(chain.command.name);
    let limit = crate::generation::prose_size_limit(words, start);
    assert(limit == crate::generation::prose_size_limit_of(words, start, 10));
    let instances = prose_instances_from_size(chain, index, start, size, 10);
    if size < 1 || size > limit {
        assert(instances =~= Seq::<InstantiationView>::empty());
    } else {
        match crate::generation::prose_match(
            words,
            crate::commands::insert_text_view(chain.command.actions[index]),
            start,
            size,
        ) {
            None => {
                lemma_sizes_counted(table, chain, index, start, size + 1);
            },
            Some(found) => {
                let instance = crate::generation::abstract_prose(
                    chain,
                    index,
                    crate::generation::prose_name(words, start, size),
                    found,
                );
                let later = prose_instances_from_size(chain, index, start, size + 1, 10);
                let head = if instance.command_chain.command.actions.len() > 1 {
                    seq![instance]
                } else {
                    Seq::<InstantiationView>::empty()
                };
                let counted = if instance.command_chain.command.actions.len() > 1 {
                    abstract_counted(table, instance)
                } else {
                    table
                };
                lemma_counting_few(table, instance);
                assert(instances_counted(table, head, head.len() as int) == counted);
                lemma_counting_in_turn(table, head, later);
                lemma_sizes_counted(counted, chain, index, start, size + 1);
            },
        }
    }
}

/// The same for the phrases that begin at some word or later.
proof fn lemma_starts_counted(table: Seq<CandidateView>, chain: ChainView, index: int, start: int)
    ensures
        prose_starts_counted(table, chain, index, start) == instances_counted(
            table,
            prose_instances_from_start(chain, index, start, 10),
            prose_instances_from_start(chain, index, start, 10).len() as int,
        ),
    decreases words_of(chain.command.name).len() - start,
{
    if start < 0 || start >= words_of(chain.command.name).len() {
        assert(prose_instances_from_start(chain, index, start, 10) =~= Seq::<
            InstantiationView,
        >::empty());
    } else {
        let here = prose_instances_from_size(chain, index, start, 1, 10);
        let later = prose_instances_from_start(chain, index, start + 1, 10);
        lemma_sizes_counted(table, chain, index, start, 1);
        lemma_counting_in_turn(table, here, later);
        lemma_starts_counted(prose_sizes_counted(table, chain, index, start, 1), chain, index, start + 1);
    }
}

/// The same for the inserts from some action on.
proof fn lemma_inserts_counted(table: Seq<CandidateView>, chain: ChainView, index: int)
    ensures
        prose_inserts_counted(table, chain, index) == instances_counted(
            table,
            prose_instances_from_action(chain, index, 10),
            prose_instances_from_action(chain, index, 10).len() as int,
        ),
    decreases chain.command.actions.len() - index,
{
    if index < 0 || index >= chain.command.actions.len() {
        assert(prose_instances_from_action(chain, index, 10) =~= Seq::<InstantiationView>::empty());
    } else if is_insert_view(chain.command.actions[index]) {
        let here = prose_instances_from_start(chain, index, 0, 10);
        let later = prose_instances_from_action(chain, index + 1, 10);
        lemma_starts_counted(table, chain, index, 0);
        lemma_counting_in_turn(table, here, later);
        lemma_inserts_counted(prose_starts_counted(table, chain, index, 0), chain, index + 1);
    } else {
        lemma_inserts_counted(table, chain, index + 1);
    }
}

/// What counting a chain does to the abstract candidates is counting the
/// abstract chains of the simplified chain, one after the other.
pub proof fn lemma_chain_counts_its_abstract_chains(tables: TablesView, chain: ChainView)
    ensures
        chain_counted(tables, chain).abstracts == instances_counted(
            tables.abstracts,
            abstract_instances(simplified_chain(chain)),
            abstract_instances(simplified_chain(chain)).len() as int,
        ),
{
    let simple = simplified_chain(chain);
    let prose = prose_instances_from_action(simple, 0, 10);
    lemma_inserts_counted(tables.abstracts, simple, 0);
    if wants_abstract_repeat(simple) {
        let last = seq![abstract_repeat(simple)];
        lemma_counting_in_turn(tables.abstracts, prose, last);
        lemma_counting_few(
            instances_counted(tables.abstracts, prose, prose.len() as int),
            abstract_repeat(simple),
        );
    } else {
        assert(prose + Seq::<InstantiationView>::empty() =~= prose);
    }
}

} // verus!
