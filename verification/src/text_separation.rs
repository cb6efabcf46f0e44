//! Separates a text into parts and the separators between them, finds a
//! dictated phrase in the parts, and says how the phrase is written there.

use crate::text::{
    append_chars, char_is_alphabetic, char_is_lowercase, char_is_uppercase, chars_equal, chars_of,
    ends_with, find_first, find_text, has_prefix, has_suffix, is_alphabetic, is_lowercase,
    is_uppercase, join_chars, joined, lemma_find_from, lower, lowercase, remove_char, slice_chars,
    split_chars, split_on, starts_with, string_of, without_char,
};
use vstd::prelude::*;

verus! {

/// Whether the character is a letter.
pub fn is_character_alpha(character: char) -> (r: bool)
    ensures
        r == char_is_alphabetic(character),
{
    is_alphabetic(character)
}

/// A text taken apart: what stands before the first part, the parts, and
/// the separator after each part; the last part has one only where the text
/// ends with it.
pub struct SeparationView {
    pub prefix: Seq<char>,
    pub parts: Seq<Seq<char>>,
    pub separators: Seq<Seq<char>>,
}

/// Every character of `s` is accepted by `pred`, or every one is refused.
pub open spec fn all_chars(s: Seq<char>, pred: spec_fn(char) -> bool, accepted: bool) -> bool {
    forall|k: int| 0 <= k < s.len() ==> #[trigger] pred(s[k]) == accepted
}

/// The separator after part `k`; nothing after the last part.
pub open spec fn separator_after(v: SeparationView, k: int) -> Seq<char> {
    if 0 <= k < v.separators.len() {
        v.separators[k]
    } else {
        Seq::empty()
    }
}

/// The parts from `from` up to `to`, each with the separator after it.
pub open spec fn stretch(v: SeparationView, from: int, to: int) -> Seq<char>
    decreases to - from,
{
    if to <= from {
        Seq::empty()
    } else {
        stretch(v, from, to - 1) + v.parts[to - 1] + separator_after(v, to - 1)
    }
}

/// The text that was taken apart.
pub open spec fn assembled(v: SeparationView) -> Seq<char> {
    v.prefix + stretch(v, 0, v.parts.len() as int)
}

/// There are as many parts as separators, or one part more.
pub open spec fn well_shaped(v: SeparationView) -> bool {
    v.parts.len() == v.separators.len() || v.parts.len() == v.separators.len() + 1
}

/// `v` is `text` taken apart by `pred`: the parts are the longest runs of
/// accepted characters, the separators the longest runs of refused ones
/// after them, and the prefix the refused characters before the first
/// part. No part and no separator is empty.
pub open spec fn is_separation_of(
    v: SeparationView,
    text: Seq<char>,
    pred: spec_fn(char) -> bool,
) -> bool {
    &&& well_shaped(v)
    &&& all_chars(v.prefix, pred, false)
    &&& forall|i: int| 0 <= i < v.parts.len() ==> all_chars(#[trigger] v.parts[i], pred, true)
    &&& forall|i: int| 0 <= i < v.parts.len() ==> (#[trigger] v.parts[i]).len() > 0
    &&& forall|i: int|
        0 <= i < v.separators.len() ==> all_chars(#[trigger] v.separators[i], pred, false)
            && v.separators[i].len() > 0
    &&& assembled(v) == text
}

/// The predicate that holds of the letters.
pub open spec fn alphabetic() -> spec_fn(char) -> bool {
    |c: char| char_is_alphabetic(c)
}

/// The end of the longest run of characters from `from` on of which `pred`
/// says `accepted`.
pub open spec fn run_end(text: Seq<char>, from: int, pred: spec_fn(char) -> bool, accepted: bool) -> int
    decreases text.len() - from,
{
    if from < 0 || from >= text.len() {
        from
    } else if pred(text[from]) == accepted {
        run_end(text, from + 1, pred, accepted)
    } else {
        from
    }
}

/// The parts and the separators of the text from `from` on, where a part
/// begins at `from`.
pub open spec fn pieces_from(text: Seq<char>, from: int, pred: spec_fn(char) -> bool) -> (
    Seq<Seq<char>>,
    Seq<Seq<char>>,
)
    decreases text.len() - from,
{
    let part_end = run_end(text, from, pred, true);
    let separator_end = run_end(text, part_end, pred, false);
    if from < 0 || from >= text.len() {
        (Seq::empty(), Seq::empty())
    } else if part_end >= text.len() || separator_end <= from || separator_end > text.len() {
        (seq![text.subrange(from, text.len() as int)], Seq::empty())
    } else {
        let (parts, separators) = pieces_from(text, separator_end, pred);
        (
            seq![text.subrange(from, part_end)] + parts,
            seq![text.subrange(part_end, separator_end)] + separators,
        )
    }
}

/// The text taken apart by `pred`: the prefix is the longest run of refused
/// characters at the start; parts and separators follow in turn.
pub open spec fn separation_of(text: Seq<char>, pred: spec_fn(char) -> bool) -> SeparationView {
    let prefix_end = run_end(text, 0, pred, false);
    SeparationView {
        prefix: text.subrange(0, prefix_end),
        parts: pieces_from(text, prefix_end, pred).0,
        separators: pieces_from(text, prefix_end, pred).1,
    }
}

/// Where a phrase stands in the parts: the first and the last part that it
/// touches, where it begins in the first and where it ends in the last.
pub struct ProseLocation {
    pub first_part: int,
    pub last_part: int,
    pub begin: int,
    pub end: int,
}

/// The words of a phrase, in lowercase: its pieces between spaces.
pub open spec fn prose_words(prose: Seq<char>) -> Seq<Seq<char>> {
    split_on(lower(prose), ' ')
}

/// A phrase in lowercase and without its spaces.
pub open spec fn prose_squeezed(prose: Seq<char>) -> Seq<char> {
    without_char(lower(prose), ' ')
}

/// The words between the first and the last are, in lowercase, the parts
/// after part `i`, one by one.
pub open spec fn middle_matches(parts: Seq<Seq<char>>, words: Seq<Seq<char>>, i: int) -> bool {
    forall|j: int| 1 <= j < words.len() - 1 ==> lower(#[trigger] parts[i + j]) == words[j]
}

/// The phrase spans the parts from `i` on: part `i` ends with the first
/// word, the parts after it are the words between, and the part of the last
/// word begins with it.
pub open spec fn spans_from(parts: Seq<Seq<char>>, prose: Seq<char>, i: int) -> bool {
    let words = prose_words(prose);
    &&& words.len() >= 2
    &&& words.len() + i <= parts.len()
    &&& ends_with(lower(parts[i]), words[0])
    &&& middle_matches(parts, words, i)
    &&& starts_with(lower(parts[i + words.len() - 1]), words.last())
}

/// Where the phrase stands if it begins in part `i`: inside the part, at
/// its first occurrence there without regard to case; otherwise across the
/// parts from `i` on.
pub open spec fn match_at(parts: Seq<Seq<char>>, prose: Seq<char>, i: int) -> Option<
    ProseLocation,
> {
    match find_first(lower(parts[i]), prose_squeezed(prose)) {
        Some(begin) => Some(
            ProseLocation {
                first_part: i,
                last_part: i,
                begin,
                end: begin + prose_squeezed(prose).len(),
            },
        ),
        None => if spans_from(parts, prose, i) {
            Some(
                ProseLocation {
                    first_part: i,
                    last_part: i + prose_words(prose).len() - 1,
                    begin: parts[i].len() - prose_words(prose)[0].len(),
                    end: prose_words(prose).last().len() as int,
                },
            )
        } else {
            None
        },
    }
}

/// Where the phrase stands: the match at the first part, from `from` on,
/// that has one.
pub open spec fn first_match(parts: Seq<Seq<char>>, prose: Seq<char>, from: int) -> Option<
    ProseLocation,
>
    decreases parts.len() - from,
{
    if from < 0 || from >= parts.len() {
        None
    } else {
        match match_at(parts, prose, from) {
            Some(location) => Some(location),
            None => first_match(parts, prose, from + 1),
        }
    }
}

/// The location lies within the parts.
pub open spec fn location_fits(parts: Seq<Seq<char>>, l: ProseLocation) -> bool {
    &&& 0 <= l.first_part <= l.last_part < parts.len()
    &&& 0 <= l.begin <= parts[l.first_part].len()
    &&& 0 <= l.end <= parts[l.last_part].len()
    &&& l.first_part == l.last_part ==> l.begin <= l.end
}

/// The separators from `from` up to `to` are all the same.
pub open spec fn separators_agree(separators: Seq<Seq<char>>, from: int, to: int) -> bool {
    forall|i: int, j: int| from <= i < to && from <= j < to ==> separators[i] == separators[j]
}

/// What an analyzer holds: the text taken apart, the phrase that was looked
/// for last, and where it was found.
pub struct AnalyzerView {
    pub separation: SeparationView,
    pub prose: Seq<char>,
    pub location: Option<ProseLocation>,
}

/// The text before the phrase.
pub open spec fn text_before(v: AnalyzerView) -> Seq<char> {
    let l = v.location->0;
    v.separation.prefix + stretch(v.separation, 0, l.first_part) + v.separation.parts[l.first_part].subrange(
        0,
        l.begin,
    )
}

/// The text after the phrase.
pub open spec fn text_after(v: AnalyzerView) -> Seq<char> {
    let l = v.location->0;
    let part = v.separation.parts[l.last_part];
    part.subrange(l.end, part.len() as int) + separator_after(v.separation, l.last_part) + stretch(
        v.separation,
        l.last_part + 1,
        v.separation.parts.len() as int,
    )
}

/// The phrase as the text has it, with the separators between its words.
pub open spec fn matched_text(v: AnalyzerView) -> Seq<char> {
    let l = v.location->0;
    let first = v.separation.parts[l.first_part];
    if l.first_part == l.last_part {
        first.subrange(l.begin, l.end)
    } else {
        first.subrange(l.begin, first.len() as int) + separator_after(v.separation, l.first_part)
            + stretch(v.separation, l.first_part + 1, l.last_part) + v.separation.parts[l.last_part].subrange(
            0,
            l.end,
        )
    }
}

/// The separator after the first word of the phrase; nothing where the
/// phrase stands inside one part.
pub open spec fn first_prose_separator(v: AnalyzerView) -> Seq<char> {
    let l = v.location->0;
    if l.first_part < v.separation.separators.len() && l.first_part != l.last_part {
        v.separation.separators[l.first_part]
    } else {
        Seq::empty()
    }
}

/// The lengths of the texts, added up.
pub open spec fn total_length(items: Seq<Seq<char>>) -> nat
    decreases items.len(),
{
    if items.len() == 0 {
        0
    } else {
        total_length(items.drop_last()) + items.last().len()
    }
}

/// `text` cut into consecutive pieces as long as the `words` are.
pub open spec fn cut_like(text: Seq<char>, words: Seq<Seq<char>>) -> Seq<Seq<char>>
    decreases words.len(),
{
    if words.len() == 0 {
        Seq::empty()
    } else {
        cut_like(text, words.drop_last()).push(
            text.subrange(total_length(words.drop_last()) as int, total_length(words) as int),
        )
    }
}

/// The words of the phrase as the text has them, in the text's own case.
/// Inside one part, the matched stretch is cut into pieces as long as the
/// phrase's words; across parts, the words are the end of the first part,
/// the parts between, and the start of the last part.
pub open spec fn prose_portion(v: AnalyzerView) -> Seq<Seq<char>> {
    let l = v.location->0;
    let parts = v.separation.parts;
    if l.first_part == l.last_part {
        cut_like(parts[l.first_part].subrange(l.begin, l.end), prose_words(v.prose))
    } else {
        seq![parts[l.first_part].subrange(l.begin, parts[l.first_part].len() as int)]
            + parts.subrange(l.first_part + 1, l.last_part) + seq![
            parts[l.last_part].subrange(0, l.end),
        ]
    }
}

/// Every character of the word is in lowercase.
pub open spec fn all_lowercase(w: Seq<char>) -> bool {
    forall|k: int| 0 <= k < w.len() ==> char_is_lowercase(#[trigger] w[k])
}

/// Every character of the word is in uppercase.
pub open spec fn all_uppercase(w: Seq<char>) -> bool {
    forall|k: int| 0 <= k < w.len() ==> char_is_uppercase(#[trigger] w[k])
}

/// How a word is written: `lower`, `upper` or `capitalized`; `None` where it
/// is written in none of these ways.
pub open spec fn word_case(w: Seq<char>) -> Option<Seq<char>> {
    if all_lowercase(w) {
        Some("lower"@)
    } else if all_uppercase(w) {
        Some("upper"@)
    } else if w.len() > 0 && char_is_uppercase(w[0]) && all_lowercase(w.subrange(1, w.len() as int)) {
        Some("capitalized"@)
    } else {
        None
    }
}

/// The cases of the words that have one, in order.
pub open spec fn word_cases(words: Seq<Seq<char>>) -> Seq<Seq<char>>
    decreases words.len(),
{
    if words.len() == 0 {
        Seq::empty()
    } else {
        match word_case(words.last()) {
            Some(case) => word_cases(words.drop_last()).push(case),
            None => word_cases(words.drop_last()),
        }
    }
}

/// The cases without the repetitions at their end: of the last case and
/// the equal ones directly before it, one is kept.
pub open spec fn simplified_cases(cases: Seq<Seq<char>>) -> Seq<Seq<char>>
    decreases cases.len(),
{
    if cases.len() <= 1 {
        cases
    } else if cases[cases.len() - 2] == cases.last() {
        simplified_cases(cases.drop_last())
    } else {
        cases
    }
}

/// Every word of the phrase, as the text has it, is written in one of the
/// three ways.
pub open spec fn valid_case(v: AnalyzerView) -> bool {
    forall|k: int| 0 <= k < prose_portion(v).len() ==> word_case(#[trigger] prose_portion(v)[k]) is Some
}

/// How the phrase is written in the text: the simplified cases of its
/// words, with a space between one and the next.
pub open spec fn case_string(v: AnalyzerView) -> Seq<char> {
    joined(simplified_cases(word_cases(prose_portion(v))), " "@)
}

/// The predicate that a filter computes.
pub open spec fn filter_predicate<F: Fn(char) -> bool>(filter: F) -> spec_fn(char) -> bool {
    |c: char| call_ensures(filter, (c,), true)
}

/// The filter can be asked of every character, and answers each in one way.
pub open spec fn is_predicate<F: Fn(char) -> bool>(filter: F) -> bool {
    &&& forall|c: char| call_requires(filter, (c,))
    &&& forall|c: char| !(call_ensures(filter, (c,), true) && call_ensures(filter, (c,), false))
}

/// The filter can be asked of every character, and what it answers is
/// what `pred` says.
pub open spec fn computes<F: Fn(char) -> bool>(filter: F, pred: spec_fn(char) -> bool) -> bool {
    &&& forall|c: char| call_requires(filter, (c,))
    &&& forall|c: char, r: bool| call_ensures(filter, (c,), r) ==> r == pred(c)
}

/// The end of the longest run of characters from `from` on that the filter
/// answers with `accepted`.
fn scan_run<F: Fn(char) -> bool>(
    text: &Vec<char>,
    from: usize,
    filter: &F,
    accepted: bool,
    Ghost(pred): Ghost<spec_fn(char) -> bool>,
) -> (to: usize)
    requires
        from <= text.len(),
        computes(*filter, pred),
    ensures
        from <= to <= text.len(),
        all_chars(text@.subrange(from as int, to as int), pred, accepted),
        to < text.len() ==> pred(text@[to as int]) != accepted,
        to == run_end(text@, from as int, pred, accepted),
        forall|k: int|
            from <= k < to ==> call_ensures(*filter, (#[trigger] text@[k],), pred(text@[k])),
        to < text.len() ==> call_ensures(*filter, (text@[to as int],), pred(text@[to as int])),
{
    let mut to: usize = from;
    while to < text.len()
        invariant
            from <= to <= text.len(),
            computes(*filter, pred),
            forall|k: int|
                from <= k < to ==> call_ensures(*filter, (#[trigger] text@[k],), pred(text@[k])),
            all_chars(text@.subrange(from as int, to as int), pred, accepted),
            run_end(text@, from as int, pred, accepted) == run_end(text@, to as int, pred, accepted),
        decreases text.len() - to,
    {
        let answer = filter(text[to]);
        if answer != accepted {
            return to;
        }
        assert forall|k: int| 0 <= k < to + 1 - from implies #[trigger] pred(
            text@.subrange(from as int, to + 1)[k],
        ) == accepted by {
            if k < to - from {
                assert(text@.subrange(from as int, to + 1)[k] == text@.subrange(
                    from as int,
                    to as int,
                )[k]);
            }
        }
        to += 1;
    }
    to
}

/// A stretch depends only on the parts and separators that it spans.
pub proof fn lemma_stretch_agrees(v: SeparationView, w: SeparationView, from: int, to: int)
    requires
        0 <= from,
        forall|k: int| from <= k < to ==> v.parts[k] == w.parts[k],
        forall|k: int| from <= k < to ==> separator_after(v, k) == separator_after(w, k),
    ensures
        stretch(v, from, to) == stretch(w, from, to),
    decreases to - from,
{
    if to > from {
        lemma_stretch_agrees(v, w, from, to - 1);
    }
}

/// A stretch is what its two halves are, one after the other.
pub proof fn lemma_stretch_splits(v: SeparationView, from: int, middle: int, to: int)
    requires
        from <= middle <= to,
    ensures
        stretch(v, from, to) == stretch(v, from, middle) + stretch(v, middle, to),
    decreases to - middle,
{
    if to > middle {
        lemma_stretch_splits(v, from, middle, to - 1);
        assert(stretch(v, from, to) == stretch(v, from, middle) + (stretch(v, middle, to - 1)
            + v.parts[to - 1] + separator_after(v, to - 1)));
    } else {
        assert(stretch(v, from, to) == stretch(v, from, middle) + Seq::<char>::empty());
    }
}

/// The views of the strings, in order.
pub open spec fn texts_view(items: Seq<String>) -> Seq<Seq<char>> {
    items.map_values(|s: String| s@)
}

/// A text taken apart into parts and separators.
pub struct TextSeparation {
    separated_parts: Vec<String>,
    separators: Vec<String>,
    text_prefix: String,
}

impl View for TextSeparation {
    type V = SeparationView;

    closed spec fn view(&self) -> SeparationView {
        SeparationView {
            prefix: self.text_prefix@,
            parts: texts_view(self.separated_parts@),
            separators: texts_view(self.separators@),
        }
    }
}

impl TextSeparation {
    #[verifier::type_invariant]
    spec fn shaped(self) -> bool {
        self.separated_parts.len() == self.separators.len() || self.separated_parts.len()
            == self.separators.len() + 1
    }

    /// Takes `string` apart: the parts are the longest runs of characters
    /// that the filter accepts.
    pub fn new<F: Fn(char) -> bool>(string: &str, character_filter: F) -> (r: Self)
        requires
            is_predicate(character_filter),
        ensures
            r@ == separation_of(string@, filter_predicate(character_filter)),
            is_separation_of(r@, string@, filter_predicate(character_filter)),
            forall|pred: spec_fn(char) -> bool| #[trigger]
                computes(character_filter, pred) ==> r@ == separation_of(string@, pred)
                    && is_separation_of(r@, string@, pred),
    {
        let ghost first = filter_predicate(character_filter);
        let r = TextSeparation::separate(string, character_filter, Ghost(first));
        proof {
            assert forall|pred: spec_fn(char) -> bool| #[trigger]
                computes(character_filter, pred) implies r@ == separation_of(string@, pred)
                && is_separation_of(r@, string@, pred) by {
                assert forall|k: int| 0 <= k < string@.len() implies first(#[trigger] string@[k])
                    == pred(string@[k]) by {
                    assert(call_ensures(character_filter, (string@[k],), first(string@[k])));
                }
                lemma_separation_agrees(string@, first, pred);
                lemma_separation_is_sound(string@, pred);
            }
        }
        r
    }

    /// Takes `string` apart by letters.
    pub fn new_from_text(string: &str) -> (r: Self)
        ensures
            r@ == separation_of(string@, alphabetic()),
            is_separation_of(r@, string@, alphabetic()),
    {
        TextSeparation::separate(string, is_character_alpha, Ghost(alphabetic()))
    }

    fn separate<F: Fn(char) -> bool>(
        string: &str,
        character_filter: F,
        Ghost(pred): Ghost<spec_fn(char) -> bool>,
    ) -> (r: Self)
        requires
            computes(character_filter, pred),
        ensures
            r@ == separation_of(string@, pred),
            is_separation_of(r@, string@, pred),
            forall|k: int|
                0 <= k < string@.len() ==> call_ensures(
                    character_filter,
                    (#[trigger] string@[k],),
                    pred(string@[k]),
                ),
    {
        let text = chars_of(string);
        let n = text.len();
        let prefix_end = scan_run(&text, 0, &character_filter, false, Ghost(pred));
        let ghost all_pieces = pieces_from(text@, prefix_end as int, pred);
        let prefix = slice_chars(&text, 0, prefix_end);
        let mut parts: Vec<String> = Vec::new();
        let mut separators: Vec<String> = Vec::new();
        let mut i: usize = prefix_end;
        let ghost mut now = SeparationView {
            prefix: prefix@,
            parts: texts_view(parts@),
            separators: texts_view(separators@),
        };
        assert(now.parts + all_pieces.0 =~= all_pieces.0);
        assert(now.separators + all_pieces.1 =~= all_pieces.1);
        assert(stretch(now, 0, 0) == Seq::<char>::empty());
        assert(text@.subrange(0, i as int) == now.prefix + stretch(now, 0, 0));
        loop
            invariant_except_break
                parts.len() == separators.len(),
                all_pieces == (
                    now.parts + pieces_from(text@, i as int, pred).0,
                    now.separators + pieces_from(text@, i as int, pred).1,
                ),
                text@.subrange(0, i as int) == now.prefix + stretch(now, 0, now.parts.len() as int),
                forall|k: int| 0 <= k < now.parts.len() ==> (#[trigger] now.parts[k]).len() > 0,
            invariant
                n == text.len(),
                text@ == string@,
                computes(character_filter, pred),
                i <= n,
                i < n ==> pred(text@[i as int]),
                forall|k: int|
                    0 <= k < i ==> call_ensures(
                        character_filter,
                        (#[trigger] text@[k],),
                        pred(text@[k]),
                    ),
                now == (SeparationView {
                    prefix: prefix@,
                    parts: texts_view(parts@),
                    separators: texts_view(separators@),
                }),
                all_chars(now.prefix, pred, false),
                forall|k: int|
                    0 <= k < now.parts.len() ==> all_chars(#[trigger] now.parts[k], pred, true),
                forall|k: int|
                    0 <= k < now.separators.len() ==> all_chars(
                        #[trigger] now.separators[k],
                        pred,
                        false,
                    ) && now.separators[k].len() > 0,
            ensures
                is_separation_of(now, text@, pred),
                all_pieces == (now.parts, now.separators),
                forall|k: int|
                    0 <= k < n ==> call_ensures(
                        character_filter,
                        (#[trigger] text@[k],),
                        pred(text@[k]),
                    ),
            decreases n - i,
        {
            let ghost before = now;
            if i == n {
                proof {
                    assert(before.parts + Seq::<Seq<char>>::empty() == before.parts);
                    assert(before.separators + Seq::<Seq<char>>::empty() == before.separators);
                    assert(text@.subrange(0, n as int) == text@);
                }
                break;
            }
            let part_end = scan_run(&text, i, &character_filter, true, Ghost(pred));
            let part = slice_chars(&text, i, part_end);
            parts.push(string_of(&part));
            let ghost with_part = SeparationView {
                prefix: prefix@,
                parts: texts_view(parts@),
                separators: texts_view(separators@),
            };
            proof {
                now = with_part;
                let m = before.parts.len() as int;
                assert(with_part.parts == before.parts.push(part@));
                assert(with_part.separators == before.separators);
                lemma_stretch_agrees(before, with_part, 0, m);
                assert(separator_after(with_part, m) == Seq::<char>::empty());
                assert(stretch(with_part, 0, m + 1) == stretch(with_part, 0, m) + part@
                    + Seq::<char>::empty());
                assert(text@.subrange(0, part_end as int) == text@.subrange(0, i as int)
                    + text@.subrange(i as int, part_end as int));
                assert forall|k: int| 0 <= k < with_part.parts.len() implies all_chars(
                    #[trigger] with_part.parts[k],
                    pred,
                    true,
                ) by {
                    if k < m {
                        assert(with_part.parts[k] == before.parts[k]);
                    }
                }
            }
            if part_end == n {
                proof {
                    assert(pieces_from(text@, i as int, pred) == (
                        seq![text@.subrange(i as int, n as int)],
                        Seq::<Seq<char>>::empty(),
                    ));
                    assert(before.separators + Seq::<Seq<char>>::empty() == before.separators);
                    assert(before.parts + seq![part@] == before.parts.push(part@));
                    assert(text@.subrange(0, n as int) == text@);
                    assert(part_end > i);
                    assert forall|k: int| 0 <= k < with_part.parts.len() implies (
                    #[trigger] with_part.parts[k]).len() > 0 by {
                        if k < before.parts.len() {
                            assert(with_part.parts[k] == before.parts[k]);
                        }
                    }
                    assert(with_part.prefix == before.prefix);
                    assert(well_shaped(with_part));
                    assert(text@.subrange(0, i as int) == before.prefix + stretch(
                        before,
                        0,
                        before.parts.len() as int,
                    ));
                    assert(assembled(with_part) == text@);
                }
                break;
            }
            let separator_end = scan_run(&text, part_end, &character_filter, false, Ghost(pred));
            let separator = slice_chars(&text, part_end, separator_end);
            separators.push(string_of(&separator));
            proof {
                let m = before.parts.len() as int;
                let after = SeparationView {
                    prefix: prefix@,
                    parts: texts_view(parts@),
                    separators: texts_view(separators@),
                };
                now = after;
                assert(after.parts == with_part.parts);
                assert(after.separators == before.separators.push(separator@));
                assert(separator_end > i) by {
                    if separator_end == part_end {
                        assert(pred(text@[part_end as int]) != false);
                    }
                }
                let rest = pieces_from(text@, separator_end as int, pred);
                assert(pieces_from(text@, i as int, pred) == (
                    seq![part@] + rest.0,
                    seq![separator@] + rest.1,
                ));
                assert(before.parts + (seq![part@] + rest.0) =~= before.parts.push(part@) + rest.0);
                assert(before.separators + (seq![separator@] + rest.1) =~= before.separators.push(
                    separator@,
                ) + rest.1);
                lemma_stretch_agrees(with_part, after, 0, m);
                assert(separator_after(after, m) == separator@);
                assert(stretch(after, 0, m + 1) == stretch(after, 0, m) + part@ + separator@);
                assert(text@.subrange(0, separator_end as int) == text@.subrange(
                    0,
                    part_end as int,
                ) + text@.subrange(part_end as int, separator_end as int));
                assert(part_end > i);
                assert(separator_end > part_end) by {
                    if separator_end == part_end {
                        assert(pred(text@[part_end as int]) != false);
                    }
                }
                assert forall|k: int| 0 <= k < after.parts.len() implies (
                #[trigger] after.parts[k]).len() > 0 by {
                    if k < m {
                        assert(after.parts[k] == before.parts[k]);
                    }
                }
                assert forall|k: int| 0 <= k < after.separators.len() implies all_chars(
                    #[trigger] after.separators[k],
                    pred,
                    false,
                ) && after.separators[k].len() > 0 by {
                    if k < m {
                        assert(after.separators[k] == before.separators[k]);
                    }
                }
            }
            i = separator_end;
        }
        assert(parts.len() == separators.len() || parts.len() == separators.len() + 1) by {
            assert(well_shaped(now));
        }
        assert(now == separation_of(text@, pred));
        TextSeparation { separated_parts: parts, separators, text_prefix: string_of(&prefix) }
    }

    /// The parts, in order.
    pub fn get_separated_parts(&self) -> (r: &Vec<String>)
        ensures
            texts_view(r@) == self@.parts,
            well_shaped(self@),
    {
        proof {
            use_type_invariant(self);
        }
        &self.separated_parts
    }

    /// The separators, in order.
    pub fn get_separators(&self) -> (r: &Vec<String>)
        ensures
            texts_view(r@) == self@.separators,
            well_shaped(self@),
    {
        proof {
            use_type_invariant(self);
        }
        &self.separators
    }

    /// What stands before the first part.
    pub fn get_prefix(&self) -> (r: &String)
        ensures
            r@ == self@.prefix,
    {
        &self.text_prefix
    }
}

/// The pieces of a text between the characters equal to `sep` are as long,
/// taken together, as the text without those characters.
pub proof fn lemma_split_length(s: Seq<char>, sep: char)
    ensures
        total_length(split_on(s, sep)) == without_char(s, sep).len(),
        split_on(s, sep).len() >= 1,
    decreases s.len(),
{
    reveal(Seq::filter);
    if s.len() == 0 {
        let pieces = split_on(s, sep);
        assert(pieces.drop_last() =~= Seq::<Seq<char>>::empty());
        assert(total_length(pieces.drop_last()) == 0);
    } else {
        lemma_split_length(s.drop_last(), sep);
        let before = split_on(s.drop_last(), sep);
        let pieces = split_on(s, sep);
        if s.last() == sep {
            assert(pieces.drop_last() =~= before);
        } else {
            assert(pieces.drop_last() =~= before.drop_last());
        }
    }
}

/// The first texts of a sequence are no longer, taken together, than all of
/// them.
pub proof fn lemma_total_length_grows(items: Seq<Seq<char>>, k: int)
    requires
        0 <= k <= items.len(),
    ensures
        total_length(items.subrange(0, k)) <= total_length(items),
    decreases items.len() - k,
{
    if k < items.len() {
        lemma_total_length_grows(items, k + 1);
        assert(items.subrange(0, k + 1).drop_last() == items.subrange(0, k));
    } else {
        assert(items.subrange(0, k) == items);
    }
}

/// A match lies within the parts, and a match inside one part is as long
/// as the phrase's words taken together.
pub proof fn lemma_match_fits(parts: Seq<Seq<char>>, prose: Seq<char>, i: int)
    requires
        0 <= i < parts.len(),
    ensures
        match match_at(parts, prose, i) {
            Some(l) => location_fits(parts, l) && l.first_part == i && (l.first_part == l.last_part
                ==> l.end - l.begin == total_length(prose_words(prose))),
            None => true,
        },
{
    lemma_split_length(lower(prose), ' ');
    lemma_find_from(lower(parts[i]), prose_squeezed(prose), 0);
}

/// The first match lies within the parts.
pub proof fn lemma_first_match_fits(parts: Seq<Seq<char>>, prose: Seq<char>, from: int)
    requires
        0 <= from,
    ensures
        match first_match(parts, prose, from) {
            Some(l) => location_fits(parts, l) && (l.first_part == l.last_part ==> l.end - l.begin
                == total_length(prose_words(prose))),
            None => true,
        },
    decreases parts.len() - from,
{
    if from < parts.len() {
        lemma_match_fits(parts, prose, from);
        if match_at(parts, prose, from) is None {
            lemma_first_match_fits(parts, prose, from + 1);
        }
    }
}

#[derive(Clone, Copy)]
struct FoundProse {
    first_part: usize,
    last_part: usize,
    begin: usize,
    end: usize,
}

impl View for FoundProse {
    type V = ProseLocation;

    closed spec fn view(&self) -> ProseLocation {
        ProseLocation {
            first_part: self.first_part as int,
            last_part: self.last_part as int,
            begin: self.begin as int,
            end: self.end as int,
        }
    }
}

/// The part in lowercase.
fn lowercase_part(parts: &Vec<String>, index: usize) -> (r: Vec<char>)
    requires
        index < parts.len(),
    ensures
        r@ == lower(texts_view(parts@)[index as int]),
{
    lowercase(&chars_of(parts[index].as_str()))
}

/// Looks for the phrase at part `index`.
fn search_for_prose_at_separated_part_index(
    parts: &Vec<String>,
    squeezed: &Vec<char>,
    words: &Vec<Vec<char>>,
    index: usize,
    Ghost(prose): Ghost<Seq<char>>,
) -> (r: Option<FoundProse>)
    requires
        index < parts.len(),
        squeezed@ == prose_squeezed(prose),
        words@.map_values(|w: Vec<char>| w@) == prose_words(prose),
    ensures
        match r {
            Some(l) => match_at(texts_view(parts@), prose, index as int) == Some(l@),
            None => match_at(texts_view(parts@), prose, index as int) is None,
        },
{
    let ghost all_parts = texts_view(parts@);
    let ghost all_words = prose_words(prose);
    assert(all_words.len() == words.len());
    let part = lowercase_part(parts, index);
    match find_text(&part, squeezed) {
        Some(begin) => {
            proof {
                lemma_find_from(part@, squeezed@, 0);
                assert(crate::text::occurs_at(part@, squeezed@, begin as int));
            }
            assert(begin + squeezed.len() <= part.len());
            let end: usize = begin + squeezed.len();
            return Some(FoundProse { first_part: index, last_part: index, begin, end });
        },
        None => {},
    }
    if words.len() < 2 || words.len() > parts.len() - index {
        return None;
    }
    let first_word = &words[0];
    assert(first_word@ == all_words[0]);
    if !has_suffix(&part, first_word) {
        return None;
    }
    let mut j: usize = 1;
    while j < words.len() - 1
        invariant
            1 <= j <= words.len() - 1,
            words.len() + index <= parts.len(),
            all_parts == texts_view(parts@),
            all_words == words@.map_values(|w: Vec<char>| w@),
            all_words == prose_words(prose),
            find_first(lower(all_parts[index as int]), prose_squeezed(prose)) is None,
            forall|k: int| 1 <= k < j ==> lower(#[trigger] all_parts[index + k]) == all_words[k],
        decreases words.len() - j,
    {
        let candidate = lowercase_part(parts, index + j);
        if !chars_equal(&candidate, &words[j]) {
            assert(lower(all_parts[index + j]) != all_words[j as int]);
            return None;
        }
        j += 1;
    }
    let last_index = index + (words.len() - 1);
    let last_part = lowercase_part(parts, last_index);
    let last_word = &words[words.len() - 1];
    assert(last_word@ == all_words.last());
    if has_prefix(&last_part, last_word) {
        assert(spans_from(all_parts, prose, index as int));
        Some(
            FoundProse {
                first_part: index,
                last_part: last_index,
                begin: part.len() - first_word.len(),
                end: last_word.len(),
            },
        )
    } else {
        None
    }
}

/// A text taken apart, and the place of the phrase that was looked for in
/// it last.
pub struct TextSeparationAnalyzer {
    text_separation: TextSeparation,
    found: Option<FoundProse>,
    prose: String,
}

impl View for TextSeparationAnalyzer {
    type V = AnalyzerView;

    closed spec fn view(&self) -> AnalyzerView {
        AnalyzerView {
            separation: self.text_separation@,
            prose: self.prose@,
            location: match self.found {
                Some(l) => Some(l@),
                None => None,
            },
        }
    }
}

/// The analyzer's parts have one separator less than they are, and what
/// was found lies within them.
pub open spec fn analyzer_fits(v: AnalyzerView) -> bool {
    &&& well_shaped(v.separation)
    &&& match v.location {
        Some(l) => location_fits(v.separation.parts, l) && (l.first_part == l.last_part ==> l.end
            - l.begin == total_length(prose_words(v.prose))),
        None => true,
    }
}

impl TextSeparationAnalyzer {
    #[verifier::type_invariant]
    spec fn fits(self) -> bool {
        analyzer_fits(self@)
    }

    /// The analyzer of `text`, whose parts are its runs of letters.
    pub fn new_from_text(text: &str) -> (r: Self)
        ensures
            r@.separation == separation_of(text@, alphabetic()),
            is_separation_of(r@.separation, text@, alphabetic()),
            r@.location is None,
            r@.prose == Seq::<char>::empty(),
    {
        TextSeparationAnalyzer {
            text_separation: TextSeparation::new_from_text(text),
            found: None,
            prose: String::new(),
        }
    }

    /// The analyzer of `text`, whose parts are the runs of characters that
    /// the filter accepts.
    pub fn new<F: Fn(char) -> bool>(text: &str, character_filter: F) -> (r: Self)
        requires
            is_predicate(character_filter),
        ensures
            r@.separation == separation_of(text@, filter_predicate(character_filter)),
            is_separation_of(r@.separation, text@, filter_predicate(character_filter)),
            forall|pred: spec_fn(char) -> bool| #[trigger]
                computes(character_filter, pred) ==> r@.separation == separation_of(text@, pred)
                    && is_separation_of(r@.separation, text@, pred),
            r@.location is None,
            r@.prose == Seq::<char>::empty(),
    {
        TextSeparationAnalyzer {
            text_separation: TextSeparation::new(text, character_filter),
            found: None,
            prose: String::new(),
        }
    }

    /// Looks for the phrase in the parts, from the first part on, and
    /// remembers where it stands.
    pub fn search_for_prose_in_separated_part(&mut self, prose: &str)
        ensures
            final(self)@ == (AnalyzerView {
                separation: old(self)@.separation,
                prose: prose@,
                location: first_match(old(self)@.separation.parts, prose@, 0),
            }),
            analyzer_fits(final(self)@),
    {
        proof {
            use_type_invariant(&*self);
            use_type_invariant(&self.text_separation);
        }
        self.found = None;
        self.prose = String::from_str(prose);
        let lowercase_prose = lowercase(&chars_of(prose));
        let squeezed = remove_char(&lowercase_prose, ' ');
        let words = split_chars(&lowercase_prose, ' ');
        let ghost all_parts = self@.separation.parts;
        let mut index: usize = 0;
        let mut found: Option<FoundProse> = None;
        while index < self.text_separation.separated_parts.len()
            invariant_except_break
                found is None,
                first_match(all_parts, prose@, 0) == first_match(all_parts, prose@, index as int),
            invariant
                index <= self.text_separation.separated_parts.len(),
                all_parts == texts_view(self.text_separation.separated_parts@),
                squeezed@ == prose_squeezed(prose@),
                words@.map_values(|w: Vec<char>| w@) == prose_words(prose@),
            ensures
                match found {
                    Some(l) => first_match(all_parts, prose@, 0) == Some(l@),
                    None => first_match(all_parts, prose@, 0) is None,
                },
            decreases self.text_separation.separated_parts.len() - index,
        {
            let attempt = search_for_prose_at_separated_part_index(
                &self.text_separation.separated_parts,
                &squeezed,
                &words,
                index,
                Ghost(prose@),
            );
            if attempt.is_some() {
                found = attempt;
                break;
            }
            index += 1;
        }
        proof {
            lemma_first_match_fits(all_parts, prose@, 0);
        }
        self.found = found;
    }

    /// The part in which the phrase begins.
    pub fn get_prose_index(&self) -> (r: Option<usize>)
        ensures
            match r {
                Some(i) => self@.location is Some && self@.location->0.first_part == i,
                None => self@.location is None,
            },
    {
        match self.found {
            Some(l) => Some(l.first_part),
            None => None,
        }
    }

    /// Where the phrase begins in its first part.
    pub fn get_prose_beginning_index(&self) -> (r: Option<usize>)
        ensures
            match r {
                Some(i) => self@.location is Some && self@.location->0.begin == i,
                None => self@.location is None,
            },
    {
        match self.found {
            Some(l) => Some(l.begin),
            None => None,
        }
    }

    /// Where the phrase ends in its last part.
    pub fn get_prose_ending_index(&self) -> (r: Option<usize>)
        ensures
            match r {
                Some(i) => self@.location is Some && self@.location->0.end == i,
                None => self@.location is None,
            },
    {
        match self.found {
            Some(l) => Some(l.end),
            None => None,
        }
    }

    /// Whether the separators from `starting_index` up to `ending_index`
    /// are all the same.
    pub fn is_separator_consistent(&self, starting_index: usize, ending_index: usize) -> (r: bool)
        requires
            starting_index <= ending_index <= self@.separation.separators.len(),
        ensures
            r == separators_agree(
                self@.separation.separators,
                starting_index as int,
                ending_index as int,
            ),
    {
        let separators = self.text_separation.get_separators();
        let ghost all = texts_view(separators@);
        if ending_index - starting_index <= 1 {
            return true;
        }
        let mut k: usize = starting_index + 1;
        while k < ending_index
            invariant
                starting_index < k <= ending_index <= separators.len(),
                all == texts_view(separators@),
                all == self@.separation.separators,
                forall|i: int| starting_index <= i < k ==> all[i] == all[starting_index as int],
            decreases ending_index - k,
        {
            if separators[k] != separators[starting_index] {
                assert(all[k as int] != all[starting_index as int]);
                return false;
            }
            k += 1;
        }
        true
    }

    /// Whether all the separators of the text are the same.
    pub fn is_entire_text_separator_consistent(&self) -> (r: bool)
        ensures
            r == separators_agree(
                self@.separation.separators,
                0,
                self@.separation.separators.len() as int,
            ),
    {
        let separators = self.text_separation.get_separators();
        assert(texts_view(separators@).len() == separators.len());
        self.is_separator_consistent(0, separators.len())
    }

    /// Whether the separators between the words of the phrase are all the
    /// same.
    pub fn is_prose_separator_consistent(&self) -> (r: bool)
        requires
            self@.location is Some,
        ensures
            r == separators_agree(
                self@.separation.separators,
                self@.location->0.first_part,
                self@.location->0.last_part,
            ),
    {
        proof {
            use_type_invariant(self);
        }
        match self.found {
            Some(l) => self.is_separator_consistent(l.first_part, l.last_part),
            None => true,
        }
    }

    /// The separator after the first word of the phrase; nothing where the
    /// phrase stands inside one part.
    pub fn get_first_prose_separator(&self) -> (r: String)
        requires
            self@.location is Some,
        ensures
            r@ == first_prose_separator(self@),
    {
        proof {
            use_type_invariant(self);
        }
        let separators = self.text_separation.get_separators();
        match self.found {
            Some(l) => {
                if l.first_part < separators.len() && l.first_part != l.last_part {
                    assert(texts_view(separators@)[l.first_part as int]
                        == separators[l.first_part as int]@);
                    separators[l.first_part].clone()
                } else {
                    String::new()
                }
            },
            None => String::new(),
        }
    }

    fn stretch_chars(&self, from: usize, to: usize) -> (r: Vec<char>)
        requires
            from <= to <= self@.separation.parts.len(),
        ensures
            r@ == stretch(self@.separation, from as int, to as int),
    {
        let parts = self.text_separation.get_separated_parts();
        let separators = self.text_separation.get_separators();
        let ghost v = self@.separation;
        let mut out: Vec<char> = Vec::new();
        let mut k: usize = from;
        while k < to
            invariant
                from <= k <= to <= parts.len(),
                v.parts == texts_view(parts@),
                v.separators == texts_view(separators@),
                out@ == stretch(v, from as int, k as int),
            decreases to - k,
        {
            let part = chars_of(parts[k].as_str());
            append_chars(&mut out, &part);
            if k < separators.len() {
                let separator = chars_of(separators[k].as_str());
                append_chars(&mut out, &separator);
            } else {
                assert(out@ + separator_after(v, k as int) == out@);
            }
            k += 1;
        }
        out
    }

    fn part_chars(&self, index: usize) -> (r: Vec<char>)
        requires
            index < self@.separation.parts.len(),
        ensures
            r@ == self@.separation.parts[index as int],
    {
        let parts = self.text_separation.get_separated_parts();
        chars_of(parts[index].as_str())
    }

    fn separator_chars(&self, index: usize) -> (r: Vec<char>)
        ensures
            r@ == separator_after(self@.separation, index as int),
    {
        let separators = self.text_separation.get_separators();
        if index < separators.len() {
            chars_of(separators[index].as_str())
        } else {
            Vec::new()
        }
    }

    /// The text before the phrase.
    pub fn compute_text_before_prose(&self) -> (r: String)
        requires
            self@.location is Some,
        ensures
            r@ == text_before(self@),
    {
        proof {
            use_type_invariant(self);
        }
        let l = self.found.unwrap();
        let mut text = chars_of(self.text_separation.get_prefix().as_str());
        let leading = self.stretch_chars(0, l.first_part);
        append_chars(&mut text, &leading);
        let part = self.part_chars(l.first_part);
        let head = slice_chars(&part, 0, l.begin);
        append_chars(&mut text, &head);
        string_of(&text)
    }

    /// The text after the phrase.
    pub fn compute_text_after_prose(&self) -> (r: String)
        requires
            self@.location is Some,
        ensures
            r@ == text_after(self@),
    {
        proof {
            use_type_invariant(self);
        }
        let l = self.found.unwrap();
        let part = self.part_chars(l.last_part);
        let mut text = slice_chars(&part, l.end, part.len());
        let separator = self.separator_chars(l.last_part);
        append_chars(&mut text, &separator);
        let parts = self.text_separation.get_separated_parts();
        assert(texts_view(parts@).len() == parts.len());
        let trailing = self.stretch_chars(l.last_part + 1, parts.len());
        append_chars(&mut text, &trailing);
        string_of(&text)
    }

    /// The phrase as the text has it, with the separators between its
    /// words.
    pub fn compute_matched_text(&self) -> (r: String)
        requires
            self@.location is Some,
        ensures
            r@ == matched_text(self@),
    {
        proof {
            use_type_invariant(self);
        }
        let l = self.found.unwrap();
        let first = self.part_chars(l.first_part);
        if l.first_part == l.last_part {
            string_of(&slice_chars(&first, l.begin, l.end))
        } else {
            let mut text = slice_chars(&first, l.begin, first.len());
            let separator = self.separator_chars(l.first_part);
            append_chars(&mut text, &separator);
            let between = self.stretch_chars(l.first_part + 1, l.last_part);
            append_chars(&mut text, &between);
            let last = self.part_chars(l.last_part);
            let tail = slice_chars(&last, 0, l.end);
            append_chars(&mut text, &tail);
            string_of(&text)
        }
    }

    fn portion_chars(&self) -> (r: Vec<Vec<char>>)
        requires
            self@.location is Some,
        ensures
            r@.map_values(|w: Vec<char>| w@) == prose_portion(self@),
    {
        proof {
            use_type_invariant(self);
        }
        let l = self.found.unwrap();
        let first = self.part_chars(l.first_part);
        let mut out: Vec<Vec<char>> = Vec::new();
        if l.first_part == l.last_part {
            let text = slice_chars(&first, l.begin, l.end);
            let words = split_chars(&lowercase(&chars_of(self.prose.as_str())), ' ');
            let ghost all_words = prose_words(self@.prose);
            let mut start: usize = 0;
            let mut j: usize = 0;
            assert(all_words.subrange(0, 0) =~= Seq::<Seq<char>>::empty());
            while j < words.len()
                invariant
                    j <= words.len(),
                    all_words == words@.map_values(|w: Vec<char>| w@),
                    text@.len() == total_length(all_words),
                    start == total_length(all_words.subrange(0, j as int)),
                    out@.map_values(|w: Vec<char>| w@) == cut_like(
                        text@,
                        all_words.subrange(0, j as int),
                    ),
                decreases words.len() - j,
            {
                let ghost before = all_words.subrange(0, j as int);
                let ghost after = all_words.subrange(0, j + 1);
                proof {
                    assert(after.drop_last() == before);
                    assert(after.last() == words[j as int]@);
                    lemma_total_length_grows(all_words, j + 1);
                    assert(total_length(after) == total_length(before) + after.last().len());
                }
                let length = words[j].len();
                assert(length == after.last().len());
                assert(total_length(after) <= total_length(all_words));
                assert(start + length == total_length(after));
                assert(start + length <= text.len());
                let piece = slice_chars(&text, start, start + length);
                let ghost done = out@.map_values(|w: Vec<char>| w@);
                out.push(piece);
                assert(out@.map_values(|w: Vec<char>| w@) == done.push(piece@));
                start = start + length;
                j += 1;
            }
            assert(all_words.subrange(0, words.len() as int) == all_words);
        } else {
            let parts = self.text_separation.get_separated_parts();
            let ghost all_parts = texts_view(parts@);
            let head = slice_chars(&first, l.begin, first.len());
            out.push(head);
            let mut k: usize = l.first_part + 1;
            while k < l.last_part
                invariant
                    l.first_part < k <= l.last_part < parts.len(),
                    all_parts == texts_view(parts@),
                    out@.map_values(|w: Vec<char>| w@) == seq![head@] + all_parts.subrange(
                        l.first_part + 1,
                        k as int,
                    ),
                decreases l.last_part - k,
            {
                let ghost done = out@.map_values(|w: Vec<char>| w@);
                let piece = chars_of(parts[k].as_str());
                out.push(piece);
                assert(out@.map_values(|w: Vec<char>| w@) == done.push(piece@));
                assert(all_parts.subrange(l.first_part + 1, k + 1) == all_parts.subrange(
                    l.first_part + 1,
                    k as int,
                ).push(all_parts[k as int]));
                k += 1;
            }
            let last = self.part_chars(l.last_part);
            let tail = slice_chars(&last, 0, l.end);
            let ghost done = out@.map_values(|w: Vec<char>| w@);
            out.push(tail);
            assert(out@.map_values(|w: Vec<char>| w@) == done.push(tail@));
            assert(done.push(tail@) == done + seq![tail@]);
        }
        out
    }

    /// The words of the phrase as the text has them.
    pub fn compute_prose_portion_of_text(&self) -> (r: Vec<String>)
        requires
            self@.location is Some,
        ensures
            texts_view(r@) == prose_portion(self@),
    {
        let words = self.portion_chars();
        let ghost all = words@.map_values(|w: Vec<char>| w@);
        let mut out: Vec<String> = Vec::new();
        let mut k: usize = 0;
        while k < words.len()
            invariant
                k <= words.len(),
                out.len() == k,
                forall|i: int| 0 <= i < k ==> (#[trigger] out[i])@ == words[i]@,
            decreases words.len() - k,
        {
            out.push(string_of(&words[k]));
            k += 1;
        }
        assert(texts_view(out@) =~= all);
        out
    }

    /// Whether the phrase was found.
    pub fn has_found_prose(&self) -> (r: bool)
        ensures
            r == self@.location is Some,
            analyzer_fits(self@),
    {
        proof {
            use_type_invariant(self);
        }
        self.found.is_some()
    }
}

fn is_all_lowercase(word: &Vec<char>, from: usize) -> (r: bool)
    requires
        from <= word.len(),
    ensures
        r == all_lowercase(word@.subrange(from as int, word.len() as int)),
{
    let ghost rest = word@.subrange(from as int, word.len() as int);
    let mut k: usize = from;
    while k < word.len()
        invariant
            from <= k <= word.len(),
            rest == word@.subrange(from as int, word.len() as int),
            forall|i: int| 0 <= i < k - from ==> char_is_lowercase(#[trigger] rest[i]),
        decreases word.len() - k,
    {
        if !is_lowercase(word[k]) {
            assert(!char_is_lowercase(rest[k - from]));
            return false;
        }
        k += 1;
    }
    true
}

fn is_all_uppercase(word: &Vec<char>) -> (r: bool)
    ensures
        r == all_uppercase(word@),
{
    let mut k: usize = 0;
    while k < word.len()
        invariant
            k <= word.len(),
            forall|i: int| 0 <= i < k ==> char_is_uppercase(#[trigger] word@[i]),
        decreases word.len() - k,
    {
        if !is_uppercase(word[k]) {
            return false;
        }
        k += 1;
    }
    true
}

fn case_chars(word: &Vec<char>) -> (r: Option<Vec<char>>)
    ensures
        match r {
            Some(case) => word_case(word@) == Some(case@),
            None => word_case(word@) is None,
        },
{
    assert(word@.subrange(0, word.len() as int) == word@);
    if is_all_lowercase(word, 0) {
        Some(chars_of("lower"))
    } else if is_all_uppercase(word) {
        Some(chars_of("upper"))
    } else if word.len() > 0 && is_uppercase(word[0]) && is_all_lowercase(word, 1) {
        Some(chars_of("capitalized"))
    } else {
        None
    }
}

/// How a word is written: `lower`, `upper` or `capitalized`, or in none of
/// these ways.
pub fn compute_case(text: &str) -> (r: Option<String>)
    ensures
        match r {
            Some(case) => word_case(text@) == Some(case@),
            None => word_case(text@) is None,
        },
{
    match case_chars(&chars_of(text)) {
        Some(case) => Some(string_of(&case)),
        None => None,
    }
}

/// Whether every word of the phrase that was found is written in one of the
/// three ways.
pub fn has_valid_case(analyzer: &TextSeparationAnalyzer) -> (r: bool)
    requires
        analyzer@.location is Some,
    ensures
        r == valid_case(analyzer@),
{
    let words = analyzer.portion_chars();
    let ghost all = prose_portion(analyzer@);
    let mut k: usize = 0;
    while k < words.len()
        invariant
            k <= words.len(),
            all == words@.map_values(|w: Vec<char>| w@),
            all == prose_portion(analyzer@),
            forall|i: int| 0 <= i < k ==> word_case(#[trigger] all[i]) is Some,
        decreases words.len() - k,
    {
        if case_chars(&words[k]).is_none() {
            assert(word_case(all[k as int]) is None);
            return false;
        }
        k += 1;
    }
    true
}

/// How the phrase that was found is written: the cases of its words, with
/// the repetitions at the end left out and a space between one and the next.
pub fn compute_case_string_for_prose(analyzer: &TextSeparationAnalyzer) -> (r: String)
    requires
        analyzer@.location is Some,
    ensures
        r@ == case_string(analyzer@),
{
    let words = analyzer.portion_chars();
    let ghost all = prose_portion(analyzer@);
    let mut cases: Vec<Vec<char>> = Vec::new();
    let mut k: usize = 0;
    assert(all.subrange(0, 0) =~= Seq::<Seq<char>>::empty());
    while k < words.len()
        invariant
            k <= words.len(),
            all == words@.map_values(|w: Vec<char>| w@),
            cases@.map_values(|w: Vec<char>| w@) == word_cases(all.subrange(0, k as int)),
        decreases words.len() - k,
    {
        assert(all.subrange(0, k + 1).drop_last() == all.subrange(0, k as int));
        assert(all.subrange(0, k + 1).last() == words[k as int]@);
        match case_chars(&words[k]) {
            Some(case) => {
                let ghost done = cases@.map_values(|w: Vec<char>| w@);
                cases.push(case);
                assert(cases@.map_values(|w: Vec<char>| w@) == done.push(case@));
            },
            None => {},
        }
        k += 1;
    }
    assert(all.subrange(0, words.len() as int) == all);
    let ghost all_cases = cases@.map_values(|w: Vec<char>| w@);
    let mut kept: usize = cases.len();
    assert(all_cases.subrange(0, kept as int) == all_cases);
    while kept >= 2 && chars_equal(&cases[kept - 2], &cases[kept - 1])
        invariant
            kept <= cases.len(),
            all_cases == cases@.map_values(|w: Vec<char>| w@),
            simplified_cases(all_cases) == simplified_cases(all_cases.subrange(0, kept as int)),
        decreases kept,
    {
        assert(all_cases.subrange(0, kept as int).drop_last() == all_cases.subrange(0, kept - 1));
        kept -= 1;
    }
    let space = chars_of(" ");
    string_of(&join_chars(&cases, 0, kept, &space))
}

/// A stretch begins with its first part and the separator after it.
pub proof fn lemma_stretch_first(v: SeparationView, from: int, to: int)
    requires
        from < to,
    ensures
        stretch(v, from, to) == v.parts[from] + separator_after(v, from) + stretch(v, from + 1, to),
{
    lemma_stretch_splits(v, from, from + 1, to);
    assert(stretch(v, from, from) == Seq::<char>::empty());
    assert(stretch(v, from, from + 1) == stretch(v, from, from) + v.parts[from] + separator_after(
        v,
        from,
    ));
    assert(stretch(v, from, from + 1) =~= v.parts[from] + separator_after(v, from));
}

/// What stands before the phrase, the phrase as the text has it, and what
/// stands after it make up the text again.
pub proof fn lemma_text_round_trip(v: AnalyzerView)
    requires
        analyzer_fits(v),
        v.location is Some,
    ensures
        text_before(v) + matched_text(v) + text_after(v) == assembled(v.separation),
{
    let l = v.location->0;
    let s = v.separation;
    let n = s.parts.len() as int;
    let first = s.parts[l.first_part];
    let last = s.parts[l.last_part];
    let head = s.prefix + stretch(s, 0, l.first_part);
    let first_left = first.subrange(0, l.begin);
    let tail = separator_after(s, l.last_part) + stretch(s, l.last_part + 1, n);
    let last_right = last.subrange(l.end, last.len() as int);
    // The text is what precedes the first part, the parts that the phrase
    // touches with what lies between them, and what follows the last part.
    let middle = stretch(s, l.first_part, l.last_part) + last;
    assert(assembled(s) == head + middle + tail) by {
        lemma_stretch_splits(s, 0, l.first_part, n);
        lemma_stretch_splits(s, l.first_part, l.last_part, n);
        lemma_stretch_first(s, l.last_part, n);
        let a = stretch(s, 0, l.first_part);
        let b = stretch(s, l.first_part, l.last_part);
        let c = stretch(s, l.last_part + 1, n);
        let sep = separator_after(s, l.last_part);
        assert(stretch(s, 0, n) == a + (b + (last + sep + c)));
        assert(s.prefix + (a + (b + (last + sep + c))) =~= (s.prefix + a) + (b + last) + (sep
            + c));
    }
    assert(text_before(v) == head + first_left);
    assert(text_after(v) =~= last_right + tail);
    assert(first_left + matched_text(v) + last_right == middle) by {
        if l.first_part == l.last_part {
            assert(stretch(s, l.first_part, l.last_part) == Seq::<char>::empty());
            assert(first_left + first.subrange(l.begin, l.end) + last_right =~= first);
            assert(middle =~= first);
        } else {
            lemma_stretch_first(s, l.first_part, l.last_part);
            let first_right = first.subrange(l.begin, first.len() as int);
            let last_left = last.subrange(0, l.end);
            let sep = separator_after(s, l.first_part);
            let between = stretch(s, l.first_part + 1, l.last_part);
            assert(first_left + first_right =~= first);
            assert(last_left + last_right =~= last);
            assert(matched_text(v) == first_right + sep + between + last_left);
            assert(first_left + (first_right + sep + between + last_left) + last_right =~= (
            first_left + first_right) + sep + between + (last_left + last_right));
        }
    }
    let m = matched_text(v);
    assert((head + first_left) + m + (last_right + tail) =~= head + (first_left + m + last_right)
        + tail);
}

/// A run ends at or after its start, and within the text.
pub proof fn lemma_run_end_is_within(
    text: Seq<char>,
    from: int,
    pred: spec_fn(char) -> bool,
    accepted: bool,
)
    requires
        0 <= from <= text.len(),
    ensures
        from <= run_end(text, from, pred, accepted) <= text.len(),
    decreases text.len() - from,
{
    if from < text.len() && pred(text[from]) == accepted {
        lemma_run_end_is_within(text, from + 1, pred, accepted);
    }
}

/// A stretch does not change where the parts and separators before it do.
proof fn lemma_stretch_shifts(v: SeparationView, w: SeparationView, from: int, to: int)
    requires
        0 <= from <= to < v.parts.len(),
        v.parts.len() == w.parts.len() + 1,
        v.separators.len() == w.separators.len() + 1,
        forall|k: int| 0 <= k < w.parts.len() ==> w.parts[k] == v.parts[k + 1],
        forall|k: int| 0 <= k < w.separators.len() ==> w.separators[k] == v.separators[k + 1],
    ensures
        stretch(v, from + 1, to + 1) == stretch(w, from, to),
    decreases to - from,
{
    if to > from {
        lemma_stretch_shifts(v, w, from, to - 1);
        assert(separator_after(v, to) == separator_after(w, to - 1));
    }
}

/// The parts and separators from a place on make up the text from that
/// place on, and there are as many parts as separators, or one more.
proof fn lemma_pieces_assemble(text: Seq<char>, from: int, pred: spec_fn(char) -> bool)
    requires
        0 <= from <= text.len(),
    ensures
        ({
            let pieces = pieces_from(text, from, pred);
            let v = SeparationView {
                prefix: Seq::empty(),
                parts: pieces.0,
                separators: pieces.1,
            };
            well_shaped(v) && stretch(v, 0, v.parts.len() as int) == text.subrange(
                from,
                text.len() as int,
            )
        }),
    decreases text.len() - from,
{
    let pieces = pieces_from(text, from, pred);
    let v = SeparationView { prefix: Seq::empty(), parts: pieces.0, separators: pieces.1 };
    let part_end = run_end(text, from, pred, true);
    lemma_run_end_is_within(text, from, pred, true);
    let separator_end = run_end(text, part_end, pred, false);
    lemma_run_end_is_within(text, part_end, pred, false);
    if from >= text.len() {
        assert(stretch(v, 0, 0) =~= text.subrange(from, text.len() as int));
    } else if part_end >= text.len() || separator_end <= from {
        assert(stretch(v, 0, 0) == Seq::<char>::empty());
        assert(stretch(v, 0, 1) == stretch(v, 0, 0) + v.parts[0] + separator_after(v, 0));
        assert(stretch(v, 0, 1) =~= text.subrange(from, text.len() as int));
    } else {
        lemma_pieces_assemble(text, separator_end, pred);
        let rest = pieces_from(text, separator_end, pred);
        let w = SeparationView { prefix: Seq::empty(), parts: rest.0, separators: rest.1 };
        let part = text.subrange(from, part_end);
        let separator = text.subrange(part_end, separator_end);
        assert(v.parts == seq![part] + w.parts);
        assert(v.separators == seq![separator] + w.separators);
        let n = v.parts.len() as int;
        lemma_stretch_first(v, 0, n);
        lemma_stretch_shifts(v, w, 0, n - 1);
        assert(separator_after(v, 0) == separator);
        assert(stretch(v, 0, n) =~= text.subrange(from, text.len() as int));
    }
}

/// A run ends where two predicates that agree on the text say.
proof fn lemma_run_end_agrees(
    text: Seq<char>,
    from: int,
    p: spec_fn(char) -> bool,
    q: spec_fn(char) -> bool,
    accepted: bool,
)
    requires
        0 <= from,
        forall|k: int| 0 <= k < text.len() ==> p(#[trigger] text[k]) == q(text[k]),
    ensures
        run_end(text, from, p, accepted) == run_end(text, from, q, accepted),
    decreases text.len() - from,
{
    if from < text.len() && p(text[from]) == accepted {
        lemma_run_end_agrees(text, from + 1, p, q, accepted);
    }
}

/// Two predicates that agree on the text give the same parts and
/// separators.
proof fn lemma_pieces_agree(
    text: Seq<char>,
    from: int,
    p: spec_fn(char) -> bool,
    q: spec_fn(char) -> bool,
)
    requires
        0 <= from <= text.len(),
        forall|k: int| 0 <= k < text.len() ==> p(#[trigger] text[k]) == q(text[k]),
    ensures
        pieces_from(text, from, p) == pieces_from(text, from, q),
    decreases text.len() - from,
{
    let part_end = run_end(text, from, p, true);
    lemma_run_end_agrees(text, from, p, q, true);
    lemma_run_end_is_within(text, from, p, true);
    let separator_end = run_end(text, part_end, p, false);
    lemma_run_end_agrees(text, part_end, p, q, false);
    lemma_run_end_is_within(text, part_end, p, false);
    if !(from >= text.len() || part_end >= text.len() || separator_end <= from) {
        lemma_pieces_agree(text, separator_end, p, q);
    }
}

/// Two predicates that say the same of every character of a text take the
/// text apart in the same way.
pub proof fn lemma_separation_agrees(
    text: Seq<char>,
    p: spec_fn(char) -> bool,
    q: spec_fn(char) -> bool,
)
    requires
        forall|k: int| 0 <= k < text.len() ==> p(#[trigger] text[k]) == q(text[k]),
    ensures
        separation_of(text, p) == separation_of(text, q),
{
    lemma_run_end_agrees(text, 0, p, q, false);
    lemma_run_end_is_within(text, 0, p, false);
    lemma_pieces_agree(text, run_end(text, 0, p, false), p, q);
}

/// Of every character of a run the predicate says the same, and of the
/// character after the run it says the other.
proof fn lemma_run_holds(text: Seq<char>, from: int, pred: spec_fn(char) -> bool, accepted: bool)
    requires
        0 <= from <= text.len(),
    ensures
        forall|k: int|
            from <= k < run_end(text, from, pred, accepted) ==> pred(#[trigger] text[k]) == accepted,
        run_end(text, from, pred, accepted) < text.len() ==> pred(
            text[run_end(text, from, pred, accepted)],
        ) != accepted,
    decreases text.len() - from,
{
    if from < text.len() && pred(text[from]) == accepted {
        lemma_run_holds(text, from + 1, pred, accepted);
    }
}

/// The parts from a place on, where a part begins, are runs of accepted
/// characters and the separators runs of refused ones; none is empty.
proof fn lemma_pieces_are_runs(text: Seq<char>, from: int, pred: spec_fn(char) -> bool)
    requires
        0 <= from <= text.len(),
        from < text.len() ==> pred(text[from]),
    ensures
        ({
            let pieces = pieces_from(text, from, pred);
            &&& forall|i: int|
                0 <= i < pieces.0.len() ==> all_chars(#[trigger] pieces.0[i], pred, true)
                    && pieces.0[i].len() > 0
            &&& forall|i: int|
                0 <= i < pieces.1.len() ==> all_chars(#[trigger] pieces.1[i], pred, false)
                    && pieces.1[i].len() > 0
        }),
    decreases text.len() - from,
{
    let pieces = pieces_from(text, from, pred);
    let part_end = run_end(text, from, pred, true);
    lemma_run_end_is_within(text, from, pred, true);
    lemma_run_holds(text, from, pred, true);
    let separator_end = run_end(text, part_end, pred, false);
    lemma_run_end_is_within(text, part_end, pred, false);
    lemma_run_holds(text, part_end, pred, false);
    if from < text.len() {
        assert(part_end > from);
        let part = text.subrange(from, part_end);
        assert(all_chars(part, pred, true)) by {
            assert forall|k: int| 0 <= k < part.len() implies #[trigger] pred(part[k]) == true by {
                assert(part[k] == text[from + k]);
            }
        }
        if part_end >= text.len() {
            assert(pieces.0 =~= seq![text.subrange(from, text.len() as int)]);
            assert(part_end == text.len());
        } else {
            assert(separator_end > part_end);
            let separator = text.subrange(part_end, separator_end);
            assert(all_chars(separator, pred, false)) by {
                assert forall|k: int| 0 <= k < separator.len() implies #[trigger] pred(
                    separator[k],
                ) == false by {
                    assert(separator[k] == text[part_end + k]);
                }
            }
            lemma_pieces_are_runs(text, separator_end, pred);
            let rest = pieces_from(text, separator_end, pred);
            assert(pieces.0 == seq![part] + rest.0);
            assert(pieces.1 == seq![separator] + rest.1);
            assert forall|i: int| 0 <= i < pieces.0.len() implies all_chars(
                #[trigger] pieces.0[i],
                pred,
                true,
            ) && pieces.0[i].len() > 0 by {
                if i > 0 {
                    assert(pieces.0[i] == rest.0[i - 1]);
                }
            }
            assert forall|i: int| 0 <= i < pieces.1.len() implies all_chars(
                #[trigger] pieces.1[i],
                pred,
                false,
            ) && pieces.1[i].len() > 0 by {
                if i > 0 {
                    assert(pieces.1[i] == rest.1[i - 1]);
                }
            }
        }
    }
}

/// A text taken apart by a predicate is a separation of the text by it:
/// the parts are runs of accepted characters, the prefix and the separators
/// runs of refused ones, and together they make up the text.
pub proof fn lemma_separation_is_sound(text: Seq<char>, pred: spec_fn(char) -> bool)
    ensures
        is_separation_of(separation_of(text, pred), text, pred),
{
    let prefix_end = run_end(text, 0, pred, false);
    lemma_run_end_is_within(text, 0, pred, false);
    lemma_run_holds(text, 0, pred, false);
    lemma_pieces_are_runs(text, prefix_end, pred);
    lemma_separation_assembles(text, pred);
    let v = separation_of(text, pred);
    assert(all_chars(v.prefix, pred, false)) by {
        assert forall|k: int| 0 <= k < v.prefix.len() implies #[trigger] pred(v.prefix[k])
            == false by {
            assert(v.prefix[k] == text[k]);
        }
    }
}

/// A text taken apart has as many parts as separators, or one part more,
/// and its prefix, parts and separators make up the text.
pub proof fn lemma_separation_assembles(text: Seq<char>, pred: spec_fn(char) -> bool)
    ensures
        well_shaped(separation_of(text, pred)),
        assembled(separation_of(text, pred)) == text,
{
    let prefix_end = run_end(text, 0, pred, false);
    lemma_run_end_is_within(text, 0, pred, false);
    lemma_pieces_assemble(text, prefix_end, pred);
    let v = separation_of(text, pred);
    let w = SeparationView { prefix: Seq::empty(), parts: v.parts, separators: v.separators };
    lemma_stretch_agrees(v, w, 0, v.parts.len() as int);
    assert(assembled(v) =~= text);
}

/// What is known of a text after a phrase was looked for in it.
pub open spec fn analysed(text: Seq<char>, prose: Seq<char>) -> AnalyzerView {
    let separation = separation_of(text, alphabetic());
    AnalyzerView { separation, prose, location: first_match(separation.parts, prose, 0) }
}

/// Where a phrase was found in a text, what stands before the phrase, the
/// phrase as the text has it, and what stands after it make up the text.
pub proof fn lemma_found_prose_round_trip(text: Seq<char>, prose: Seq<char>)
    requires
        analysed(text, prose).location is Some,
    ensures
        analyzer_fits(analysed(text, prose)),
        text_before(analysed(text, prose)) + matched_text(analysed(text, prose)) + text_after(
            analysed(text, prose),
        ) == text,
{
    let v = analysed(text, prose);
    lemma_separation_assembles(text, alphabetic());
    lemma_first_match_fits(v.separation.parts, prose, 0);
    lemma_text_round_trip(v);
}

/// A case is one of `lower`, `upper` and `capitalized`.
pub open spec fn is_case_name(case: Seq<char>) -> bool {
    case == "lower"@ || case == "upper"@ || case == "capitalized"@
}

/// Every case in a case string's list is one of the three names; a word
/// that is written in none of the three ways makes the phrase's case
/// invalid.
pub proof fn lemma_cases_are_named(words: Seq<Seq<char>>)
    ensures
        forall|k: int|
            0 <= k < word_cases(words).len() ==> is_case_name(#[trigger] word_cases(words)[k]),
        forall|k: int|
            0 <= k < simplified_cases(word_cases(words)).len() ==> is_case_name(
                #[trigger] simplified_cases(word_cases(words))[k],
            ),
        forall|k: int| 0 <= k < words.len() ==> (word_case(#[trigger] words[k]) matches Some(case)
            ==> is_case_name(case)),
    decreases words.len(),
{
    if words.len() > 0 {
        lemma_cases_are_named(words.drop_last());
        let before = word_cases(words.drop_last());
        let now = word_cases(words);
        assert forall|k: int| 0 <= k < now.len() implies is_case_name(#[trigger] now[k]) by {
            if k < before.len() {
                assert(now[k] == before[k]);
            }
        }
    }
    lemma_simplified_is_prefix(word_cases(words));
}

/// The simplified cases are the first cases of the list.
pub proof fn lemma_simplified_is_prefix(cases: Seq<Seq<char>>)
    ensures
        simplified_cases(cases).len() <= cases.len(),
        forall|k: int|
            0 <= k < simplified_cases(cases).len() ==> #[trigger] simplified_cases(cases)[k]
                == cases[k],
    decreases cases.len(),
{
    if cases.len() > 1 && cases[cases.len() - 2] == cases.last() {
        lemma_simplified_is_prefix(cases.drop_last());
    }
}

} // verus!
