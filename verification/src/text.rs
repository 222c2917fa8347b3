//! The mathematical model of the search: lines, substring containment, and
//! simple ASCII case folding, all stated over sequences of characters.

use vstd::prelude::*;

verus! {

/// The code point of `c` after simple ASCII case folding: the letters
/// `'A'..='Z'` map to the code points of `'a'..='z'`, every other character
/// keeps its own code point.
pub open spec fn lower_code(c: char) -> u32 {
    if 65 <= c as u32 && c as u32 <= 90 {
        (c as u32 + 32) as u32
    } else {
        c as u32
    }
}

/// The sequence of code points of `s`, unchanged.
pub open spec fn char_codes(s: Seq<char>) -> Seq<u32> {
    s.map_values(|c: char| c as u32)
}

/// The sequence of code points of `s` after simple ASCII case folding of
/// each character.
pub open spec fn lower_codes(s: Seq<char>) -> Seq<u32> {
    s.map_values(|c: char| lower_code(c))
}

/// `needle` occurs in `hay` starting at position `i`.
pub open spec fn match_at<A>(hay: Seq<A>, needle: Seq<A>, i: int) -> bool {
    &&& 0 <= i
    &&& i + needle.len() <= hay.len()
    &&& hay.subrange(i, i + needle.len() as int) == needle
}

/// `needle` occurs somewhere in `hay` as a contiguous subsequence. The empty
/// needle occurs in every haystack.
pub open spec fn has_substring<A>(hay: Seq<A>, needle: Seq<A>) -> bool {
    exists|i: int| match_at(hay, needle, i)
}

/// A line matches a query case-sensitively when it contains the query as a
/// contiguous substring.
pub open spec fn line_matches(line: Seq<char>, query: Seq<char>) -> bool {
    has_substring(line, query)
}

/// A line matches a query case-insensitively when the case-folded line
/// contains the case-folded query as a contiguous substring.
pub open spec fn line_matches_ci(line: Seq<char>, query: Seq<char>) -> bool {
    has_substring(lower_codes(line), lower_codes(query))
}

/// The position of the first `'\n'` in `s`, or `s.len()` when `s` holds none.
pub open spec fn first_newline(s: Seq<char>) -> int
    decreases s.len(),
{
    if s.len() == 0 {
        0
    } else if s[0] == '\n' {
        0
    } else {
        1 + first_newline(s.drop_first())
    }
}

/// The line that ends at the line break at position `k` of `s`: the prefix of
/// `s` up to `k`, with a carriage return directly before the break removed.
pub open spec fn line_before_break(s: Seq<char>, k: int) -> Seq<char> {
    if k > 0 && s[k - 1] == '\r' {
        s.subrange(0, k - 1)
    } else {
        s.subrange(0, k)
    }
}

/// The lines of `s`: maximal runs split at each `'\n'`, with a `'\r'` directly
/// before a `'\n'` dropped from its line, and with no final empty line when
/// `s` ends in a line break. Empty contents have no lines at all.
pub open spec fn lines_of(s: Seq<char>) -> Seq<Seq<char>>
    decreases s.len(),
{
    if s.len() == 0 {
        Seq::empty()
    } else {
        let k = first_newline_clipped(s);
        if k == s.len() {
            seq![s]
        } else {
            seq![line_before_break(s, k)] + lines_of(s.subrange(k + 1, s.len() as int))
        }
    }
}

/// `first_newline(s)`, clipped into `0 .. s.len()` so that `lines_of` is
/// recognised as decreasing; `lemma_first_newline_is` lets callers conclude
/// the clip never changes the value.
pub open spec fn first_newline_clipped(s: Seq<char>) -> int {
    let k = first_newline(s);
    if 0 <= k && k <= s.len() {
        k
    } else {
        0
    }
}

/// The case-sensitive match test against `query`, as a predicate on lines.
pub open spec fn sensitive_pred(query: Seq<char>) -> spec_fn(Seq<char>) -> bool {
    |line: Seq<char>| line_matches(line, query)
}

/// The case-insensitive match test against `query`, as a predicate on lines.
pub open spec fn insensitive_pred(query: Seq<char>) -> spec_fn(Seq<char>) -> bool {
    |line: Seq<char>| line_matches_ci(line, query)
}

/// The lines of `contents` that contain `query` case-sensitively, in their
/// original order.
pub open spec fn matching_lines(query: Seq<char>, contents: Seq<char>) -> Seq<Seq<char>> {
    lines_of(contents).filter(sensitive_pred(query))
}

/// The lines of `contents` that contain `query` case-insensitively, in their
/// original order.
pub open spec fn matching_lines_ci(query: Seq<char>, contents: Seq<char>) -> Seq<Seq<char>> {
    lines_of(contents).filter(insensitive_pred(query))
}

/// A position with no `'\n'` before it, and a `'\n'` at it unless it is the
/// end, is exactly `first_newline`.
pub proof fn lemma_first_newline_is(s: Seq<char>, m: int)
    requires
        0 <= m <= s.len(),
        forall|i: int| 0 <= i < m ==> s[i] != '\n',
        m < s.len() ==> s[m] == '\n',
    ensures
        first_newline(s) == m,
    decreases s.len(),
{
    if s.len() == 0 {
    } else if s[0] == '\n' {
        assert(m == 0);
    } else {
        assert(m >= 1);
        lemma_first_newline_is(s.drop_first(), m - 1);
    }
}

/// Filtering a one-element sequence keeps or drops that single element.
pub proof fn lemma_filter_singleton<A>(x: A, p: spec_fn(A) -> bool)
    ensures
        seq![x].filter(p) == (if p(x) {
            seq![x]
        } else {
            Seq::<A>::empty()
        }),
{
    reveal_with_fuel(Seq::filter, 2);
    assert(seq![x].drop_last() =~= Seq::<A>::empty());
    assert(seq![x].last() == x);
    if p(x) {
        assert(seq![x].filter(p) =~= seq![x]);
    } else {
        assert(seq![x].filter(p) =~= Seq::<A>::empty());
    }
}

/// A weaker predicate never keeps more elements than a stronger one lets
/// through: filtering by `p` yields at most as many elements as filtering by
/// any `q` that `p` implies.
pub proof fn lemma_filter_len_mono<A>(s: Seq<A>, p: spec_fn(A) -> bool, q: spec_fn(A) -> bool)
    requires
        forall|x: A| #[trigger] p(x) ==> q(x),
    ensures
        s.filter(p).len() <= s.filter(q).len(),
    decreases s.len(),
{
    reveal_with_fuel(Seq::filter, 1);
    if s.len() == 0 {
    } else {
        lemma_filter_len_mono(s.drop_last(), p, q);
    }
}

/// Filtering by a predicate that holds of every element changes nothing.
pub proof fn lemma_filter_all<A>(s: Seq<A>, p: spec_fn(A) -> bool)
    requires
        forall|i: int| 0 <= i < s.len() ==> p(#[trigger] s[i]),
    ensures
        s.filter(p) == s,
    decreases s.len(),
{
    reveal_with_fuel(Seq::filter, 1);
    if s.len() == 0 {
        assert(s.filter(p) =~= s);
    } else {
        lemma_filter_all(s.drop_last(), p);
        assert(p(s.last()));
        assert(s.filter(p) =~= s);
    }
}

/// Every element of a filtered sequence is an element of the original.
pub proof fn lemma_filter_subset<A>(s: Seq<A>, p: spec_fn(A) -> bool)
    ensures
        forall|j: int|
            0 <= j < s.filter(p).len() ==> s.contains(#[trigger] s.filter(p)[j]),
    decreases s.len(),
{
    reveal_with_fuel(Seq::filter, 1);
    if s.len() == 0 {
    } else {
        lemma_filter_subset(s.drop_last(), p);
        assert forall|j: int| 0 <= j < s.filter(p).len() implies s.contains(
            #[trigger] s.filter(p)[j],
        ) by {
            let sub = s.drop_last().filter(p);
            if j < sub.len() {
                let i = choose|i: int| 0 <= i < s.drop_last().len() && s.drop_last()[i] == sub[j];
                assert(s[i] == sub[j]);
            } else {
                assert(s[s.len() - 1] == s.last());
            }
        }
    }
}

/// Mapping characters to their code points preserves substring containment
/// in both directions, because distinct characters have distinct code points.
pub proof fn lemma_codes_preserve_substring(hay: Seq<char>, needle: Seq<char>)
    ensures
        has_substring(char_codes(hay), char_codes(needle)) == has_substring(hay, needle),
{
    if has_substring(char_codes(hay), char_codes(needle)) {
        let i = choose|i: int| match_at(char_codes(hay), char_codes(needle), i);
        assert(hay.subrange(i, i + needle.len() as int) =~= needle) by {
            assert forall|j: int| 0 <= j < needle.len() implies hay.subrange(
                i,
                i + needle.len() as int,
            )[j] == needle[j] by {
                assert(char_codes(hay).subrange(i, i + needle.len() as int)[j] == char_codes(
                    needle,
                )[j]);
                assert(hay[i + j] as u32 == needle[j] as u32);
                vstd::utf8::char_u32_cast(hay[i + j], hay[i + j] as u32);
                vstd::utf8::char_u32_cast(needle[j], needle[j] as u32);
            }
        }
        assert(match_at(hay, needle, i));
    }
    if has_substring(hay, needle) {
        let i = choose|i: int| match_at(hay, needle, i);
        assert(char_codes(hay).subrange(i, i + needle.len() as int) =~= char_codes(needle)) by {
            assert forall|j: int| 0 <= j < needle.len() implies char_codes(hay).subrange(
                i,
                i + needle.len() as int,
            )[j] == char_codes(needle)[j] by {
                assert(hay.subrange(i, i + needle.len() as int)[j] == needle[j]);
            }
        }
        assert(match_at(char_codes(hay), char_codes(needle), i));
    }
}

/// A case-sensitive match is also a case-insensitive match: folding both
/// sides cannot destroy a containment that already holds.
pub proof fn lemma_match_implies_match_ci(line: Seq<char>, query: Seq<char>)
    requires
        line_matches(line, query),
    ensures
        line_matches_ci(line, query),
{
    let i = choose|i: int| match_at(line, query, i);
    assert(lower_codes(line).subrange(i, i + query.len() as int) =~= lower_codes(query)) by {
        assert forall|j: int| 0 <= j < query.len() implies lower_codes(line).subrange(
            i,
            i + query.len() as int,
        )[j] == lower_codes(query)[j] by {
            assert(line.subrange(i, i + query.len() as int)[j] == query[j]);
        }
    }
    assert(match_at(lower_codes(line), lower_codes(query), i));
}

/// The empty query matches every line, in both modes.
pub proof fn lemma_empty_query_matches(line: Seq<char>, query: Seq<char>)
    requires
        query.len() == 0,
    ensures
        line_matches(line, query),
        line_matches_ci(line, query),
{
    assert(line.subrange(0, 0) =~= query);
    assert(match_at(line, query, 0));
    assert(lower_codes(line).subrange(0, 0) =~= lower_codes(query));
    assert(match_at(lower_codes(line), lower_codes(query), 0));
}

} // verus!
