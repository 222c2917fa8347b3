//! The line search engine: scans file contents split into lines and returns
//! the lines containing a query, case-sensitively or after simple ASCII case
//! folding, as slices of the original contents in original order.

use vstd::prelude::*;
use vstd::string::StrSliceExecFns;

use crate::text::char_codes;
use crate::text::first_newline_clipped;
use crate::text::has_substring;
use crate::text::insensitive_pred;
use crate::text::lemma_codes_preserve_substring;
use crate::text::lemma_empty_query_matches;
use crate::text::lemma_filter_all;
use crate::text::lemma_filter_len_mono;
use crate::text::lemma_filter_singleton;
use crate::text::lemma_filter_subset;
use crate::text::lemma_first_newline_is;
use crate::text::lemma_match_implies_match_ci;
use crate::text::line_before_break;
use crate::text::line_matches;
use crate::text::line_matches_ci;
use crate::text::lines_of;
use crate::text::lower_code;
use crate::text::lower_codes;
use crate::text::match_at;
use crate::text::matching_lines;
use crate::text::matching_lines_ci;
use crate::text::sensitive_pred;

verus! {

/// The code point of `c` after simple ASCII case folding.
fn exec_lower_code(c: char) -> (code: u32)
    ensures
        code == lower_code(c),
{
    let u: u32 = c as u32;
    if 65 <= u && u <= 90 {
        u + 32
    } else {
        u
    }
}

/// The characters of `s`, collected into a vector for constant-time access.
fn char_vec(s: &str) -> (v: Vec<char>)
    ensures
        v@ == s@,
{
    let n: usize = s.unicode_len();
    let mut v: Vec<char> = Vec::new();
    let mut i: usize = 0;
    while i < n
        invariant
            i <= n,
            n == s@.len(),
            v@.len() == i,
            forall|j: int| 0 <= j < i ==> v@[j] == s@[j],
        decreases n - i,
    {
        let c = s.get_char(i);
        v.push(c);
        i = i + 1;
    }
    proof {
        assert(v@ =~= s@);
    }
    v
}

/// The code points of the characters of `s`, case-folded when `fold` is set.
fn code_vec(s: &str, fold: bool) -> (v: Vec<u32>)
    ensures
        fold ==> v@ == lower_codes(s@),
        !fold ==> v@ == char_codes(s@),
{
    let n: usize = s.unicode_len();
    let mut v: Vec<u32> = Vec::new();
    let mut i: usize = 0;
    while i < n
        invariant
            i <= n,
            n == s@.len(),
            v@.len() == i,
            forall|j: int|
                0 <= j < i ==> v@[j] == (if fold {
                    lower_code(s@[j])
                } else {
                    s@[j] as u32
                }),
        decreases n - i,
    {
        let c = s.get_char(i);
        let code: u32 = if fold {
            exec_lower_code(c)
        } else {
            c as u32
        };
        v.push(code);
        i = i + 1;
    }
    proof {
        if fold {
            assert(v@ =~= lower_codes(s@));
        } else {
            assert(v@ =~= char_codes(s@));
        }
    }
    v
}

/// Whether `needle` occurs at offset `i` of the window `hay[lo..hi]`.
fn matches_at(hay: &Vec<u32>, lo: usize, hi: usize, needle: &Vec<u32>, i: usize) -> (found: bool)
    requires
        lo <= hi <= hay@.len(),
        i + needle@.len() <= hi - lo,
    ensures
        found == match_at(hay@.subrange(lo as int, hi as int), needle@, i as int),
{
    let ghost sub = hay@.subrange(lo as int, hi as int);
    let m: usize = needle.len();
    let mut j: usize = 0;
    while j < m
        invariant
            j <= m,
            m == needle@.len(),
            lo <= hi <= hay@.len(),
            i + m <= hi - lo,
            sub == hay@.subrange(lo as int, hi as int),
            forall|jj: int| 0 <= jj < j ==> sub[i + jj] == needle@[jj],
        decreases m - j,
    {
        if hay[lo + i + j] != needle[j] {
            proof {
                assert(sub[i + j as int] == hay@[lo + i + j]);
                assert(!match_at(sub, needle@, i as int)) by {
                    if match_at(sub, needle@, i as int) {
                        assert(sub.subrange(i as int, i + m as int)[j as int] == sub[i + j as int]);
                        assert(sub.subrange(i as int, i + m as int)[j as int] == needle@[j as int]);
                    }
                }
            }
            return false;
        }
        proof {
            assert(sub[i + j as int] == hay@[lo + i + j]);
        }
        j = j + 1;
    }
    proof {
        assert(sub.subrange(i as int, i + m as int) =~= needle@);
    }
    true
}

/// Whether `needle` occurs anywhere in the window `hay[lo..hi]`.
fn range_has_needle(hay: &Vec<u32>, lo: usize, hi: usize, needle: &Vec<u32>) -> (found: bool)
    requires
        lo <= hi <= hay@.len(),
    ensures
        found == has_substring(hay@.subrange(lo as int, hi as int), needle@),
{
    let ghost sub = hay@.subrange(lo as int, hi as int);
    let m: usize = needle.len();
    let len: usize = hi - lo;
    if m == 0 {
        proof {
            assert(sub.subrange(0, 0) =~= needle@);
            assert(match_at(sub, needle@, 0));
        }
        return true;
    }
    if m > len {
        proof {
            assert(forall|i: int| !match_at(sub, needle@, i));
        }
        return false;
    }
    let count: usize = len - m + 1;
    let mut i: usize = 0;
    while i < count
        invariant
            i <= count,
            m == needle@.len(),
            lo <= hi <= hay@.len(),
            1 <= m <= hi - lo,
            count == hi - lo - m + 1,
            sub == hay@.subrange(lo as int, hi as int),
            forall|ii: int| 0 <= ii < i ==> !match_at(sub, needle@, ii),
        decreases count - i,
    {
        if matches_at(hay, lo, hi, needle, i) {
            return true;
        }
        i = i + 1;
    }
    proof {
        assert forall|ii: int| !match_at(sub, needle@, ii) by {
            if 0 <= ii < i {
            } else if ii >= count {
                assert(ii + m > sub.len());
            }
        }
    }
    false
}

/// Scans `contents` line by line and returns the lines matching `query`, in
/// original order, as slices of `contents`. With `case_sensitive` the match
/// is literal substring containment; without it both sides are compared
/// after simple ASCII case folding.
pub fn search_with_mode<'a>(query: &str, contents: &'a str, case_sensitive: bool) -> (results: Vec<
    &'a str,
>)
    ensures
        case_sensitive ==> results.deep_view() == matching_lines(query@, contents@),
        !case_sensitive ==> results.deep_view() == matching_lines_ci(query@, contents@),
{
    let fold = !case_sensitive;
    let n: usize = contents.unicode_len();
    let chars = char_vec(contents);
    let codes = code_vec(contents, fold);
    let qcodes = code_vec(query, fold);
    let ghost pred: spec_fn(Seq<char>) -> bool = if case_sensitive {
        sensitive_pred(query@)
    } else {
        insensitive_pred(query@)
    };
    let mut results: Vec<&'a str> = Vec::new();
    let ghost mut done: Seq<Seq<char>> = Seq::empty();
    let mut start: usize = 0;
    proof {
        assert(contents@.subrange(0, n as int) =~= contents@);
        assert(done + lines_of(contents@.subrange(0, n as int)) =~= lines_of(contents@));
        assert(done.filter(pred) =~= results.deep_view());
    }
    while start < n
        invariant
            start <= n,
            n == contents@.len(),
            chars@ == contents@,
            codes@.len() == n,
            fold == !case_sensitive,
            fold ==> codes@ == lower_codes(contents@) && qcodes@ == lower_codes(query@),
            !fold ==> codes@ == char_codes(contents@) && qcodes@ == char_codes(query@),
            pred == (if case_sensitive {
                sensitive_pred(query@)
            } else {
                insensitive_pred(query@)
            }),
            lines_of(contents@) == done + lines_of(contents@.subrange(start as int, n as int)),
            results.deep_view() == done.filter(pred),
        decreases n - start,
    {
        let ghost suffix = contents@.subrange(start as int, n as int);
        let mut k: usize = start;
        while k < n && chars[k] != '\n'
            invariant
                start <= k <= n,
                n == contents@.len(),
                chars@ == contents@,
                forall|j: int| start <= j < k ==> contents@[j] != '\n',
            decreases n - k,
        {
            k = k + 1;
        }
        proof {
            assert forall|i: int| 0 <= i < k - start implies suffix[i] != '\n' by {
                assert(suffix[i] == contents@[start + i]);
            }
            if k < n {
                assert(suffix[k - start] == contents@[k as int]);
            }
            lemma_first_newline_is(suffix, k - start);
            assert(first_newline_clipped(suffix) == k - start);
        }
        let has_break = k < n;
        let line_end: usize = if has_break && k > start && chars[k - 1] == '\r' {
            k - 1
        } else {
            k
        };
        let line: &'a str = contents.substring_char(start, line_end);
        let ghost this_line = if has_break {
            line_before_break(suffix, k - start)
        } else {
            suffix
        };
        proof {
            if has_break {
                if k > start {
                    assert(suffix[k - start - 1] == contents@[start + (k - start - 1)]);
                }
                assert(this_line =~= contents@.subrange(start as int, line_end as int));
            } else {
                assert(this_line =~= contents@.subrange(start as int, line_end as int));
            }
            assert(line@ == this_line);
        }
        let is_match = range_has_needle(&codes, start, line_end, &qcodes);
        proof {
            let window = codes@.subrange(start as int, line_end as int);
            if fold {
                assert(window =~= lower_codes(this_line)) by {
                    assert forall|j: int| 0 <= j < line_end - start implies window[j]
                        == lower_codes(this_line)[j] by {
                        assert(window[j] == codes@[start + j]);
                        assert(codes@[start + j] == lower_code(contents@[start + j]));
                        assert(this_line[j] == contents@[start + j]);
                    }
                }
                assert(is_match == line_matches_ci(this_line, query@));
            } else {
                assert(window =~= char_codes(this_line)) by {
                    assert forall|j: int| 0 <= j < line_end - start implies window[j]
                        == char_codes(this_line)[j] by {
                        assert(window[j] == codes@[start + j]);
                        assert(codes@[start + j] == contents@[start + j] as u32);
                        assert(this_line[j] == contents@[start + j]);
                    }
                }
                lemma_codes_preserve_substring(this_line, query@);
                assert(is_match == line_matches(this_line, query@));
            }
            assert(is_match == pred(this_line));
        }
        let ghost prev_dv = results.deep_view();
        if is_match {
            results.push(line);
            proof {
                assert(results.deep_view() =~= prev_dv.push(this_line));
            }
        }
        proof {
            let ghost prev_done = done;
            done = done + seq![this_line];
            Seq::filter_distributes_over_add(prev_done, seq![this_line], pred);
            lemma_filter_singleton(this_line, pred);
            if is_match {
                assert(done.filter(pred) =~= prev_done.filter(pred).push(this_line));
                assert(results.deep_view() =~= done.filter(pred));
            } else {
                assert(done.filter(pred) =~= prev_done.filter(pred));
            }
        }
        let next_start: usize = if has_break {
            k + 1
        } else {
            n
        };
        proof {
            let rest = contents@.subrange(next_start as int, n as int);
            if has_break {
                assert(suffix.subrange(k - start + 1, suffix.len() as int) =~= rest);
                assert(lines_of(suffix) == seq![this_line] + lines_of(rest));
            } else {
                assert(lines_of(suffix) == seq![suffix]);
                assert(rest =~= Seq::<char>::empty());
                assert(lines_of(rest) =~= Seq::<Seq<char>>::empty());
                assert(lines_of(suffix) =~= seq![this_line] + lines_of(rest));
            }
            assert(done + lines_of(rest) =~= lines_of(contents@));
        }
        start = next_start;
    }
    proof {
        assert(contents@.subrange(start as int, n as int) =~= Seq::<char>::empty());
        assert(lines_of(Seq::<char>::empty()) =~= Seq::<Seq<char>>::empty());
        assert(done =~= lines_of(contents@));
    }
    results
}

/// Returns every line of `contents` that contains `query` as a contiguous
/// literal substring, in original order, as slices of `contents`. The empty
/// query matches every line; empty contents yield no lines.
pub fn search<'a>(query: &str, contents: &'a str) -> (results: Vec<&'a str>)
    ensures
        results.deep_view() == matching_lines(query@, contents@),
{
    search_with_mode(query, contents, true)
}

/// Returns every line of `contents` whose simple ASCII case folding contains
/// the case folding of `query` as a contiguous substring, in original order,
/// as unmodified slices of `contents`.
pub fn search_case_insensitive<'a>(query: &str, contents: &'a str) -> (results: Vec<&'a str>)
    ensures
        results.deep_view() == matching_lines_ci(query@, contents@),
{
    search_with_mode(query, contents, false)
}

/// The case-sensitive search is exact: every returned line is a line of the
/// contents and contains the query as a substring, and every line of the
/// contents that contains the query is returned; being a filter of the line
/// sequence, the result also keeps the original order and duplicates.
pub proof fn lemma_search_exact(query: Seq<char>, contents: Seq<char>)
    ensures
        forall|j: int|
            0 <= j < matching_lines(query, contents).len() ==> lines_of(contents).contains(
                #[trigger] matching_lines(query, contents)[j],
            ) && line_matches(matching_lines(query, contents)[j], query),
        forall|i: int|
            0 <= i < lines_of(contents).len() && line_matches(
                #[trigger] lines_of(contents)[i],
                query,
            ) ==> matching_lines(query, contents).contains(lines_of(contents)[i]),
{
    broadcast use vstd::seq_lib::group_filter_ensures;

    let p = sensitive_pred(query);
    lemma_filter_subset(lines_of(contents), p);
    assert forall|j: int| 0 <= j < matching_lines(query, contents).len() implies lines_of(
        contents,
    ).contains(#[trigger] matching_lines(query, contents)[j]) && line_matches(
        matching_lines(query, contents)[j],
        query,
    ) by {
        assert(p(lines_of(contents).filter(p)[j]));
    }
    assert forall|i: int|
        0 <= i < lines_of(contents).len() && line_matches(
            #[trigger] lines_of(contents)[i],
            query,
        ) implies matching_lines(query, contents).contains(lines_of(contents)[i]) by {
        assert(p(lines_of(contents)[i]));
        lines_of(contents).lemma_filter_contains(p, i);
    }
}

/// The case-insensitive search returns at least as many lines as the
/// case-sensitive search for the same query and contents: case folding only
/// loosens the match.
pub proof fn lemma_insensitive_at_least_sensitive(query: Seq<char>, contents: Seq<char>)
    ensures
        matching_lines(query, contents).len() <= matching_lines_ci(query, contents).len(),
{
    let p = sensitive_pred(query);
    let q = insensitive_pred(query);
    assert forall|line: Seq<char>| #[trigger] p(line) implies q(line) by {
        lemma_match_implies_match_ci(line, query);
    }
    lemma_filter_len_mono(lines_of(contents), p, q);
}

/// The empty query matches every line: both search modes then return every
/// line of the contents, unchanged and in order.
pub proof fn lemma_empty_query_returns_all_lines(query: Seq<char>, contents: Seq<char>)
    requires
        query.len() == 0,
    ensures
        matching_lines(query, contents) == lines_of(contents),
        matching_lines_ci(query, contents) == lines_of(contents),
{
    let p = sensitive_pred(query);
    let q = insensitive_pred(query);
    assert forall|i: int| 0 <= i < lines_of(contents).len() implies p(
        #[trigger] lines_of(contents)[i],
    ) && q(lines_of(contents)[i]) by {
        lemma_empty_query_matches(lines_of(contents)[i], query);
    }
    lemma_filter_all(lines_of(contents), p);
    lemma_filter_all(lines_of(contents), q);
}

} // verus!
