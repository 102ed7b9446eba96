//! The search itself: which lines of a text contain a query.

use vstd::prelude::*;
use vstd::string::StringSliceAdditionalSpecFns;

use crate::encoding::lemma_encoded_occurs_in;
use crate::lines::{split_first_line, split_lines};
use crate::model::{
    after_first_line, first_line, in_order_of, lemma_empty_contents_has_no_match,
    lemma_empty_query_matches_every_line, lemma_line_break, lemma_matches_contain_query,
    lemma_matches_in_order, lemma_matches_occur_in_contents, lemma_no_match_omitted, lines,
    matching_lines, occurs_at, occurs_in,
};

verus! {

/// Whether `needle` stands in `haystack` at position `at`.
fn bytes_occur_at(haystack: &[u8], needle: &[u8], at: usize) -> (found: bool)
    requires
        at + needle@.len() <= haystack@.len(),
    ensures
        found == occurs_at(haystack@, needle@, at as int),
{
    let n = haystack.len();
    let m = needle.len();
    let ghost window = haystack@.subrange(at as int, at + m);
    let mut i: usize = 0;
    while i < m
        invariant
            i <= m,
            m == needle@.len(),
            n == haystack@.len(),
            at + m <= n,
            window == haystack@.subrange(at as int, at + m),
            forall|j: int| 0 <= j < i ==> window[j] == needle@[j],
        decreases m - i,
    {
        if haystack[at + i] != needle[i] {
            assert(window[i as int] != needle@[i as int]);
            return false;
        }
        i += 1;
    }
    assert(window =~= needle@);
    true
}

/// Whether `needle` is a contiguous part of `haystack`.
fn bytes_occur_in(haystack: &[u8], needle: &[u8]) -> (found: bool)
    ensures
        found == occurs_in(haystack@, needle@),
{
    let n = haystack.len();
    let m = needle.len();
    if m > n {
        return false;
    }
    let last = n - m;
    let mut at: usize = 0;
    while at < last
        invariant
            at <= last,
            last == n - m,
            n == haystack@.len(),
            m == needle@.len(),
            forall|k: int| 0 <= k < at ==> !occurs_at(haystack@, needle@, k),
        decreases last - at,
    {
        if bytes_occur_at(haystack, needle, at) {
            return true;
        }
        at += 1;
    }
    bytes_occur_at(haystack, needle, last)
}

/// Whether `query` is a contiguous part of `line`: the same characters in the
/// same order, with nothing between them. The empty query is a part of every
/// line.
pub fn contains(line: &str, query: &str) -> (found: bool)
    ensures
        found == occurs_in(line@, query@),
{
    proof {
        lemma_encoded_occurs_in(line@, query@);
    }
    bytes_occur_in(line.as_bytes(), query.as_bytes())
}

/// The lines of `contents` that contain `query`, in the order in which they
/// stand in `contents`, each once and without its line ending. The lines are
/// slices of `contents`.
pub fn search<'a>(query: &str, contents: &'a str) -> (results: Vec<&'a str>)
    ensures
        results.deep_view() == matching_lines(query@, contents@),
        forall|i: int| 0 <= i < results.len() ==> occurs_in(#[trigger] results[i]@, query@),
        forall|k: int|
            0 <= k < lines(contents@).len() && occurs_in(#[trigger] lines(contents@)[k], query@)
                ==> results.deep_view().contains(lines(contents@)[k]),
        in_order_of(results.deep_view(), lines(contents@)),
        forall|i: int| 0 <= i < results.len() ==> occurs_in(contents@, #[trigger] results[i]@),
        query@.len() == 0 ==> results.deep_view() == lines(contents@),
        contents@.len() == 0 ==> results.len() == 0,
{
    let mut results: Vec<&'a str> = Vec::new();
    let mut rest: &'a str = contents;
    assert(results.deep_view() =~= Seq::<Seq<char>>::empty());
    while !rest.is_empty()
        invariant
            results.deep_view() + matching_lines(query@, rest@) == matching_lines(
                query@,
                contents@,
            ),
        decreases rest@.len(),
    {
        let ghost found = results.deep_view();
        let ghost pred = |line: Seq<char>| occurs_in(line, query@);
        let (line, tail) = split_first_line(rest);
        proof {
            lemma_line_break(rest@);
            lines(after_first_line(rest@)).lemma_filter_prepend(first_line(rest@), pred);
        }
        if contains(line, query) {
            results.push(line);
            assert(results.deep_view() =~= found + seq![line@]);
        }
        rest = tail;
        assert(results.deep_view() + matching_lines(query@, rest@) =~= matching_lines(
            query@,
            contents@,
        ));
    }
    proof {
        lemma_empty_contents_has_no_match(query@, rest@);
        assert(results.deep_view() + matching_lines(query@, rest@) =~= results.deep_view());
        lemma_matches_contain_query(query@, contents@);
        assert forall|i: int| 0 <= i < results.len() implies occurs_in(
            #[trigger] results[i]@,
            query@,
        ) by {
            assert(results.deep_view()[i] == results[i]@);
        }
        lemma_no_match_omitted(query@, contents@);
        lemma_matches_in_order(query@, contents@);
        lemma_matches_occur_in_contents(query@, contents@);
        assert forall|i: int| 0 <= i < results.len() implies occurs_in(
            contents@,
            #[trigger] results[i]@,
        ) by {
            assert(results.deep_view()[i] == results[i]@);
        }
        if query@.len() == 0 {
            lemma_empty_query_matches_every_line(query@, contents@);
        }
        if contents@.len() == 0 {
            lemma_empty_contents_has_no_match(query@, contents@);
        }
    }
    results
}

/// The same lines as [`search`], found the other way round: first all the
/// lines of `contents`, then of these the ones that contain `query`.
pub fn search_alternative<'a>(query: &str, contents: &'a str) -> (results: Vec<&'a str>)
    ensures
        results.deep_view() == matching_lines(query@, contents@),
{
    let all = split_lines(contents);
    let ghost keep = |line: Seq<char>| occurs_in(line, query@);
    let mut results: Vec<&'a str> = Vec::new();
    let mut i: usize = 0;
    assert(all.deep_view().take(0).filter(keep) =~= results.deep_view()) by {
        reveal(Seq::filter);
    }
    while i < all.len()
        invariant
            i <= all.len(),
            all.deep_view() == lines(contents@),
            keep == |line: Seq<char>| occurs_in(line, query@),
            results.deep_view() == all.deep_view().take(i as int).filter(keep),
        decreases all.len() - i,
    {
        let ghost found = results.deep_view();
        let line = all[i];
        proof {
            reveal(Seq::filter);
            assert(all.deep_view().take(i + 1).drop_last() =~= all.deep_view().take(i as int));
            assert(all.deep_view().take(i + 1).last() == line@);
        }
        if contains(line, query) {
            results.push(line);
            assert(results.deep_view() =~= found.push(line@));
        }
        i += 1;
    }
    assert(all.deep_view().take(i as int) =~= all.deep_view());
    results
}

} // verus!
