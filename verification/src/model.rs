//! The mathematical model of the search: what the lines of a text are, and
//! when one sequence occurs inside another.

use vstd::prelude::*;

verus! {

/// `needle` stands in `haystack` at position `at`, element for element.
pub open spec fn occurs_at<T>(haystack: Seq<T>, needle: Seq<T>, at: int) -> bool {
    &&& 0 <= at
    &&& at + needle.len() <= haystack.len()
    &&& haystack.subrange(at, at + needle.len()) == needle
}

/// `needle` is a contiguous part of `haystack`. The empty sequence is a part
/// of every sequence.
pub open spec fn occurs_in<T>(haystack: Seq<T>, needle: Seq<T>) -> bool {
    exists|at: int| occurs_at(haystack, needle, at)
}

/// The position of the first line feed of `text`, or its length where it has
/// none.
pub open spec fn line_break(text: Seq<char>) -> int
    decreases text.len(),
{
    if text.len() == 0 || text[0] == '\n' {
        0
    } else {
        1 + line_break(text.drop_first())
    }
}

/// The first line of a text: what stands before the first line feed, less
/// one carriage return directly before that line feed. A line that no line
/// feed ends keeps a carriage return at its end.
pub open spec fn first_line(text: Seq<char>) -> Seq<char> {
    let end = line_break(text);
    if 0 < end < text.len() && text[end - 1] == '\r' {
        text.subrange(0, end - 1)
    } else {
        text.subrange(0, end)
    }
}

/// What follows the first line and its line feed.
pub open spec fn after_first_line(text: Seq<char>) -> Seq<char> {
    let end = line_break(text);
    if end < text.len() {
        text.subrange(end + 1, text.len() as int)
    } else {
        Seq::empty()
    }
}

/// `line_break` is the least position that holds a line feed, or the length
/// of the text.
pub proof fn lemma_line_break(text: Seq<char>)
    ensures
        0 <= line_break(text) <= text.len(),
        forall|i: int| 0 <= i < line_break(text) ==> text[i] != '\n',
        line_break(text) < text.len() ==> text[line_break(text)] == '\n',
    decreases text.len(),
{
    if text.len() == 0 || text[0] == '\n' {
    } else {
        let rest = text.drop_first();
        lemma_line_break(rest);
        assert forall|i: int| 0 <= i < line_break(text) implies text[i] != '\n' by {
            if i > 0 {
                assert(text[i] == rest[i - 1]);
            }
        }
    }
}

/// The lines of a text, in order. Each line feed ends a line; a carriage
/// return directly before it belongs to the line ending. What follows the
/// last line feed is a line of its own unless it is empty, so the empty text
/// has no lines.
pub open spec fn lines(text: Seq<char>) -> Seq<Seq<char>>
    decreases text.len(),
    via lines_decreases
{
    if text.len() == 0 {
        Seq::empty()
    } else {
        seq![first_line(text)] + lines(after_first_line(text))
    }
}

#[via_fn]
proof fn lines_decreases(text: Seq<char>) {
    lemma_line_break(text);
}

/// No line holds a line feed.
pub proof fn lemma_lines_hold_no_line_feed(text: Seq<char>)
    ensures
        forall|k: int, i: int|
            0 <= k < lines(text).len() && 0 <= i < lines(text)[k].len() ==> #[trigger] lines(
                text,
            )[k][i] != '\n',
    decreases text.len(),
{
    if text.len() > 0 {
        lemma_line_break(text);
        let rest = after_first_line(text);
        lemma_lines_hold_no_line_feed(rest);
        assert forall|k: int, i: int|
            0 <= k < lines(text).len() && 0 <= i < lines(text)[k].len() implies #[trigger] lines(
            text,
        )[k][i] != '\n' by {
            if k == 0 {
                assert(lines(text)[k][i] == text[i]);
            } else {
                assert(lines(text)[k] == lines(rest)[k - 1]);
            }
        }
    }
}

/// Every line of a text is a contiguous part of the text.
pub proof fn lemma_lines_occur_in_text(text: Seq<char>)
    ensures
        forall|k: int| 0 <= k < lines(text).len() ==> occurs_in(text, #[trigger] lines(text)[k]),
    decreases text.len(),
{
    if text.len() > 0 {
        lemma_line_break(text);
        let end = line_break(text);
        let rest = after_first_line(text);
        lemma_lines_occur_in_text(rest);
        assert forall|k: int| 0 <= k < lines(text).len() implies occurs_in(
            text,
            #[trigger] lines(text)[k],
        ) by {
            let line = lines(text)[k];
            if k == 0 {
                assert(text.subrange(0, line.len() as int) =~= line);
                assert(occurs_at(text, line, 0));
            } else {
                assert(line == lines(rest)[k - 1]);
                let at = choose|at: int| occurs_at(rest, line, at);
                assert(text.subrange(end + 1 + at, end + 1 + at + line.len()) =~= rest.subrange(
                    at,
                    at + line.len(),
                ));
                assert(occurs_at(text, line, end + 1 + at));
            }
        }
    }
}

/// The lines of `contents` that contain `query`, in the order of `contents`.
pub open spec fn matching_lines(query: Seq<char>, contents: Seq<char>) -> Seq<Seq<char>> {
    lines(contents).filter(|line: Seq<char>| occurs_in(line, query))
}

/// `part` holds the elements of `whole` at `positions`, which rise: `part` is
/// `whole` with some elements left out and the others in their old order.
pub open spec fn selects<T>(whole: Seq<T>, positions: Seq<int>, part: Seq<T>) -> bool {
    &&& positions.len() == part.len()
    &&& forall|i: int|
        0 <= i < positions.len() ==> 0 <= #[trigger] positions[i] < whole.len() && part[i]
            == whole[positions[i]]
    &&& forall|i: int, j: int|
        0 <= i < j < positions.len() ==> #[trigger] positions[i] < #[trigger] positions[j]
}

/// `part` is `whole` with some elements left out and the others in their old
/// order.
pub open spec fn in_order_of<T>(part: Seq<T>, whole: Seq<T>) -> bool {
    exists|positions: Seq<int>| selects(whole, positions, part)
}

/// Filtering keeps exactly the elements that meet the predicate, each as
/// often as it stands in the sequence, and keeps their order. The result
/// names the position that each kept element came from.
pub proof fn lemma_filter_positions<T>(whole: Seq<T>, keep: spec_fn(T) -> bool) -> (positions:
    Seq<int>)
    ensures
        selects(whole, positions, whole.filter(keep)),
        forall|k: int| 0 <= k < whole.len() ==> (keep(whole[k]) <==> positions.contains(k)),
    decreases whole.len(),
{
    reveal(Seq::filter);
    if whole.len() == 0 {
        Seq::empty()
    } else {
        let init = whole.drop_last();
        let last = whole.len() - 1;
        let before = lemma_filter_positions(init, keep);
        let positions = if keep(whole.last()) {
            before.push(last)
        } else {
            before
        };
        assert forall|k: int| 0 <= k < whole.len() implies (keep(whole[k])
            <==> positions.contains(k)) by {
            if k < last {
                assert(whole[k] == init[k]);
                if before.contains(k) {
                    let i = choose|i: int| 0 <= i < before.len() && before[i] == k;
                    assert(positions[i] == k);
                }
                if positions.contains(k) {
                    let i = choose|i: int| 0 <= i < positions.len() && positions[i] == k;
                    assert(before[i] == k);
                }
            } else {
                if keep(whole[k]) {
                    assert(positions[positions.len() - 1] == k);
                }
                if positions.contains(k) {
                    let i = choose|i: int| 0 <= i < positions.len() && positions[i] == k;
                    if i < before.len() {
                        assert(before[i] < init.len());
                    }
                }
            }
        }
        positions
    }
}

/// A filter that every element passes leaves the sequence as it is.
pub proof fn lemma_filter_all<T>(whole: Seq<T>, keep: spec_fn(T) -> bool)
    requires
        forall|k: int| 0 <= k < whole.len() ==> keep(#[trigger] whole[k]),
    ensures
        whole.filter(keep) == whole,
    decreases whole.len(),
{
    reveal(Seq::filter);
    if whole.len() > 0 {
        let init = whole.drop_last();
        assert forall|k: int| 0 <= k < init.len() implies keep(#[trigger] init[k]) by {
            assert(init[k] == whole[k]);
        }
        lemma_filter_all(init, keep);
        assert(init.push(whole.last()) =~= whole);
    }
}

/// Every matching line contains the query.
pub proof fn lemma_matches_contain_query(query: Seq<char>, contents: Seq<char>)
    ensures
        forall|i: int|
            0 <= i < matching_lines(query, contents).len() ==> occurs_in(
                #[trigger] matching_lines(query, contents)[i],
                query,
            ),
{
    let keep = |line: Seq<char>| occurs_in(line, query);
    assert forall|i: int| 0 <= i < matching_lines(query, contents).len() implies occurs_in(
        #[trigger] matching_lines(query, contents)[i],
        query,
    ) by {
        lines(contents).lemma_filter_pred(keep, i);
    }
}

/// No line that contains the query is left out of the matching lines.
pub proof fn lemma_no_match_omitted(query: Seq<char>, contents: Seq<char>)
    ensures
        forall|k: int|
            0 <= k < lines(contents).len() && occurs_in(#[trigger] lines(contents)[k], query)
                ==> matching_lines(query, contents).contains(lines(contents)[k]),
{
    let keep = |line: Seq<char>| occurs_in(line, query);
    assert forall|k: int|
        0 <= k < lines(contents).len() && occurs_in(
            #[trigger] lines(contents)[k],
            query,
        ) implies matching_lines(query, contents).contains(lines(contents)[k]) by {
        lines(contents).lemma_filter_contains(keep, k);
    }
}

/// The matching lines stand in the order of the lines of the contents: they
/// are the lines at rising positions, and those positions are exactly the
/// ones whose line contains the query, each taken once.
pub proof fn lemma_matches_in_order(query: Seq<char>, contents: Seq<char>) -> (positions: Seq<int>)
    ensures
        selects(lines(contents), positions, matching_lines(query, contents)),
        forall|k: int|
            0 <= k < lines(contents).len() ==> (occurs_in(lines(contents)[k], query)
                <==> positions.contains(k)),
        in_order_of(matching_lines(query, contents), lines(contents)),
{
    let keep = |line: Seq<char>| occurs_in(line, query);
    lemma_filter_positions(lines(contents), keep)
}

/// The empty query matches every line: the matching lines are all the lines,
/// unchanged and in order.
pub proof fn lemma_empty_query_matches_every_line(query: Seq<char>, contents: Seq<char>)
    requires
        query.len() == 0,
    ensures
        matching_lines(query, contents) == lines(contents),
{
    let keep = |line: Seq<char>| occurs_in(line, query);
    let all = lines(contents);
    assert forall|k: int| 0 <= k < all.len() implies keep(#[trigger] all[k]) by {
        assert(all[k].subrange(0, 0) =~= query);
        assert(occurs_at(all[k], query, 0));
    }
    lemma_filter_all(all, keep);
}

/// The empty text has no lines, so no query matches in it.
pub proof fn lemma_empty_contents_has_no_match(query: Seq<char>, contents: Seq<char>)
    requires
        contents.len() == 0,
    ensures
        lines(contents).len() == 0,
        matching_lines(query, contents).len() == 0,
{
    reveal(Seq::filter);
}

/// Every matching line is a contiguous part of the contents.
pub proof fn lemma_matches_occur_in_contents(query: Seq<char>, contents: Seq<char>)
    ensures
        forall|i: int|
            0 <= i < matching_lines(query, contents).len() ==> occurs_in(
                contents,
                #[trigger] matching_lines(query, contents)[i],
            ),
{
    let positions = lemma_matches_in_order(query, contents);
    lemma_lines_occur_in_text(contents);
    assert forall|i: int| 0 <= i < matching_lines(query, contents).len() implies occurs_in(
        contents,
        #[trigger] matching_lines(query, contents)[i],
    ) by {
        assert(matching_lines(query, contents)[i] == lines(contents)[positions[i]]);
    }
}

} // verus!
