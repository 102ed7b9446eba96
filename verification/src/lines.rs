//! Splitting a text into its lines, as slices of the text.

use vstd::prelude::*;
use vstd::string::StringSliceAdditionalSpecFns;
use vstd::utf8::*;

use crate::encoding::{
    lemma_encode_ascii, lemma_encode_injective, lemma_encode_single, lemma_encode_split,
    lemma_encoded_last, lemma_encoded_line_break, CARRIAGE_RETURN, LINE_FEED,
};
use crate::model::{after_first_line, first_line, lemma_line_break, line_break, lines};

verus! {

/// Cuts the first line off a text: the line without its ending, and what
/// follows the ending. Both are slices of `text`; nothing is copied.
pub fn split_first_line<'a>(text: &'a str) -> (parts: (&'a str, &'a str))
    ensures
        parts.0@ == first_line(text@),
        parts.1@ == after_first_line(text@),
{
    broadcast use {encode_utf8_valid_utf8, is_char_boundary_start_end_of_seq};

    let bytes = text.as_bytes();
    let n = bytes.len();
    let mut end: usize = 0;
    while end < n && bytes[end] != LINE_FEED
        invariant
            end <= n,
            n == bytes@.len(),
            forall|i: int| 0 <= i < end ==> bytes@[i] != LINE_FEED,
        decreases n - end,
    {
        end += 1;
    }
    let ghost cut = line_break(text@);
    proof {
        lemma_line_break(text@);
        lemma_encoded_line_break(text@, end as int);
        lemma_encode_split(text@, cut);
        if end < n {
            is_char_boundary_iff_is_leading_byte(bytes@, end as int);
        }
    }
    let (head, tail) = text.split_at(end);
    proof {
        assert(bytes@.subrange(0, end as int) =~= encode_utf8(text@.subrange(0, cut)));
        assert(bytes@.subrange(end as int, n as int) =~= encode_utf8(
            text@.subrange(cut, text@.len() as int),
        ));
        lemma_encode_injective(head@, text@.subrange(0, cut));
        lemma_encode_injective(tail@, text@.subrange(cut, text@.len() as int));
    }
    if end == n {
        return (head, tail);
    }
    proof {
        let after = text@.subrange(cut + 1, text@.len() as int);
        lemma_encode_split(tail@, 1);
        assert(tail@.subrange(0, 1) =~= seq!['\n']);
        assert(tail@.subrange(1, tail@.len() as int) =~= after);
        lemma_encode_single('\n');
        lemma_encode_ascii('\n', '\n');
        reveal_with_fuel(is_char_boundary, 2);
        assert(is_char_boundary(tail.spec_bytes(), 1));
    }
    let (_, rest) = tail.split_at(1);
    proof {
        let after = text@.subrange(cut + 1, text@.len() as int);
        assert(tail.spec_bytes().subrange(1, tail.spec_bytes().len() as int) =~= encode_utf8(
            after,
        ));
        lemma_encode_injective(rest@, after);
    }
    if end == 0 {
        return (head, rest);
    }
    let head_bytes = head.as_bytes();
    proof {
        assert(head@.len() > 0) by {
            if head@.len() == 0 {
                assert(encode_utf8(head@).len() == 0);
            }
        }
        lemma_encoded_last(head@, '\r');
        assert(head@.last() == text@[cut - 1]);
    }
    if head_bytes[end - 1] == CARRIAGE_RETURN {
        proof {
            is_char_boundary_iff_not_is_continuation_byte(head_bytes@, end - 1);
        }
        let (line, _) = head.split_at(end - 1);
        proof {
            assert(head_bytes@.subrange(0, end - 1) =~= head_bytes@.drop_last());
            lemma_encode_injective(line@, head@.drop_last());
            assert(head@.drop_last() =~= text@.subrange(0, cut - 1));
        }
        (line, rest)
    } else {
        (head, rest)
    }
}

/// The lines of a text, in order and without their endings, as slices of the
/// text.
pub fn split_lines<'a>(text: &'a str) -> (all: Vec<&'a str>)
    ensures
        all.deep_view() == lines(text@),
{
    let mut all: Vec<&'a str> = Vec::new();
    let mut rest: &'a str = text;
    assert(all.deep_view() =~= Seq::<Seq<char>>::empty());
    while !rest.is_empty()
        invariant
            all.deep_view() + lines(rest@) == lines(text@),
        decreases rest@.len(),
    {
        let ghost found = all.deep_view();
        let (line, tail) = split_first_line(rest);
        proof {
            lemma_line_break(rest@);
        }
        all.push(line);
        assert(all.deep_view() =~= found + seq![line@]);
        rest = tail;
        assert(all.deep_view() + lines(rest@) =~= lines(text@));
    }
    assert(all.deep_view() + lines(rest@) =~= all.deep_view());
    all
}

} // verus!
