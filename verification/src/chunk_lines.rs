//! The lines of the ranges into which a file is cut: each line of the file
//! is a line of exactly one range.

use crate::bisect::{
    chunks_of, is_chain, lemma_chunks_meet_at_line_feeds, lemma_chunks_partition, LINE_FEED,
};
use crate::multistream::{line_at, line_end, lines_from, LineView};
use crate::text::{text_of_bytes, texts};
use vstd::prelude::*;

verus! {

/// The lines of a text.
pub open spec fn lines(text: Seq<char>) -> Seq<Seq<char>> {
    lines_from(text, 0)
}

/// A line ends at the first line feed there is at or after its start.
pub proof fn lemma_line_end_first(text: Seq<char>, from: int)
    requires
        0 <= from <= text.len(),
    ensures
        from <= line_end(text, from) <= text.len(),
        line_end(text, from) < text.len() ==> text[line_end(text, from)] == '\n',
        forall|j: int| from <= j < line_end(text, from) ==> text[j] != '\n',
    decreases text.len() - from,
{
    if from < text.len() && text[from] != '\n' {
        lemma_line_end_first(text, from + 1);
    }
}

/// A line ends at `end` where no line feed stands before `end` and one
/// stands there, or the text ends there.
pub proof fn lemma_line_end_is(text: Seq<char>, from: int, end: int)
    requires
        0 <= from <= end <= text.len(),
        forall|j: int| from <= j < end ==> text[j] != '\n',
        end == text.len() || text[end] == '\n',
    ensures
        line_end(text, from) == end,
    decreases end - from,
{
    if from < end {
        lemma_line_end_is(text, from + 1, end);
    }
}

/// The lines from a position on are the lines of what stands from there on.
pub proof fn lemma_lines_shift(text: Seq<char>, k: int, j: int)
    requires
        0 <= k,
        0 <= j,
        k + j <= text.len(),
    ensures
        lines_from(text, k + j) == lines_from(text.skip(k), j),
    decreases text.len() - (k + j),
{
    let rest = text.skip(k);
    if k + j < text.len() {
        lemma_line_end_first(text, k + j);
        let end = line_end(text, k + j);
        assert forall|i: int| j <= i < end - k implies rest[i] != '\n' by {
            assert(rest[i] == text[k + i]);
        }
        lemma_line_end_is(rest, j, end - k);
        assert(rest.subrange(j, end - k) =~= text.subrange(k + j, end));
        if end < text.len() {
            lemma_lines_shift(text, k, end + 1 - k);
        }
    }
}

/// The lines up to and with a line feed are lines of the whole: the lines
/// from `from` on are those of what stands up to and with the line feed at
/// `cut`, and then the lines behind it.
pub proof fn lemma_lines_upto(text: Seq<char>, cut: int, from: int)
    requires
        0 <= from <= cut < text.len(),
        text[cut] == '\n',
    ensures
        lines_from(text, from) == lines_from(text.take(cut + 1), from) + lines_from(
            text,
            cut + 1,
        ),
    decreases cut - from,
{
    let head = text.take(cut + 1);
    lemma_line_end_first(text, from);
    let end = line_end(text, from);
    assert(end <= cut);
    assert forall|i: int| from <= i < end implies head[i] != '\n' by {
        assert(head[i] == text[i]);
    }
    lemma_line_end_is(head, from, end);
    assert(head.subrange(from, end) =~= text.subrange(from, end));
    assert(line_at(head, from) == line_at(text, from));
    if end == cut {
        assert(lines_from(head, cut + 1) =~= Seq::<Seq<char>>::empty());
        assert(lines_from(head, from) =~= seq![line_at(text, from)]);
    } else {
        lemma_lines_upto(text, cut, end + 1);
        assert(seq![line_at(text, from)] + (lines_from(head, end + 1) + lines_from(text, cut + 1))
            =~= (seq![line_at(text, from)] + lines_from(head, end + 1)) + lines_from(
            text,
            cut + 1,
        ));
    }
}

/// The lines of a text that ends with a line feed, and of another text
/// behind it, are the lines of the first and then the lines of the other.
pub proof fn lemma_lines_of_parts(first: Seq<char>, other: Seq<char>)
    requires
        first.len() == 0 || first.last() == '\n',
    ensures
        lines(first + other) == lines(first) + lines(other),
{
    let text = first + other;
    if first.len() == 0 {
        assert(text =~= other);
        assert(lines(first) =~= Seq::<Seq<char>>::empty());
        assert(lines(first) + lines(other) =~= lines(other));
    } else {
        let cut = first.len() - 1;
        assert(text[cut] == first[cut]);
        lemma_lines_upto(text, cut, 0);
        lemma_lines_shift(text, cut + 1, 0);
        assert(text.take(cut + 1) =~= first);
        assert(text.skip(cut + 1) =~= other);
    }
}

/// The bytes of the range from `start` to `end` whose lines are whole: a
/// range that begins at the line feed at which the file was cut begins
/// behind it, and a range that ends at such a line feed ends with it.
pub open spec fn chunk_part(bytes: Seq<u8>, start: int, end: int) -> Seq<u8> {
    let from = if 0 < start < bytes.len() && bytes[start] == LINE_FEED {
        start + 1
    } else {
        start
    };
    let to = if end < bytes.len() && bytes[end] == LINE_FEED {
        end + 1
    } else {
        end
    };
    bytes.subrange(from, to)
}

/// The lines of the range from `start` to `end` of a file: the lines of
/// the text that its whole lines hold.
pub open spec fn lines_of_chunk(bytes: Seq<u8>, start: int, end: int) -> Seq<Seq<char>> {
    lines(vstd::utf8::decode_utf8(chunk_part(bytes, start, end)))
}

/// The lines of the ranges, one range after the other.
pub open spec fn joined_lines(bytes: Seq<u8>, ranges: Seq<(u64, u64)>) -> Seq<Seq<char>>
    decreases ranges.len(),
{
    if ranges.len() == 0 {
        Seq::empty()
    } else {
        joined_lines(bytes, ranges.drop_last()) + lines_of_chunk(
            bytes,
            ranges.last().0 as int,
            ranges.last().1 as int,
        )
    }
}

/// Where the first `k` of the ranges end, with the line feed at which the
/// file was cut.
pub open spec fn border(bytes: Seq<u8>, ranges: Seq<(u64, u64)>, k: int) -> int {
    if k <= 0 {
        0
    } else if k >= ranges.len() {
        bytes.len() as int
    } else {
        ranges[k - 1].1 + 1
    }
}

/// A byte below 128 stands for a character of its own: a character begins
/// at it, and one begins behind it.
pub proof fn lemma_boundary_after_ascii(bytes: Seq<u8>, i: int)
    requires
        vstd::utf8::valid_utf8(bytes),
        0 <= i < bytes.len(),
        bytes[i] <= 0x7f,
    ensures
        vstd::utf8::is_char_boundary(bytes, i),
        vstd::utf8::is_char_boundary(bytes, i + 1),
{
    vstd::utf8::is_char_boundary_iff_not_is_continuation_byte(bytes, i);
    if i + 1 == bytes.len() {
        vstd::utf8::is_char_boundary_start_end_of_seq(bytes);
    } else {
        let sub = bytes.subrange(i, bytes.len() as int);
        vstd::utf8::valid_utf8_split(bytes, i);
        assert(sub[0] == bytes[i]);
        assert(sub[1] == bytes[i + 1]);
        reveal_with_fuel(vstd::utf8::valid_utf8, 2);
        reveal_with_fuel(vstd::utf8::is_char_boundary, 2);
        assert(vstd::utf8::length_of_first_scalar(sub) == 1);
        assert(vstd::utf8::valid_utf8(vstd::utf8::pop_first_scalar(sub)));
        assert(vstd::utf8::is_char_boundary(vstd::utf8::pop_first_scalar(sub), 0));
        assert(vstd::utf8::is_char_boundary(sub, 1));
        vstd::utf8::is_char_boundary_iff_not_is_continuation_byte(sub, 1);
        vstd::utf8::is_char_boundary_iff_not_is_continuation_byte(bytes, i + 1);
    }
}

/// The byte of the line feed stands for the line feed.
pub proof fn lemma_decode_line_feed()
    ensures
        vstd::utf8::valid_utf8(seq![LINE_FEED]),
        vstd::utf8::decode_utf8(seq![LINE_FEED]) == seq!['\n'],
{
    let text = seq!['\n'];
    assert(text.drop_first() =~= Seq::<char>::empty());
    assert(vstd::utf8::encode_utf8(text.drop_first()) =~= Seq::<u8>::empty());
    assert(('\n' as u32) == 10u32);
    assert((10u32 & 0x7F) as u8 == 10u8) by (bit_vector);
    assert(vstd::utf8::encode_scalar('\n' as u32) =~= seq![LINE_FEED]);
    assert(vstd::utf8::encode_utf8(text) =~= seq![LINE_FEED]);
    vstd::utf8::encode_utf8_decode_utf8(text);
    vstd::utf8::encode_utf8_valid_utf8(text);
}

/// What stands up to and with a line feed in a text is a text that ends
/// with a line feed.
pub proof fn lemma_text_upto_line_feed(bytes: Seq<u8>, upto: int)
    requires
        vstd::utf8::valid_utf8(bytes),
        0 < upto <= bytes.len(),
        bytes[upto - 1] == LINE_FEED,
    ensures
        vstd::utf8::is_char_boundary(bytes, upto),
        vstd::utf8::valid_utf8(bytes.take(upto)),
        vstd::utf8::decode_utf8(bytes.take(upto)).len() > 0,
        vstd::utf8::decode_utf8(bytes.take(upto)).last() == '\n',
{
    lemma_boundary_after_ascii(bytes, upto - 1);
    vstd::utf8::valid_utf8_split(bytes, upto);
    let head = bytes.take(upto);
    assert(bytes.subrange(0, upto) =~= head);
    assert(head[upto - 1] == bytes[upto - 1]);
    lemma_boundary_after_ascii(head, upto - 1);
    vstd::utf8::decode_utf8_split(head, upto - 1);
    assert(head.subrange(upto - 1, head.len() as int) =~= seq![LINE_FEED]);
    lemma_decode_line_feed();
    let before = vstd::utf8::decode_utf8(head.subrange(0, upto - 1));
    assert(vstd::utf8::decode_utf8(head) =~= before + seq!['\n']);
}

/// The lines of the first `k` ranges of a chain that is cut at line feeds
/// are the lines of the text up to where these ranges end, and each of the
/// ranges holds a text.
pub proof fn lemma_joined_upto(bytes: Seq<u8>, ranges: Seq<(u64, u64)>, k: int)
    requires
        vstd::utf8::valid_utf8(bytes),
        is_chain(ranges, 0, bytes.len() as int),
        forall|i: int|
            0 <= i < ranges.len() - 1 ==> (#[trigger] ranges[i]).1 < bytes.len()
                && bytes[ranges[i].1 as int] == LINE_FEED,
        0 <= k <= ranges.len(),
    ensures
        vstd::utf8::valid_utf8(bytes.take(border(bytes, ranges, k))),
        joined_lines(bytes, ranges.take(k)) == lines(
            vstd::utf8::decode_utf8(bytes.take(border(bytes, ranges, k))),
        ),
        forall|i: int|
            0 <= i < k ==> vstd::utf8::valid_utf8(
                chunk_part(bytes, (#[trigger] ranges[i]).0 as int, ranges[i].1 as int),
            ),
    decreases k,
{
    if k == 0 {
        assert(bytes.take(0) =~= Seq::<u8>::empty());
        assert(vstd::utf8::decode_utf8(Seq::<u8>::empty()) =~= Seq::<char>::empty());
        assert(lines(Seq::<char>::empty()) =~= Seq::<Seq<char>>::empty());
    } else {
        lemma_joined_upto(bytes, ranges, k - 1);
        let first = ranges.take(k);
        assert(first.drop_last() =~= ranges.take(k - 1));
        assert(first.last() == ranges[k - 1]);
        let lo = border(bytes, ranges, k - 1);
        let hi = border(bytes, ranges, k);
        let start = ranges[k - 1].0 as int;
        let end = ranges[k - 1].1 as int;
        assert(start < end);
        if k - 1 > 0 {
            assert(ranges[k - 2].1 == ranges[k - 1].0);
            assert(bytes[ranges[k - 2].1 as int] == LINE_FEED);
        }
        if k < ranges.len() {
            assert(bytes[ranges[k - 1].1 as int] == LINE_FEED);
            lemma_text_upto_line_feed(bytes, hi);
        } else {
            assert(ranges[k - 1] == ranges.last());
            assert(bytes.take(hi) =~= bytes);
        }
        let part = chunk_part(bytes, start, end);
        assert(part == bytes.subrange(lo, hi));
        let head = bytes.take(hi);
        let before = vstd::utf8::decode_utf8(bytes.take(lo));
        if lo == 0 {
            assert(part =~= head);
            assert(bytes.take(0) =~= Seq::<u8>::empty());
            assert(before =~= Seq::<char>::empty());
            assert(lines(before) =~= Seq::<Seq<char>>::empty());
            assert(lines(before) + lines(vstd::utf8::decode_utf8(head)) =~= lines(
                vstd::utf8::decode_utf8(head),
            ));
        } else {
            assert(head[lo - 1] == bytes[lo - 1]);
            lemma_text_upto_line_feed(head, lo);
            vstd::utf8::valid_utf8_split(head, lo);
            vstd::utf8::decode_utf8_split(head, lo);
            assert(head.take(lo) =~= bytes.take(lo));
            assert(head.subrange(0, lo) =~= bytes.take(lo));
            assert(head.subrange(lo, head.len() as int) =~= part);
            lemma_lines_of_parts(before, vstd::utf8::decode_utf8(part));
        }
        assert forall|i: int| 0 <= i < k implies vstd::utf8::valid_utf8(
            chunk_part(bytes, (#[trigger] ranges[i]).0 as int, ranges[i].1 as int),
        ) by {
            if i == k - 1 {
                assert(vstd::utf8::valid_utf8(part));
            }
        }
    }
}

/// Every line of a file is a line of exactly one of the ranges into which
/// the file is cut: in a file that holds a text and ends with a line feed,
/// each range holds a text, and the lines of the ranges, one range after
/// the other, are the lines of the file.
pub proof fn lemma_chunk_lines_join(bytes: Seq<u8>, target_size: u64)
    requires
        target_size >= 1,
        0 < bytes.len() <= u64::MAX,
        bytes.last() == LINE_FEED,
        vstd::utf8::valid_utf8(bytes),
    ensures
        joined_lines(bytes, chunks_of(bytes, target_size)) == lines(
            vstd::utf8::decode_utf8(bytes),
        ),
        forall|i: int|
            0 <= i < chunks_of(bytes, target_size).len() ==> vstd::utf8::valid_utf8(
                chunk_part(
                    bytes,
                    (#[trigger] chunks_of(bytes, target_size)[i]).0 as int,
                    chunks_of(bytes, target_size)[i].1 as int,
                ),
            ),
{
    let ranges = chunks_of(bytes, target_size);
    lemma_chunks_partition(bytes, target_size);
    assert forall|i: int| 0 <= i < ranges.len() - 1 implies (#[trigger] ranges[i]).1 < bytes.len()
        && bytes[ranges[i].1 as int] == LINE_FEED by {
        lemma_chunks_meet_at_line_feeds(bytes, target_size, i);
    }
    lemma_joined_upto(bytes, ranges, ranges.len() as int);
    assert(ranges.take(ranges.len() as int) =~= ranges);
    assert(bytes.take(bytes.len() as int) =~= bytes);
}

/// The lines of the range from `start` to `end` of a file; `None` where
/// the range holds no text. A range that begins at the line feed at which
/// the file was cut has no empty line for it: that line feed ends the last
/// line of the range before.
pub fn chunk_lines(bytes: &[u8], start: u64, end: u64) -> (r: Option<Vec<String>>)
    requires
        start <= end <= bytes@.len(),
    ensures
        match r {
            Some(found) => vstd::utf8::valid_utf8(chunk_part(bytes@, start as int, end as int))
                && texts(found@) == lines_of_chunk(bytes@, start as int, end as int),
            None => !vstd::utf8::valid_utf8(chunk_part(bytes@, start as int, end as int)),
        },
{
    let len = bytes.len();
    let from: usize = if 0 < start && (start as usize) < len && bytes[start as usize] == LINE_FEED {
        start as usize + 1
    } else {
        start as usize
    };
    let to: usize = if (end as usize) < len && bytes[end as usize] == LINE_FEED {
        end as usize + 1
    } else {
        end as usize
    };
    let part = vstd::slice::slice_to_vec(vstd::slice::slice_subrange(bytes, from, to));
    assert(part@ =~= chunk_part(bytes@, start as int, end as int));
    match text_of_bytes(part) {
        Some(text) => {
            let mut view = LineView::from_buf(text.as_str());
            Some(view.collect())
        },
        None => None,
    }
}

} // verus!
