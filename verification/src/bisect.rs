//! Cutting a buffer of lines into ranges of bytes by bisection.
//!
//! A range is cut at the first line feed at or after its middle, and each
//! half is cut again until one of the two halves is no longer than the
//! target size.

use vstd::prelude::*;

verus! {

/// The line feed.
pub const LINE_FEED: u8 = 10;

/// Why a buffer could not be cut.
#[derive(Clone, Copy, Debug, PartialEq, Eq)]
pub enum BisectError {
    /// The middle of the range lies behind the end of the buffer.
    UnexpectedEof,
}

/// The position of the first line feed at or after `probe`, or the last
/// position of the buffer where none follows.
pub open spec fn next_line_feed(bytes: Seq<u8>, probe: int) -> int
    decreases bytes.len() - probe,
{
    if probe + 1 >= bytes.len() || bytes[probe] == LINE_FEED {
        probe
    } else {
        next_line_feed(bytes, probe + 1)
    }
}

/// The middle of the range from `start` to `end`.
pub open spec fn middle(start: u64, end: u64) -> int {
    start + (end - start) / 2
}

/// Where the range from `start` to `end` is cut.
pub open spec fn bisector(bytes: Seq<u8>, start: u64, end: u64) -> u64 {
    next_line_feed(bytes, middle(start, end)) as u64
}

/// A position at which a range may end: a line feed stands there, or it is
/// the end of the buffer or its last position.
pub open spec fn is_cut(bytes: Seq<u8>, at: int) -> bool {
    &&& 0 <= at <= bytes.len()
    &&& (at + 1 >= bytes.len() || bytes[at] == LINE_FEED)
}

/// The ranges into which the range from `start` to `end` is cut.
pub open spec fn chunks_between(bytes: Seq<u8>, target_size: u64, start: u64, end: u64) -> Seq<
    (u64, u64),
>
    decreases end - start,
{
    if end - start <= target_size {
        seq![(start, end)]
    } else {
        let b = bisector(bytes, start, end);
        if end - b <= target_size || b - start <= target_size {
            if b != end {
                seq![(start, b), (b, end)]
            } else {
                seq![(start, b)]
            }
        } else {
            chunks_between(bytes, target_size, start, b) + chunks_between(
                bytes,
                target_size,
                b,
                end,
            )
        }
    }
}

/// The ranges into which a whole buffer is cut: none where the buffer is
/// empty, and one where it is no longer than twice the target size.
pub open spec fn chunks_of(bytes: Seq<u8>, target_size: u64) -> Seq<(u64, u64)> {
    if bytes.len() == 0 {
        Seq::empty()
    } else if bytes.len() <= 2 * target_size {
        seq![(0u64, bytes.len() as u64)]
    } else {
        chunks_between(bytes, target_size, 0, bytes.len() as u64)
    }
}

/// The number of bytes that the ranges hold together.
pub open spec fn covered(ranges: Seq<(u64, u64)>) -> int
    decreases ranges.len(),
{
    if ranges.len() == 0 {
        0
    } else {
        covered(ranges.drop_last()) + (ranges.last().1 - ranges.last().0)
    }
}

/// The ranges lead from `start` to `end` without a gap: the first begins at
/// `start`, each begins where the one before it ends, the last ends at `end`,
/// and none is empty.
pub open spec fn is_chain(ranges: Seq<(u64, u64)>, start: int, end: int) -> bool {
    &&& ranges.len() > 0
    &&& ranges[0].0 == start
    &&& ranges.last().1 == end
    &&& forall|i: int| 0 <= i < ranges.len() ==> (#[trigger] ranges[i]).0 < ranges[i].1
    &&& forall|i: int| 0 <= i < ranges.len() - 1 ==> (#[trigger] ranges[i]).1 == ranges[i + 1].0
}

/// Each range but the last ends at a cut.
pub open spec fn ends_at_cuts(bytes: Seq<u8>, ranges: Seq<(u64, u64)>) -> bool {
    forall|i: int| 0 <= i < ranges.len() - 1 ==> is_cut(bytes, (#[trigger] ranges[i]).1 as int)
}

/// The first line feed at or after `probe` is not before `probe`, is in the
/// buffer, and is not behind any cut that follows `probe`.
pub proof fn lemma_next_line_feed(bytes: Seq<u8>, probe: int, cut: int)
    requires
        0 <= probe < bytes.len(),
        probe <= cut,
        is_cut(bytes, cut),
    ensures
        probe <= next_line_feed(bytes, probe) <= cut,
        next_line_feed(bytes, probe) < bytes.len(),
        is_cut(bytes, next_line_feed(bytes, probe)),
    decreases bytes.len() - probe,
{
    if probe + 1 >= bytes.len() || bytes[probe] == LINE_FEED {
    } else {
        lemma_next_line_feed(bytes, probe + 1, cut);
    }
}

/// Two chains that meet make one chain, and hold the bytes of both.
pub proof fn lemma_chain_join(
    left: Seq<(u64, u64)>,
    right: Seq<(u64, u64)>,
    start: int,
    mid: int,
    end: int,
)
    requires
        is_chain(left, start, mid),
        is_chain(right, mid, end),
    ensures
        is_chain(left + right, start, end),
        covered(left + right) == covered(left) + covered(right),
    decreases right.len(),
{
    let all = left + right;
    assert forall|i: int| 0 <= i < all.len() - 1 implies (#[trigger] all[i]).1 == all[i + 1].0 by {
        if i < left.len() - 1 {
            assert(all[i] == left[i]);
        } else if i == left.len() - 1 {
            assert(all[i] == left.last());
            assert(all[i + 1] == right[0]);
        } else {
            assert(all[i] == right[i - left.len()]);
            assert(all[i + 1] == right[i - left.len() + 1]);
        }
    }
    lemma_covered_concat(left, right);
}

/// The bytes of two lists of ranges add up.
pub proof fn lemma_covered_concat(left: Seq<(u64, u64)>, right: Seq<(u64, u64)>)
    ensures
        covered(left + right) == covered(left) + covered(right),
    decreases right.len(),
{
    if right.len() == 0 {
        assert(left + right =~= left);
    } else {
        assert((left + right).drop_last() =~= left + right.drop_last());
        lemma_covered_concat(left, right.drop_last());
    }
}

/// A chain from `start` to `end` holds `end - start` bytes.
pub proof fn lemma_chain_covers(ranges: Seq<(u64, u64)>, start: int, end: int)
    requires
        is_chain(ranges, start, end),
    ensures
        covered(ranges) == end - start,
    decreases ranges.len(),
{
    if ranges.len() == 1 {
        assert(covered(ranges.drop_last()) == 0);
    } else {
        let front = ranges.drop_last();
        let k = ranges.len() - 2;
        assert(ranges[k].1 == ranges[k + 1].0);
        assert(front.last() == ranges[k]);
        assert forall|i: int| 0 <= i < front.len() - 1 implies (#[trigger] front[i]).1 == front[i
            + 1].0 by {
            assert(front[i] == ranges[i]);
            assert(front[i + 1] == ranges[i + 1]);
        }
        lemma_chain_covers(front, start, ranges.last().0 as int);
    }
}

/// The ranges cut from a range that ends at a cut lead from its start to its
/// end without a gap, none is empty, and each ends at a cut.
pub proof fn lemma_chunks_between(bytes: Seq<u8>, target_size: u64, start: u64, end: u64)
    requires
        target_size >= 1,
        start < end <= bytes.len(),
        is_cut(bytes, end as int),
    ensures
        is_chain(chunks_between(bytes, target_size, start, end), start as int, end as int),
        ends_at_cuts(bytes, chunks_between(bytes, target_size, start, end)),
    decreases end - start,
{
    if end - start <= target_size {
    } else {
        lemma_next_line_feed(bytes, middle(start, end), end as int);
        let b = bisector(bytes, start, end);
        if end - b <= target_size || b - start <= target_size {
        } else {
            let left = chunks_between(bytes, target_size, start, b);
            let right = chunks_between(bytes, target_size, b, end);
            lemma_chunks_between(bytes, target_size, start, b);
            lemma_chunks_between(bytes, target_size, b, end);
            lemma_chain_join(left, right, start as int, b as int, end as int);
            let all = left + right;
            assert forall|i: int| 0 <= i < all.len() - 1 implies is_cut(
                bytes,
                (#[trigger] all[i]).1 as int,
            ) by {
                if i < left.len() - 1 {
                    assert(all[i] == left[i]);
                } else if i == left.len() - 1 {
                    assert(all[i] == left.last());
                } else {
                    assert(all[i] == right[i - left.len()]);
                }
            }
        }
    }
}

/// The ranges cut from a buffer that is not empty hold each of its bytes
/// once: they lead from its start to its end without a gap and hold as many
/// bytes as the buffer, none is empty, and two neighbours meet at a line feed
/// or at the last position of the buffer.
pub proof fn lemma_chunks_partition(bytes: Seq<u8>, target_size: u64)
    requires
        target_size >= 1,
        0 < bytes.len() <= u64::MAX,
    ensures
        is_chain(chunks_of(bytes, target_size), 0, bytes.len() as int),
        covered(chunks_of(bytes, target_size)) == bytes.len(),
        ends_at_cuts(bytes, chunks_of(bytes, target_size)),
{
    if bytes.len() <= 2 * target_size {
    } else {
        lemma_chunks_between(bytes, target_size, 0, bytes.len() as u64);
    }
    lemma_chain_covers(chunks_of(bytes, target_size), 0, bytes.len() as int);
}

/// In a buffer that ends with a line feed every two neighbours meet at a
/// line feed.
pub proof fn lemma_chunks_meet_at_line_feeds(bytes: Seq<u8>, target_size: u64, i: int)
    requires
        target_size >= 1,
        0 < bytes.len() <= u64::MAX,
        bytes.last() == LINE_FEED,
        0 <= i < chunks_of(bytes, target_size).len() - 1,
    ensures
        chunks_of(bytes, target_size)[i].1 == chunks_of(bytes, target_size)[i + 1].0,
        chunks_of(bytes, target_size)[i].1 < bytes.len(),
        bytes[chunks_of(bytes, target_size)[i].1 as int] == LINE_FEED,
{
    lemma_chunks_partition(bytes, target_size);
    let r = chunks_of(bytes, target_size);
    assert(is_cut(bytes, r[i].1 as int));
    assert(r[i + 1].0 < r[i + 1].1);
    lemma_chain_bounded(r, 0, bytes.len() as int, i + 1);
}

/// No range is empty, and the ranges hold as many bytes as the buffer: an
/// empty buffer has no range.
pub proof fn lemma_no_range_is_empty(bytes: Seq<u8>, target_size: u64)
    requires
        target_size >= 1,
        bytes.len() <= u64::MAX,
    ensures
        forall|i: int|
            0 <= i < chunks_of(bytes, target_size).len() ==> (#[trigger] chunks_of(
                bytes,
                target_size,
            )[i]).0 < chunks_of(bytes, target_size)[i].1,
        covered(chunks_of(bytes, target_size)) == bytes.len(),
        bytes.len() == 0 <==> chunks_of(bytes, target_size).len() == 0,
{
    if bytes.len() > 0 {
        lemma_chunks_partition(bytes, target_size);
    }
}

/// Every range of a chain lies between its start and its end.
pub proof fn lemma_chain_bounded(ranges: Seq<(u64, u64)>, start: int, end: int, i: int)
    requires
        is_chain(ranges, start, end),
        0 <= i < ranges.len(),
    ensures
        start <= ranges[i].0,
        ranges[i].1 <= end,
    decreases ranges.len() - i,
{
    if i < ranges.len() - 1 {
        lemma_chain_bounded(ranges, start, end, i + 1);
        assert(ranges[i].1 == ranges[i + 1].0);
        assert(ranges[i + 1].0 < ranges[i + 1].1);
    }
    lemma_chain_from_start(ranges, start, end, i);
}

/// The ranges of a chain begin at or after its start.
proof fn lemma_chain_from_start(ranges: Seq<(u64, u64)>, start: int, end: int, i: int)
    requires
        is_chain(ranges, start, end),
        0 <= i < ranges.len(),
    ensures
        start <= ranges[i].0,
    decreases i,
{
    if i > 0 {
        lemma_chain_from_start(ranges, start, end, i - 1);
        assert(ranges[i - 1].1 == ranges[i].0);
        assert(ranges[i - 1].0 < ranges[i - 1].1);
    }
}

/// Where the range from `with_start` to `with_end` of `buf` is cut: at the
/// first line feed at or after its middle, or at the last position of the
/// buffer where no line feed follows. Fails where the middle lies behind the
/// end of the buffer.
pub fn bisect_buffer_with_bounds(buf: &[u8], with_start: u64, with_end: u64) -> (r: Result<
    u64,
    BisectError,
>)
    requires
        with_start < with_end,
    ensures
        middle(with_start, with_end) >= buf@.len() ==> r == Err::<u64, BisectError>(
            BisectError::UnexpectedEof,
        ),
        middle(with_start, with_end) < buf@.len() ==> r == Ok::<u64, BisectError>(
            bisector(buf@, with_start, with_end),
        ) && r->Ok_0 == next_line_feed(buf@, middle(with_start, with_end)),
{
    let mid: u64 = with_start + (with_end - with_start) / 2;
    if mid >= buf.len() as u64 {
        return Err(BisectError::UnexpectedEof);
    }
    let mut at: usize = mid as usize;
    while at + 1 < buf.len() && buf[at] != LINE_FEED
        invariant
            mid <= at < buf.len(),
            next_line_feed(buf@, mid as int) == next_line_feed(buf@, at as int),
        decreases buf.len() - at,
    {
        at += 1;
    }
    Ok(at as u64)
}

/// Cuts the range from `start` to `end` of `buf` and appends its ranges to
/// `curr`.
pub fn bisect_buffer_recursive_impl(
    buf: &[u8],
    curr: &mut Vec<(u64, u64)>,
    target_size: u64,
    start: u64,
    end: u64,
)
    requires
        start <= end <= buf@.len(),
        is_cut(buf@, end as int),
    ensures
        final(curr)@ == old(curr)@ + chunks_between(buf@, target_size, start, end),
    decreases end - start,
{
    if end - start <= target_size {
        curr.push((start, end));
        assert(curr@ =~= old(curr)@ + seq![(start, end)]);
        return ;
    }
    proof {
        lemma_next_line_feed(buf@, middle(start, end), end as int);
    }
    let b: u64 = match bisect_buffer_with_bounds(buf, start, end) {
        Ok(b) => b,
        Err(_) => end,
    };
    if end - b <= target_size || b - start <= target_size {
        curr.push((start, b));
        if b != end {
            curr.push((b, end));
            assert(curr@ =~= old(curr)@ + seq![(start, b), (b, end)]);
        } else {
            assert(curr@ =~= old(curr)@ + seq![(start, b)]);
        }
        return ;
    }
    bisect_buffer_recursive_impl(buf, curr, target_size, start, b);
    bisect_buffer_recursive_impl(buf, curr, target_size, b, end);
    assert(curr@ =~= old(curr)@ + (chunks_between(buf@, target_size, start, b) + chunks_between(
        buf@,
        target_size,
        b,
        end,
    )));
}

/// The ranges into which `buf` is cut for chunks of about `target_size`
/// bytes. No range is empty: an empty buffer gives no range.
pub fn bisect_buffer_recursive(buf: &[u8], target_size: u64) -> (r: Vec<(u64, u64)>)
    requires
        target_size >= 1,
    ensures
        r@ == chunks_of(buf@, target_size),
        buf@.len() == 0 ==> r@.len() == 0,
        forall|i: int| 0 <= i < r@.len() ==> (#[trigger] r@[i]).0 < r@[i].1,
        buf@.len() > 0 ==> is_chain(r@, 0, buf@.len() as int) && covered(r@) == buf@.len()
            && ends_at_cuts(buf@, r@),
{
    let end: u64 = buf.len() as u64;
    if end == 0 {
        return Vec::new();
    }
    proof {
        lemma_chunks_partition(buf@, target_size);
    }
    if end - end / 2 <= target_size {
        let mut one: Vec<(u64, u64)> = Vec::new();
        one.push((0, end));
        assert(one@ =~= seq![(0u64, end)]);
        return one;
    }
    let mut curr: Vec<(u64, u64)> = Vec::new();
    bisect_buffer_recursive_impl(buf, &mut curr, target_size, 0, end);
    assert(curr@ =~= chunks_between(buf@, target_size, 0, end));
    curr
}

} // verus!
