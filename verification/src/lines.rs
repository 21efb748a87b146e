//! Line counting: a kernel over one byte window, an aggregator for the
//! partial counts, and the engine that runs both over planned ranges.
//!
//! A line is counted per terminator byte; a final line without a terminator
//! is not counted, and no terminator is synthesized at the end of a window
//! or of the file, so the convention is independent of range boundaries.

use crate::planner::covered_upto;
use crate::planner::plan_ranges;
use crate::planner::ranges_linked;
use crate::planner::ByteRange;
use vstd::prelude::*;
use vstd::slice::slice_subrange;

verus! {

/// The line terminator byte.
pub const LINE_TERMINATOR: u8 = 10;

/// Number of line-terminator bytes in a window.
pub open spec fn spec_line_count(s: Seq<u8>) -> nat
    decreases s.len(),
{
    if s.len() == 0 {
        0
    } else {
        spec_line_count(s.drop_last()) + if s.last() == LINE_TERMINATOR {
            1nat
        } else {
            0nat
        }
    }
}

/// A window holds at least as many bytes as terminators.
pub proof fn lemma_line_count_le_len(s: Seq<u8>)
    ensures
        spec_line_count(s) <= s.len(),
    decreases s.len(),
{
    if s.len() > 0 {
        lemma_line_count_le_len(s.drop_last());
    }
}

/// Terminators in adjacent windows add up: no boundary placement changes
/// the line count.
pub proof fn lemma_line_count_concat(a: Seq<u8>, b: Seq<u8>)
    ensures
        spec_line_count(a + b) == spec_line_count(a) + spec_line_count(b),
    decreases b.len(),
{
    if b.len() == 0 {
        assert(a + b =~= a);
    } else {
        assert((a + b).drop_last() =~= a + b.drop_last());
        lemma_line_count_concat(a, b.drop_last());
    }
}

/// The line kernel: one pass over a byte window, counting terminators.
pub fn count_lines_in_window(window: &[u8]) -> (count: u64)
    ensures
        count == spec_line_count(window@),
{
    let mut count: u64 = 0;
    let mut i: usize = 0;
    while i < window.len()
        invariant
            i <= window@.len(),
            count == spec_line_count(window@.take(i as int)),
            count <= i,
        decreases window@.len() - i,
    {
        proof {
            assert(window@.take(i as int + 1).drop_last() =~= window@.take(i as int));
        }
        if window[i] == LINE_TERMINATOR {
            count = count + 1;
        }
        i = i + 1;
    }
    proof {
        assert(window@.take(window@.len() as int) =~= window@);
    }
    count
}

/// Sum of a sequence of partial counts, as a mathematical integer.
pub open spec fn spec_sum(counts: Seq<u64>) -> int
    decreases counts.len(),
{
    if counts.len() == 0 {
        0
    } else {
        spec_sum(counts.drop_last()) + counts.last()
    }
}

/// Partial counts are nonnegative, so a prefix never sums to more than the
/// whole sequence.
pub proof fn lemma_spec_sum_prefix_le(counts: Seq<u64>, n: int)
    requires
        0 <= n <= counts.len(),
    ensures
        spec_sum(counts.take(n)) <= spec_sum(counts),
    decreases counts.len() - n,
{
    if n == counts.len() {
        assert(counts.take(n) =~= counts);
    } else {
        lemma_spec_sum_prefix_le(counts, n + 1);
        assert(counts.take(n + 1).drop_last() =~= counts.take(n));
    }
}

/// The aggregator for line counts: adds every partial result once, in any
/// order the workers delivered them; `None` exactly when the total does not
/// fit in a `u64`.
pub fn total_lines(parts: &Vec<u64>) -> (total: Option<u64>)
    ensures
        match total {
            Some(t) => t == spec_sum(parts@),
            None => spec_sum(parts@) > u64::MAX,
        },
{
    let mut acc: u64 = 0;
    let mut i: usize = 0;
    while i < parts.len()
        invariant
            i <= parts@.len(),
            acc == spec_sum(parts@.take(i as int)),
        decreases parts@.len() - i,
    {
        let p = parts[i];
        proof {
            assert(parts@.take(i as int + 1).drop_last() =~= parts@.take(i as int));
        }
        if p > u64::MAX - acc {
            proof {
                lemma_spec_sum_prefix_le(parts@, i as int + 1);
            }
            return None;
        }
        acc = acc + p;
        i = i + 1;
    }
    proof {
        assert(parts@.take(parts@.len() as int) =~= parts@);
    }
    Some(acc)
}

/// Kernel results over linked ranges add up to the line count of the bytes
/// the ranges cover: splitting the scan over disjoint windows loses nothing
/// and counts nothing twice.
pub proof fn lemma_line_partition(content: Seq<u8>, ranges: Seq<ByteRange>, parts: Seq<u64>)
    requires
        ranges_linked(ranges),
        parts.len() == ranges.len(),
        covered_upto(ranges) <= content.len(),
        forall|i: int|
            0 <= i < ranges.len() ==> parts[i] == spec_line_count(
                content.subrange((#[trigger] ranges[i]).start as int, ranges[i].end as int),
            ),
    ensures
        spec_sum(parts) == spec_line_count(content.take(covered_upto(ranges))),
    decreases ranges.len(),
{
    if ranges.len() == 0 {
        assert(content.take(0) =~= Seq::<u8>::empty());
    } else {
        let rp = ranges.drop_last();
        let pp = parts.drop_last();
        assert(ranges_linked(rp)) by {
            assert(forall|i: int| 0 <= i < rp.len() ==> rp[i] == ranges[i]);
        }
        assert(covered_upto(rp) == ranges.last().start);
        lemma_line_partition(content, rp, pp);
        let a = content.take(covered_upto(rp));
        let b = content.subrange(ranges.last().start as int, ranges.last().end as int);
        lemma_line_count_concat(a, b);
        assert(a + b =~= content.take(covered_upto(ranges)));
    }
}

/// The full line-counting flow on an in-memory window of the file: plan the
/// ranges, run the kernel on each window, and aggregate. The result equals
/// a sequential single-pass scan of the same bytes, whatever the worker
/// count or block size.
pub fn count_lines(content: &[u8], workers: u64, block_size: u64) -> (count: u64)
    requires
        workers >= 1,
        block_size >= 1,
    ensures
        count == spec_line_count(content@),
{
    let len: usize = content.len();
    let file_size: u64 = len as u64;
    let ranges = plan_ranges(file_size, workers, block_size);
    let mut parts: Vec<u64> = Vec::new();
    let mut k: usize = 0;
    while k < ranges.len()
        invariant
            content@.len() == file_size as int,
            file_size as int <= usize::MAX as int,
            ranges_linked(ranges@),
            forall|i: int| 0 <= i < ranges@.len() ==> (#[trigger] ranges@[i]).end <= file_size,
            k <= ranges@.len(),
            parts@.len() == k as int,
            forall|j: int|
                0 <= j < k ==> parts@[j] == spec_line_count(
                    content@.subrange((#[trigger] ranges@[j]).start as int, ranges@[j].end as int),
                ),
        decreases ranges@.len() - k,
    {
        let r = ranges[k];
        proof {
            assert(ranges@[k as int].start <= ranges@[k as int].end);
            assert(ranges@[k as int].end <= file_size);
        }
        let window = slice_subrange(content, r.start as usize, r.end as usize);
        let c = count_lines_in_window(window);
        parts.push(c);
        k = k + 1;
    }
    proof {
        lemma_line_partition(content@, ranges@, parts@);
        assert(content@.take(covered_upto(ranges@)) =~= content@);
        lemma_line_count_le_len(content@);
    }
    match total_lines(&parts) {
        Some(t) => t,
        None => {
            proof {
                assert(false);
            }
            0
        },
    }
}

/// Repeated runs over unmodified content return identical counts: the
/// contract of `count_lines` determines the result from the bytes alone.
pub proof fn lemma_line_count_repeatable(first: u64, second: u64, content: Seq<u8>)
    requires
        first == spec_line_count(content),
        second == spec_line_count(content),
    ensures
        first == second,
{
}

} // verus!
