//! Splits `[0, file_size)` into adjacent byte ranges, one per worker.
//!
//! The planner quantizes the file into fixed-size blocks, hands each worker
//! a whole number of blocks (the first `total_blocks % workers` workers get
//! one extra), and clamps every range end to the file size, so that the
//! ranges are pairwise disjoint, directly adjacent, and union to exactly
//! `[0, file_size)`.

use vstd::arithmetic::div_mod::lemma_fundamental_div_mod;
use vstd::prelude::*;

verus! {

/// A half-open window `[start, end)` of file offsets, assigned to exactly
/// one worker.
#[derive(Clone, Copy, Debug, PartialEq, Eq, Structural)]
pub struct ByteRange {
    pub start: u64,
    pub end: u64,
}

/// Each range is well formed, the first starts at offset 0, and each later
/// range begins exactly where the previous one ended (no gap, no overlap).
pub open spec fn ranges_linked(ranges: Seq<ByteRange>) -> bool {
    &&& forall|i: int| 0 <= i < ranges.len() ==> (#[trigger] ranges[i]).start <= ranges[i].end
    &&& ranges.len() > 0 ==> ranges[0].start == 0
    &&& forall|i: int| 1 <= i < ranges.len() ==> (#[trigger] ranges[i]).start == ranges[i - 1].end
}

/// The first offset not covered by a linked sequence of ranges.
pub open spec fn covered_upto(ranges: Seq<ByteRange>) -> int {
    if ranges.len() == 0 {
        0
    } else {
        ranges.last().end as int
    }
}

/// Whether an offset falls inside a range.
pub open spec fn range_contains(r: ByteRange, off: int) -> bool {
    r.start <= off < r.end
}

/// Whether some range of the sequence contains the offset.
pub open spec fn offset_covered(ranges: Seq<ByteRange>, off: int) -> bool {
    exists|i: int| 0 <= i < ranges.len() && #[trigger] range_contains(ranges[i], off)
}

/// Computes the ordered list of worker ranges for a file of `file_size`
/// bytes: `ceil(file_size / block_size)` blocks are split as evenly as
/// possible over `workers` ranges, range ends are clamped to `file_size`,
/// and an empty file gets a single empty range.
pub fn plan_ranges(file_size: u64, workers: u64, block_size: u64) -> (ranges: Vec<ByteRange>)
    requires
        workers >= 1,
        block_size >= 1,
    ensures
        ranges_linked(ranges@),
        ranges@.len() == if file_size == 0 { 1int } else { workers as int },
        ranges@[0].start == 0,
        ranges@.last().end == file_size,
        forall|i: int| 0 <= i < ranges@.len() ==> (#[trigger] ranges@[i]).end <= file_size,
{
    let mut ranges: Vec<ByteRange> = Vec::new();
    if file_size == 0 {
        ranges.push(ByteRange { start: 0, end: 0 });
        return ranges;
    }
    let total_blocks: u64 = 1 + (file_size - 1) / block_size;
    let base: u64 = total_blocks / workers;
    let rem: u64 = total_blocks % workers;
    proof {
        lemma_fundamental_div_mod(total_blocks as int, workers as int);
        lemma_fundamental_div_mod((file_size - 1) as int, block_size as int);
        assert(total_blocks as int * block_size as int >= file_size as int) by (nonlinear_arith)
            requires
                total_blocks as int == 1 + ((file_size - 1) as int) / (block_size as int),
                (file_size - 1) as int == (block_size as int) * (((file_size - 1) as int) / (
                block_size as int)) + ((file_size - 1) as int) % (block_size as int),
                0 <= ((file_size - 1) as int) % (block_size as int) < block_size as int,
                block_size >= 1,
                file_size >= 1,
        ;
    }
    let mut handed: u64 = 0;
    let mut cursor: u64 = 0;
    let mut k: u64 = 0;
    while k < workers
        invariant
            1 <= workers,
            1 <= block_size,
            1 <= file_size,
            k <= workers,
            rem < workers,
            ranges@.len() == k as int,
            handed as int + (workers - k) as int * (base as int) + (if k < rem {
                (rem - k) as int
            } else {
                0int
            }) == total_blocks as int,
            total_blocks as int * block_size as int >= file_size as int,
            cursor as int == (if handed as int * block_size as int >= file_size as int {
                file_size as int
            } else {
                handed as int * block_size as int
            }),
            ranges_linked(ranges@),
            k > 0 ==> ranges@.last().end == cursor,
            k == 0 ==> cursor == 0,
            forall|i: int| 0 <= i < ranges@.len() ==> (#[trigger] ranges@[i]).end <= file_size,
        decreases workers - k,
    {
        proof {
            assert((workers - k) as int * (base as int) >= base as int) by (nonlinear_arith)
                requires
                    workers - k >= 1,
                    base >= 0,
            ;
            assert((workers - k) as int * (base as int) == (workers - (k + 1)) as int * (
            base as int) + base as int) by (nonlinear_arith)
                requires
                    0 <= k < workers,
            ;
        }
        let blocks: u64 = if k < rem {
            base + 1
        } else {
            base
        };
        let prev_handed: Ghost<u64> = Ghost(handed);
        handed = handed + blocks;
        proof {
            assert((handed as int) * (block_size as int) <= u128::MAX as int) by (nonlinear_arith)
                requires
                    0 <= handed as int <= u64::MAX as int,
                    0 <= block_size as int <= u64::MAX as int,
            ;
        }
        let scaled: u128 = (handed as u128) * (block_size as u128);
        let end: u64 = if scaled >= file_size as u128 {
            file_size
        } else {
            scaled as u64
        };
        proof {
            assert(prev_handed@ as int * block_size as int <= handed as int * block_size as int)
                by (nonlinear_arith)
                requires
                    prev_handed@ as int <= handed as int,
                    block_size as int >= 0,
            ;
        }
        ranges.push(ByteRange { start: cursor, end });
        cursor = end;
        k = k + 1;
    }
    proof {
        assert((workers - k) as int * (base as int) == 0) by (nonlinear_arith)
            requires
                workers == k,
        ;
    }
    ranges
}

/// Every offset below `file_size` lies in some range of a linked sequence
/// that reaches `file_size`: the ranges' union is all of `[0, file_size)`.
/// Together with `lemma_ranges_disjoint`, the planner's output partitions
/// the file with no gap and no overlap.
pub proof fn lemma_ranges_cover(ranges: Seq<ByteRange>, file_size: int)
    requires
        ranges_linked(ranges),
        ranges.len() >= 1,
        ranges.last().end == file_size,
    ensures
        forall|off: int| 0 <= off < file_size ==> #[trigger] offset_covered(ranges, off),
    decreases ranges.len(),
{
    if ranges.len() == 1 {
        assert forall|off: int| 0 <= off < file_size implies #[trigger] offset_covered(
            ranges,
            off,
        ) by {
            assert(range_contains(ranges[0], off));
        }
    } else {
        let prefix = ranges.drop_last();
        assert(ranges_linked(prefix)) by {
            assert(forall|i: int| 0 <= i < prefix.len() ==> prefix[i] == ranges[i]);
        }
        let mid = prefix.last().end as int;
        lemma_ranges_cover(prefix, mid);
        assert(ranges.last().start == mid);
        assert forall|off: int| 0 <= off < file_size implies #[trigger] offset_covered(
            ranges,
            off,
        ) by {
            if off < mid {
                assert(offset_covered(prefix, off));
                let i = choose|i: int|
                    0 <= i < prefix.len() && #[trigger] range_contains(prefix[i], off);
                assert(range_contains(ranges[i], off));
            } else {
                assert(range_contains(ranges[ranges.len() - 1], off));
            }
        }
    }
}

/// Ranges of a linked sequence never overlap: an earlier range ends at or
/// before a later one starts, so no offset lies in two ranges.
pub proof fn lemma_ranges_disjoint(ranges: Seq<ByteRange>, i: int, j: int)
    requires
        ranges_linked(ranges),
        0 <= i < j < ranges.len(),
    ensures
        ranges[i].end <= ranges[j].start,
    decreases j - i,
{
    if i + 1 < j {
        lemma_ranges_disjoint(ranges, i, j - 1);
    }
}

} // verus!
