//! Word counting: a two-state kernel over one byte window, a merge that
//! corrects for words straddling a window boundary, and the engine that
//! runs both over planned ranges.
//!
//! A word is a maximal run of non-whitespace bytes. Each window is scanned
//! with a fresh `not_in_word` state, so a word split across two adjacent
//! windows would be counted once per window; the kernel therefore also
//! reports whether its window starts and ends in the middle of a word, and
//! the merge subtracts one count for every boundary where the left window
//! ends mid-word and the right one starts mid-word.

use crate::planner::covered_upto;
use crate::planner::plan_ranges;
use crate::planner::ranges_linked;
use crate::planner::ByteRange;
use vstd::prelude::*;
use vstd::slice::slice_subrange;

verus! {

/// The whitespace predicate: the bytes whose one-byte code points the scan
/// treats as word separators (tab, line feed, vertical tab, form feed,
/// carriage return, space, next line, no-break space).
pub open spec fn spec_is_whitespace(b: u8) -> bool {
    b == 9 || b == 10 || b == 11 || b == 12 || b == 13 || b == 32 || b == 133 || b == 160
}

/// Executable form of the whitespace predicate.
pub fn is_whitespace_byte(b: u8) -> (r: bool)
    ensures
        r == spec_is_whitespace(b),
{
    b == 9 || b == 10 || b == 11 || b == 12 || b == 13 || b == 32 || b == 133 || b == 160
}

/// The scanner's `in_word` state after reading a window, starting from
/// `in_word`.
pub open spec fn scan_state(s: Seq<u8>, in_word: bool) -> bool
    decreases s.len(),
{
    if s.len() == 0 {
        in_word
    } else {
        scan_state(s.drop_first(), !spec_is_whitespace(s[0]))
    }
}

/// How many words the scan commits while reading a window (a word is
/// committed on the `in_word` to whitespace transition; a trailing word
/// still open at the end of the window is not included here).
pub open spec fn words_emitted(s: Seq<u8>, in_word: bool) -> nat
    decreases s.len(),
{
    if s.len() == 0 {
        0
    } else {
        (if spec_is_whitespace(s[0]) && in_word {
            1nat
        } else {
            0nat
        }) + words_emitted(s.drop_first(), !spec_is_whitespace(s[0]))
    }
}

/// Words in a window when the scan starts in the given state: the committed
/// ones plus the trailing word flushed at end-of-window.
pub open spec fn word_count_from(s: Seq<u8>, in_word: bool) -> nat {
    words_emitted(s, in_word) + if scan_state(s, in_word) {
        1nat
    } else {
        0nat
    }
}

/// The word count of a window scanned on its own, as the sequential
/// single-pass scan computes it.
pub open spec fn spec_word_count(s: Seq<u8>) -> nat {
    word_count_from(s, false)
}

/// The window's first byte exists and is not whitespace.
pub open spec fn starts_mid_word(s: Seq<u8>) -> bool {
    s.len() > 0 && !spec_is_whitespace(s[0])
}

/// The window's last byte exists and is not whitespace.
pub open spec fn ends_mid_word(s: Seq<u8>) -> bool {
    s.len() > 0 && !spec_is_whitespace(s.last())
}

/// The scan state after a window depends only on its last byte.
pub proof fn lemma_scan_state_last(s: Seq<u8>, in_word: bool)
    ensures
        scan_state(s, in_word) == if s.len() == 0 {
            in_word
        } else {
            !spec_is_whitespace(s.last())
        },
    decreases s.len(),
{
    if s.len() > 0 {
        lemma_scan_state_last(s.drop_first(), !spec_is_whitespace(s[0]));
    }
}

/// Scanning a concatenation is scanning the left window, then the right one
/// from the state the left one reached.
pub proof fn lemma_scan_split(a: Seq<u8>, b: Seq<u8>, in_word: bool)
    ensures
        words_emitted(a + b, in_word) == words_emitted(a, in_word) + words_emitted(
            b,
            scan_state(a, in_word),
        ),
        scan_state(a + b, in_word) == scan_state(b, scan_state(a, in_word)),
    decreases a.len(),
{
    if a.len() == 0 {
        assert(a + b =~= b);
    } else {
        assert((a + b).drop_first() =~= a.drop_first() + b);
        lemma_scan_split(a.drop_first(), b, !spec_is_whitespace(a[0]));
    }
}

/// Starting a window mid-word adds exactly one word unless the window's
/// first byte continues that word.
pub proof fn lemma_word_count_from_true(s: Seq<u8>)
    ensures
        word_count_from(s, true) == spec_word_count(s) + if starts_mid_word(s) {
            0nat
        } else {
            1nat
        },
{
    if s.len() == 0 {
    } else if spec_is_whitespace(s[0]) {
        assert(words_emitted(s, true) == 1 + words_emitted(s.drop_first(), false));
        assert(words_emitted(s, false) == words_emitted(s.drop_first(), false));
        assert(scan_state(s, true) == scan_state(s.drop_first(), false));
        assert(scan_state(s, false) == scan_state(s.drop_first(), false));
    } else {
        assert(words_emitted(s, true) == words_emitted(s.drop_first(), true));
        assert(words_emitted(s, false) == words_emitted(s.drop_first(), true));
        assert(scan_state(s, true) == scan_state(s.drop_first(), true));
        assert(scan_state(s, false) == scan_state(s.drop_first(), true));
    }
}

/// A window never holds more words than bytes.
pub proof fn lemma_word_count_le_len(s: Seq<u8>, in_word: bool)
    ensures
        word_count_from(s, in_word) <= s.len() + if in_word {
            1nat
        } else {
            0nat
        },
    decreases s.len(),
{
    if s.len() > 0 {
        lemma_word_count_le_len(s.drop_first(), !spec_is_whitespace(s[0]));
    }
}

/// A scan that starts mid-word finds at least the word it is in.
pub proof fn lemma_word_count_from_true_ge_one(s: Seq<u8>)
    ensures
        word_count_from(s, true) >= 1,
    decreases s.len(),
{
    if s.len() > 0 && !spec_is_whitespace(s[0]) {
        lemma_word_count_from_true_ge_one(s.drop_first());
    }
}

/// Word counts of adjacent windows add up to the count of the bytes they
/// cover, minus one exactly when a word straddles the boundary (left window
/// ends mid-word and right window starts mid-word). The boundary flags of
/// the concatenation come from the outermost non-empty windows.
pub proof fn lemma_word_count_concat(a: Seq<u8>, b: Seq<u8>)
    ensures
        spec_word_count(a + b) + (if ends_mid_word(a) && starts_mid_word(b) {
            1nat
        } else {
            0nat
        }) == spec_word_count(a) + spec_word_count(b),
        starts_mid_word(a + b) == if a.len() == 0 {
            starts_mid_word(b)
        } else {
            starts_mid_word(a)
        },
        ends_mid_word(a + b) == if b.len() == 0 {
            ends_mid_word(a)
        } else {
            ends_mid_word(b)
        },
{
    lemma_scan_split(a, b, false);
    lemma_scan_state_last(a, false);
    if a.len() == 0 {
        assert(a + b =~= b);
    } else {
        assert((a + b).len() > 0);
        assert((a + b)[0] == a[0]);
        if b.len() == 0 {
            assert((a + b).last() == a.last());
        } else {
            assert((a + b).last() == b.last());
        }
        let sa = scan_state(a, false);
        if sa {
            lemma_word_count_from_true(b);
        }
    }
}

/// One worker's partial result for one window: the window's own word count
/// and the boundary information the aggregator needs.
#[derive(Clone, Copy, Debug, PartialEq, Eq, Structural)]
pub struct WordPartial {
    /// Words found by scanning the window on its own.
    pub count: u64,
    /// The window's first byte exists and is not whitespace.
    pub starts_mid: bool,
    /// The window's last byte exists and is not whitespace.
    pub ends_mid: bool,
    /// The window holds no bytes.
    pub empty: bool,
}

/// The partial result that summarizes a given window.
pub open spec fn is_word_summary(p: WordPartial, s: Seq<u8>) -> bool {
    &&& p.count == spec_word_count(s)
    &&& p.starts_mid == starts_mid_word(s)
    &&& p.ends_mid == ends_mid_word(s)
    &&& p.empty == (s.len() == 0)
}

/// Internal consistency of a partial result: a window that starts or ends
/// mid-word holds at least that word, and an empty window reports nothing.
pub open spec fn word_partial_wf(p: WordPartial) -> bool {
    &&& (p.starts_mid || p.ends_mid) ==> p.count >= 1
    &&& p.empty ==> (!p.starts_mid && !p.ends_mid && p.count == 0)
}

/// Every summary of an actual window is internally consistent.
pub proof fn lemma_summary_wf(p: WordPartial, s: Seq<u8>)
    requires
        is_word_summary(p, s),
    ensures
        word_partial_wf(p),
{
    lemma_scan_state_last(s, false);
    if starts_mid_word(s) {
        assert(words_emitted(s, false) == words_emitted(s.drop_first(), true));
        assert(scan_state(s, false) == scan_state(s.drop_first(), true));
        lemma_word_count_from_true_ge_one(s.drop_first());
    }
}

/// The word kernel: a two-state scan over one byte window, starting in
/// `not_in_word`, committing a word on each `in_word` to whitespace
/// transition and flushing a trailing open word at end-of-window. Also
/// reports the boundary flags and whether the window was empty.
pub fn scan_words_in_window(window: &[u8]) -> (p: WordPartial)
    ensures
        is_word_summary(p, window@),
{
    let mut count: u64 = 0;
    let mut in_word = false;
    let mut i: usize = 0;
    while i < window.len()
        invariant
            i <= window@.len(),
            in_word == scan_state(window@.take(i as int), false),
            count == words_emitted(window@.take(i as int), false),
            count <= i,
        decreases window@.len() - i,
    {
        let b = window[i];
        proof {
            let pre = window@.take(i as int);
            let one = seq![window@[i as int]];
            assert(window@.take(i as int + 1) =~= pre + one);
            lemma_scan_split(pre, one, false);
            assert(one.drop_first() =~= Seq::<u8>::empty());
            let st = scan_state(pre, false);
            assert(words_emitted(one, st) == (if spec_is_whitespace(one[0]) && st {
                1nat
            } else {
                0nat
            }) + words_emitted(one.drop_first(), !spec_is_whitespace(one[0])));
            assert(words_emitted(Seq::<u8>::empty(), !spec_is_whitespace(one[0])) == 0);
            assert(scan_state(one, st) == scan_state(
                one.drop_first(),
                !spec_is_whitespace(one[0]),
            ));
            assert(scan_state(Seq::<u8>::empty(), !spec_is_whitespace(one[0]))
                == !spec_is_whitespace(one[0]));
        }
        if is_whitespace_byte(b) {
            if in_word {
                count = count + 1;
                in_word = false;
            }
        } else {
            in_word = true;
        }
        i = i + 1;
    }
    proof {
        assert(window@.take(window@.len() as int) =~= window@);
        lemma_word_count_le_len(window@, false);
    }
    let total: u64 = if in_word {
        count + 1
    } else {
        count
    };
    let starts_mid = window.len() > 0 && !is_whitespace_byte(window[0]);
    let ends_mid = window.len() > 0 && !is_whitespace_byte(window[window.len() - 1]);
    proof {
        lemma_scan_state_last(window@, false);
    }
    WordPartial { count: total, starts_mid, ends_mid, empty: window.len() == 0 }
}

/// Merges two adjacent partial results into the partial result of the
/// combined window: the counts add, minus one when a word straddles the
/// boundary between them, and the boundary flags come from the outermost
/// non-empty window.
pub fn merge_word_partials(left: WordPartial, right: WordPartial) -> (merged: WordPartial)
    requires
        word_partial_wf(left),
        word_partial_wf(right),
        left.count + right.count <= u64::MAX as int + (if left.ends_mid && right.starts_mid {
            1int
        } else {
            0int
        }),
    ensures
        merged.count == left.count + right.count - (if left.ends_mid && right.starts_mid {
            1int
        } else {
            0int
        }),
        merged.starts_mid == (if left.empty {
            right.starts_mid
        } else {
            left.starts_mid
        }),
        merged.ends_mid == (if right.empty {
            left.ends_mid
        } else {
            right.ends_mid
        }),
        merged.empty == (left.empty && right.empty),
        word_partial_wf(merged),
{
    let adjust: u64 = if left.ends_mid && right.starts_mid {
        1
    } else {
        0
    };
    WordPartial {
        count: left.count - adjust + right.count,
        starts_mid: if left.empty {
            right.starts_mid
        } else {
            left.starts_mid
        },
        ends_mid: if right.empty {
            left.ends_mid
        } else {
            right.ends_mid
        },
        empty: left.empty && right.empty,
    }
}

/// Merging the summaries of two adjacent windows yields the summary of
/// their concatenation: the straddle decrement is exactly right.
pub proof fn lemma_merge_is_concat_summary(
    left: WordPartial,
    right: WordPartial,
    merged: WordPartial,
    a: Seq<u8>,
    b: Seq<u8>,
)
    requires
        is_word_summary(left, a),
        is_word_summary(right, b),
        merged.count == left.count + right.count - (if left.ends_mid && right.starts_mid {
            1int
        } else {
            0int
        }),
        merged.starts_mid == (if left.empty {
            right.starts_mid
        } else {
            left.starts_mid
        }),
        merged.ends_mid == (if right.empty {
            left.ends_mid
        } else {
            right.ends_mid
        }),
        merged.empty == (left.empty && right.empty),
    ensures
        is_word_summary(merged, a + b),
{
    lemma_word_count_concat(a, b);
}

/// One aggregation step over the abstract image of a partial result; the
/// count is a mathematical integer so that the fold is defined even where
/// a machine total would overflow.
pub open spec fn spec_merge_fold(acc: (int, bool, bool, bool), p: WordPartial) -> (
    int,
    bool,
    bool,
    bool,
) {
    (
        acc.0 + p.count - (if acc.2 && p.starts_mid {
            1int
        } else {
            0int
        }),
        if acc.3 {
            p.starts_mid
        } else {
            acc.1
        },
        if p.empty {
            acc.2
        } else {
            p.ends_mid
        },
        acc.3 && p.empty,
    )
}

/// The aggregator's fold over all partial results, left to right.
pub open spec fn spec_fold_word_partials(parts: Seq<WordPartial>) -> (int, bool, bool, bool)
    decreases parts.len(),
{
    if parts.len() == 0 {
        (0int, false, false, true)
    } else {
        spec_merge_fold(spec_fold_word_partials(parts.drop_last()), parts.last())
    }
}

/// With consistent partial results the folded count never shrinks as more
/// results are taken in, so a prefix never exceeds the whole.
pub proof fn lemma_fold_prefix_le(parts: Seq<WordPartial>, n: int)
    requires
        forall|i: int| 0 <= i < parts.len() ==> word_partial_wf(#[trigger] parts[i]),
        0 <= n <= parts.len(),
    ensures
        spec_fold_word_partials(parts.take(n)).0 <= spec_fold_word_partials(parts).0,
    decreases parts.len() - n,
{
    if n == parts.len() {
        assert(parts.take(n) =~= parts);
    } else {
        lemma_fold_prefix_le(parts, n + 1);
        assert(parts.take(n + 1).drop_last() =~= parts.take(n));
        assert(parts.take(n + 1).last() == parts[n]);
        assert(word_partial_wf(parts[n]));
    }
}

/// The aggregator for word counts: folds every partial result once, in
/// delivery order, subtracting one for every adjacent pair that straddles a
/// word; `None` exactly when the total does not fit in a `u64`.
pub fn total_words(parts: &Vec<WordPartial>) -> (total: Option<u64>)
    requires
        forall|i: int| 0 <= i < parts@.len() ==> word_partial_wf(#[trigger] parts@[i]),
    ensures
        match total {
            Some(t) => t == spec_fold_word_partials(parts@).0,
            None => spec_fold_word_partials(parts@).0 > u64::MAX,
        },
{
    let mut acc = WordPartial { count: 0, starts_mid: false, ends_mid: false, empty: true };
    let mut i: usize = 0;
    while i < parts.len()
        invariant
            forall|j: int| 0 <= j < parts@.len() ==> word_partial_wf(#[trigger] parts@[j]),
            i <= parts@.len(),
            acc.count == spec_fold_word_partials(parts@.take(i as int)).0,
            acc.starts_mid == spec_fold_word_partials(parts@.take(i as int)).1,
            acc.ends_mid == spec_fold_word_partials(parts@.take(i as int)).2,
            acc.empty == spec_fold_word_partials(parts@.take(i as int)).3,
            word_partial_wf(acc),
        decreases parts@.len() - i,
    {
        let p = parts[i];
        proof {
            assert(parts@.take(i as int + 1).drop_last() =~= parts@.take(i as int));
            assert(parts@.take(i as int + 1).last() == parts@[i as int]);
            assert(word_partial_wf(parts@[i as int]));
        }
        let adjust: u64 = if acc.ends_mid && p.starts_mid {
            1
        } else {
            0
        };
        let step: u64 = p.count - adjust;
        if step > u64::MAX - acc.count {
            proof {
                lemma_fold_prefix_le(parts@, i as int + 1);
            }
            return None;
        }
        acc = merge_word_partials(acc, p);
        i = i + 1;
    }
    proof {
        assert(parts@.take(parts@.len() as int) =~= parts@);
    }
    Some(acc.count)
}

/// The abstract image of a window: its word count as a mathematical
/// integer, its boundary flags, and whether it is empty.
pub open spec fn spec_summary(s: Seq<u8>) -> (int, bool, bool, bool) {
    (spec_word_count(s) as int, starts_mid_word(s), ends_mid_word(s), s.len() == 0)
}

/// Kernel summaries over linked ranges fold to the summary of the bytes
/// the ranges cover: with the straddle correction, splitting the scan over
/// disjoint windows counts every word exactly once, wherever the
/// boundaries fall.
#[verifier::rlimit(50)]
pub proof fn lemma_word_partition(
    content: Seq<u8>,
    ranges: Seq<ByteRange>,
    parts: Seq<WordPartial>,
)
    requires
        ranges_linked(ranges),
        parts.len() == ranges.len(),
        covered_upto(ranges) <= content.len(),
        forall|i: int|
            0 <= i < ranges.len() ==> is_word_summary(
                parts[i],
                content.subrange((#[trigger] ranges[i]).start as int, ranges[i].end as int),
            ),
    ensures
        spec_fold_word_partials(parts) == spec_summary(content.take(covered_upto(ranges))),
    decreases ranges.len(),
{
    if ranges.len() == 0 {
        assert(content.take(0) =~= Seq::<u8>::empty());
    } else {
        let rp = ranges.drop_last();
        let pp = parts.drop_last();
        assert(ranges_linked(rp)) by {
            assert(forall|i: int| 0 <= i < rp.len() ==> rp[i] == ranges[i]);
        }
        assert(covered_upto(rp) == ranges.last().start);
        lemma_word_partition(content, rp, pp);
        let a = content.take(covered_upto(rp));
        let b = content.subrange(ranges.last().start as int, ranges.last().end as int);
        let last = parts.last();
        assert(is_word_summary(last, b));
        lemma_word_count_concat(a, b);
        assert(a + b =~= content.take(covered_upto(ranges)));
        let fp = spec_fold_word_partials(pp);
        let f = spec_fold_word_partials(parts);
        assert(f == spec_merge_fold(fp, last));
        assert(fp == spec_summary(a));
        assert(f.0 == spec_word_count(a + b));
        assert(f.1 == starts_mid_word(a + b));
        assert(f.2 == ends_mid_word(a + b));
        assert(f.3 == ((a + b).len() == 0));
    }
}

/// The full word-counting flow on an in-memory window of the file: plan
/// the ranges, run the kernel on each window, and aggregate with the
/// straddle correction. The result equals a sequential single-pass scan of
/// the same bytes, whatever the worker count or block size and wherever
/// the range boundaries fall.
pub fn count_words(content: &[u8], workers: u64, block_size: u64) -> (count: u64)
    requires
        workers >= 1,
        block_size >= 1,
    ensures
        count == spec_word_count(content@),
{
    let len: usize = content.len();
    let file_size: u64 = len as u64;
    let ranges = plan_ranges(file_size, workers, block_size);
    let mut parts: Vec<WordPartial> = Vec::new();
    let mut k: usize = 0;
    while k < ranges.len()
        invariant
            content@.len() == file_size as int,
            file_size as int <= usize::MAX as int,
            ranges_linked(ranges@),
            forall|i: int| 0 <= i < ranges@.len() ==> (#[trigger] ranges@[i]).end <= file_size,
            k <= ranges@.len(),
            parts@.len() == k as int,
            forall|j: int|
                0 <= j < k ==> is_word_summary(
                    parts@[j],
                    content@.subrange((#[trigger] ranges@[j]).start as int, ranges@[j].end as int),
                ),
        decreases ranges@.len() - k,
    {
        let r = ranges[k];
        proof {
            assert(ranges@[k as int].start <= ranges@[k as int].end);
            assert(ranges@[k as int].end <= file_size);
        }
        let window = slice_subrange(content, r.start as usize, r.end as usize);
        let p = scan_words_in_window(window);
        parts.push(p);
        k = k + 1;
    }
    proof {
        lemma_word_partition(content@, ranges@, parts@);
        assert(content@.take(covered_upto(ranges@)) =~= content@);
        lemma_word_count_le_len(content@, false);
        assert forall|i: int| 0 <= i < parts@.len() implies word_partial_wf(
            #[trigger] parts@[i],
        ) by {
            lemma_summary_wf(
                parts@[i],
                content@.subrange(ranges@[i].start as int, ranges@[i].end as int),
            );
        }
    }
    match total_words(&parts) {
        Some(t) => t,
        None => {
            proof {
                assert(false);
            }
            0
        },
    }
}

/// Repeated runs over unmodified content return identical counts: the
/// contract of `count_words` determines the result from the bytes alone.
pub proof fn lemma_word_count_repeatable(first: u64, second: u64, content: Seq<u8>)
    requires
        first == spec_word_count(content),
        second == spec_word_count(content),
    ensures
        first == second,
{
}

} // verus!
