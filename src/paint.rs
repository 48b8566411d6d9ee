use crate::region::StackRegion;
use vstd::prelude::*;

verus! {

/// The word that marks stack memory not yet known to be used.
pub const STACK_PAINT_VALUE: u32 = 0xCCCC_CCCC;

/// Number of the region's words that lie strictly below the stack pointer
/// `sp`: the words that painting covers, counted upward from just above `end`.
pub open spec fn painted_count(region: StackRegion, sp: int) -> int {
    if sp <= region.end {
        0
    } else if (sp - region.end - 1) / 4 < region.word_count() {
        (sp - region.end - 1) / 4
    } else {
        region.word_count()
    }
}

/// The region's words after painting with the stack pointer at `sp`: every
/// word below `sp` holds the sentinel, every other word is unchanged.
pub open spec fn painted(region: StackRegion, sp: int, words: Seq<u32>) -> Seq<u32> {
    Seq::new(
        words.len(),
        |j: int|
            if region.word_addr(j) < sp {
                STACK_PAINT_VALUE
            } else {
                words[j]
            },
    )
}

/// Index of the word at which an upward scan from word `j` stops: the first
/// word that is not the sentinel or not below `sp`, or the region's top.
pub open spec fn first_stop(region: StackRegion, sp: int, words: Seq<u32>, j: int) -> int
    decreases region.word_count() - j,
{
    if j < 0 || j >= region.word_count() || region.word_addr(j) >= sp || words[j]
        != STACK_PAINT_VALUE {
        j
    } else {
        first_stop(region, sp, words, j + 1)
    }
}

/// The linear scanner's result: the distance in bytes from `end` to the word
/// at which a scan from the bottom of the region stops; zero when the stack
/// pointer is at or below `end`, where the scan stops before it starts.
pub open spec fn linear_watermark(region: StackRegion, sp: int, words: Seq<u32>) -> int {
    if sp <= region.end {
        0
    } else {
        4 * (first_stop(region, sp, words, 0) + 1)
    }
}

/// The index that a binary search over `words[lo..hi]` settles on, probing
/// the middle word and going up past a sentinel, down otherwise.
pub open spec fn partition_search(words: Seq<u32>, lo: int, hi: int) -> int
    decreases hi - lo,
{
    if lo >= hi {
        lo
    } else if words[lo + (hi - lo) / 2] == STACK_PAINT_VALUE {
        partition_search(words, lo + (hi - lo) / 2 + 1, hi)
    } else {
        partition_search(words, lo, lo + (hi - lo) / 2)
    }
}

/// The binary scanner's result: zero when the stack pointer is at or below
/// `end`, else one word past the index that the search over the painted
/// words settles on. Only the painted words decide it.
pub open spec fn binary_watermark(region: StackRegion, sp: int, words: Seq<u32>) -> int {
    if sp <= region.end {
        0
    } else {
        4 * (partition_search(
            words.subrange(0, painted_count(region, sp)),
            0,
            painted_count(region, sp),
        ) + 1)
    }
}

/// Word `p` separates sentinel from overwritten words among the painted ones:
/// the word below it is the sentinel and it is not (or it is past the last
/// painted word).
pub open spec fn is_boundary(region: StackRegion, sp: int, words: Seq<u32>, p: int) -> bool {
    &&& 0 <= p <= painted_count(region, sp)
    &&& p > 0 ==> words[p - 1] == STACK_PAINT_VALUE
    &&& p < painted_count(region, sp) ==> words[p] != STACK_PAINT_VALUE
}

/// The painted words were overwritten contiguously from the bottom: once a
/// painted word is not the sentinel, no painted word above it is.
pub open spec fn monotone_painted(region: StackRegion, sp: int, words: Seq<u32>) -> bool {
    forall|i: int, j: int|
        0 <= i < j < painted_count(region, sp) && words[i] != STACK_PAINT_VALUE ==> words[j]
            != STACK_PAINT_VALUE
}

/// A word of the region lies below `sp` exactly when its index is below
/// `painted_count`.
proof fn lemma_painted_count(region: StackRegion, sp: int, j: int)
    requires
        region.wf(),
        0 <= j < region.word_count(),
    ensures
        0 <= painted_count(region, sp) <= region.word_count(),
        (region.word_addr(j) < sp) == (j < painted_count(region, sp)),
{
    let d = sp - region.end - 1;
    if sp > region.end {
        assert(0 <= d / 4) by (nonlinear_arith)
            requires
                d >= 0,
        ;
        assert((region.end + 4 * (j + 1) < sp) == (j < d / 4)) by (nonlinear_arith)
            requires
                d == sp - region.end - 1,
                d >= 0,
                j >= 0,
        ;
    }
    assert(0 <= region.word_count()) by (nonlinear_arith)
        requires
            region.end <= region.start,
    ;
}

/// Once the scan from `j` has passed word `k` without stopping, starting
/// from `k` gives the same stop.
proof fn lemma_first_stop_skip(region: StackRegion, sp: int, words: Seq<u32>, j: int, k: int)
    requires
        0 <= j <= k <= region.word_count(),
        forall|i: int|
            j <= i < k ==> #[trigger] region.word_addr(i) < sp && words[i] == STACK_PAINT_VALUE,
    ensures
        first_stop(region, sp, words, j) == first_stop(region, sp, words, k),
    decreases k - j,
{
    if j < k {
        lemma_first_stop_skip(region, sp, words, j + 1, k);
    }
}

/// The scan from `k` stops at once where word `k` ends it.
proof fn lemma_first_stop_here(region: StackRegion, sp: int, words: Seq<u32>, k: int)
    requires
        0 <= k <= region.word_count(),
        k == region.word_count() || region.word_addr(k) >= sp || words[k] != STACK_PAINT_VALUE,
    ensures
        first_stop(region, sp, words, k) == k,
{
}

/// Paints every word of the region below the stack pointer `sp` with the
/// sentinel, leaving the words at or above `sp` untouched.
///
/// `words` is the region's memory, word `j` lying at `end + 4 * (j + 1)`.
/// Every word below `sp` is written, whether or not it already holds the
/// sentinel. Nothing here guards against an interrupt that uses the stack
/// while the paint is in progress.
pub fn repaint_stack(region: &StackRegion, sp: usize, words: &mut [u32])
    requires
        region.wf(),
        old(words)@.len() == region.word_count(),
    ensures
        final(words)@ == painted(*region, sp as int, old(words)@),
{
    let n = words.len();
    let mut j: usize = 0;
    while j < n
        invariant
            region.wf(),
            n == words@.len(),
            n == old(words)@.len(),
            n == region.word_count(),
            j <= n,
            forall|i: int| 0 <= i < j ==> words@[i] == painted(*region, sp as int, old(words)@)[i],
            forall|i: int| j <= i < n ==> words@[i] == old(words)@[i],
        decreases n - j,
    {
        proof {
            assert(region.end + 4 * (j + 1) <= region.start) by (nonlinear_arith)
                requires
                    j < n,
                    n == (region.start - region.end) / 4,
                    region.end <= region.start,
            ;
        }
        if region.end + 4 * (j + 1) < sp {
            words[j] = STACK_PAINT_VALUE;
        }
        j = j + 1;
    }
    assert(words@ =~= painted(*region, sp as int, old(words)@));
}

/// Distance in bytes from `end` to the first word, counted upward from just
/// above `end`, that no longer holds the sentinel; the scan also stops at the
/// first word at or above the stack pointer `sp`, and at the region's top.
/// With the stack pointer at or below `end` nothing is free and the result
/// is zero.
///
/// Since [`repaint_stack`] this is the least free space the stack has had,
/// as far as one snapshot of memory shows it: a word that was used and
/// happens to hold the sentinel, or use that an interrupt makes during the
/// scan, goes unseen. It is an estimate, not a safety guarantee.
pub fn stack_painted(region: &StackRegion, sp: usize, words: &[u32]) -> (r: usize)
    requires
        region.wf(),
        words@.len() == region.word_count(),
        region.size() + 4 <= usize::MAX,
    ensures
        r == linear_watermark(*region, sp as int, words@),
        sp <= region.end ==> r == 0,
{
    if sp <= region.end {
        return 0;
    }
    let n = words.len();
    let mut j: usize = 0;
    loop
        invariant
            region.wf(),
            n == words@.len(),
            n == region.word_count(),
            j <= n,
            first_stop(*region, sp as int, words@, 0) == first_stop(*region, sp as int, words@, j as int),
        ensures
            j <= n,
            first_stop(*region, sp as int, words@, 0) == first_stop(*region, sp as int, words@, j as int),
            j == n || region.word_addr(j as int) >= sp || words@[j as int] != STACK_PAINT_VALUE,
        decreases n - j,
    {
        if j == n {
            break;
        }
        proof {
            assert(region.end + 4 * (j + 1) <= region.start) by (nonlinear_arith)
                requires
                    j < n,
                    n == (region.start - region.end) / 4,
                    region.end <= region.start,
            ;
        }
        if region.end + 4 * (j + 1) >= sp || words[j] != STACK_PAINT_VALUE {
            break;
        }
        proof {
            lemma_first_stop_skip(*region, sp as int, words@, j as int, j + 1);
        }
        j = j + 1;
    }
    proof {
        lemma_first_stop_here(*region, sp as int, words@, j as int);
        assert(4 * (j + 1) <= region.size() + 4) by (nonlinear_arith)
            requires
                j <= n,
                n == (region.start - region.end) / 4,
                region.end <= region.start,
        ;
    }
    4 * (j + 1)
}

/// Number of the region's words that lie strictly below the stack pointer
/// `sp`: the words that [`repaint_stack`] covers and [`stack_painted_binary`]
/// searches.
pub fn painted_word_count(region: &StackRegion, sp: usize) -> (r: usize)
    requires
        region.wf(),
    ensures
        r == painted_count(*region, sp as int),
{
    let w = (region.start - region.end) / 4;
    if sp <= region.end {
        0
    } else if (sp - region.end - 1) / 4 < w {
        (sp - region.end - 1) / 4
    } else {
        w
    }
}

/// The same measurement as [`stack_painted`], found by binary search over the
/// painted words in logarithmic time.
///
/// `words` starts at the region's lowest word and must hold at least the
/// painted words (those below `sp`); no word beyond them is read. The search
/// assumes that the painted words were overwritten contiguously from the
/// bottom. Whatever they hold, the result is fixed by them alone and marks a
/// word whose lower neighbour is the sentinel and which itself is not (or
/// lies past the painted words); where the assumption holds, it equals the
/// linear result. Writes out of order, or the sentinel value inside the
/// active stack, go undetected and can make the result arbitrarily wrong.
pub fn stack_painted_binary(region: &StackRegion, sp: usize, words: &[u32]) -> (r: usize)
    requires
        region.wf(),
        painted_count(*region, sp as int) <= words@.len(),
        region.size() + 4 <= usize::MAX,
    ensures
        r == binary_watermark(*region, sp as int, words@),
        r % 4 == 0,
        r <= 4 * (painted_count(*region, sp as int) + 1),
        sp <= region.start && sp % 4 == 0 ==> r <= region.free(sp as int),
        sp <= region.end ==> r == 0,
        sp > region.end ==> is_boundary(*region, sp as int, words@, r / 4 - 1),
        monotone_painted(*region, sp as int, words@) ==> r == linear_watermark(
            *region,
            sp as int,
            words@,
        ),
{
    if sp <= region.end {
        return 0;
    }
    let n = painted_word_count(region, sp);
    let ghost painted_words = words@.subrange(0, n as int);
    let mut lo: usize = 0;
    let mut hi: usize = n;
    while lo < hi
        invariant
            n == painted_count(*region, sp as int),
            n <= words@.len(),
            painted_words == words@.subrange(0, n as int),
            lo <= hi <= n,
            partition_search(painted_words, lo as int, hi as int) == partition_search(
                painted_words,
                0,
                n as int,
            ),
            lo > 0 ==> words@[lo - 1] == STACK_PAINT_VALUE,
            hi < n ==> words@[hi as int] != STACK_PAINT_VALUE,
        decreases hi - lo,
    {
        let mid = lo + (hi - lo) / 2;
        assert(painted_words[mid as int] == words@[mid as int]);
        if words[mid] == STACK_PAINT_VALUE {
            lo = mid + 1;
        } else {
            hi = mid;
        }
    }
    proof {
        let w = region.word_count();
        if w > 0 {
            lemma_painted_count(*region, sp as int, 0);
        }
        assert(0 <= w) by (nonlinear_arith)
            requires
                w == (region.start - region.end) / 4,
                region.end <= region.start,
        ;
        if monotone_painted(*region, sp as int, words@) {
            assert forall|i: int| 0 <= i < lo implies #[trigger] region.word_addr(i) < sp
                && words@[i] == STACK_PAINT_VALUE by {
                lemma_painted_count(*region, sp as int, i);
                if words@[i] != STACK_PAINT_VALUE && i < lo - 1 {
                    assert(words@[lo - 1] != STACK_PAINT_VALUE);
                }
            }
            lemma_first_stop_skip(*region, sp as int, words@, 0, lo as int);
            if lo < w {
                lemma_painted_count(*region, sp as int, lo as int);
            }
            lemma_first_stop_here(*region, sp as int, words@, lo as int);
        }
        if sp <= region.start && sp % 4 == 0 {
            assert(4 * ((sp - region.end - 1) / 4 + 1) == sp - region.end) by (nonlinear_arith)
                requires
                    sp > region.end,
                    region.end % 4 == 0,
                    sp % 4 == 0,
            ;
        }
        assert(4 * (lo + 1) <= region.size() + 4) by (nonlinear_arith)
            requires
                lo <= w,
                w == (region.start - region.end) / 4,
                region.end <= region.start,
        ;
    }
    4 * (lo + 1)
}

/// Right after a paint, the linear scan passes every painted word and stops
/// at the first word at or above the stack pointer (or at the region's top):
/// the watermark is one word past the painted ones. With a word-aligned stack
/// pointer inside the region, that is exactly the free space; with no free
/// space left, the watermark is zero.
pub proof fn lemma_fresh_paint_watermark(region: StackRegion, sp: int, words: Seq<u32>)
    requires
        region.wf(),
        words.len() == region.word_count(),
    ensures
        sp > region.end ==> linear_watermark(region, sp, painted(region, sp, words)) == 4 * (
        painted_count(region, sp) + 1),
        sp <= region.start && region.free(sp) == 0 ==> linear_watermark(
            region,
            sp,
            painted(region, sp, words),
        ) == 0,
        region.end < sp <= region.start && sp % 4 == 0 ==> linear_watermark(
            region,
            sp,
            painted(region, sp, words),
        ) == region.free(sp),
{
    let p = painted(region, sp, words);
    let n = painted_count(region, sp);
    if region.word_count() > 0 {
        lemma_painted_count(region, sp, 0);
    }
    assert(0 <= region.word_count()) by (nonlinear_arith)
        requires
            region.end <= region.start,
    ;
    assert forall|i: int| 0 <= i < n implies #[trigger] region.word_addr(i) < sp && p[i]
        == STACK_PAINT_VALUE by {
        lemma_painted_count(region, sp, i);
    }
    lemma_first_stop_skip(region, sp, p, 0, n);
    if n < region.word_count() {
        lemma_painted_count(region, sp, n);
    }
    lemma_first_stop_here(region, sp, p, n);
    if region.end < sp <= region.start && sp % 4 == 0 {
        assert(4 * ((sp - region.end - 1) / 4 + 1) == sp - region.end) by (nonlinear_arith)
            requires
                sp > region.end,
                region.end % 4 == 0,
                sp % 4 == 0,
        ;
        assert((sp - region.end - 1) / 4 < region.word_count()) by (nonlinear_arith)
            requires
                region.end < sp <= region.start,
                region.start % 4 == 0,
                region.end % 4 == 0,
        ;
    }
}

/// After a paint, a value other than the sentinel written at byte offset `k`
/// from `end`, into a painted word, is found by the linear scan at exactly `k`.
pub proof fn lemma_marked_word_found(
    region: StackRegion,
    sp: int,
    words: Seq<u32>,
    k: int,
    v: u32,
)
    requires
        region.wf(),
        words.len() == region.word_count(),
        k % 4 == 0,
        4 <= k <= region.size(),
        region.end + k < sp,
        v != STACK_PAINT_VALUE,
    ensures
        linear_watermark(region, sp, painted(region, sp, words).update(k / 4 - 1, v)) == k,
{
    let idx = k / 4 - 1;
    let m = painted(region, sp, words).update(idx, v);
    assert(0 <= idx < region.word_count() && region.word_addr(idx) == region.end + k)
        by (nonlinear_arith)
        requires
            idx == k / 4 - 1,
            k % 4 == 0,
            4 <= k <= region.start - region.end,
            region.start % 4 == 0,
            region.end % 4 == 0,
    ;
    assert forall|i: int| 0 <= i < idx implies #[trigger] region.word_addr(i) < sp && m[i]
        == STACK_PAINT_VALUE by {
        assert(region.word_addr(i) < region.word_addr(idx));
    }
    lemma_first_stop_skip(region, sp, m, 0, idx);
    lemma_first_stop_here(region, sp, m, idx);
}

/// On painted words that hold the sentinel below byte offset `k` from `end`
/// and something else from `k` on, the linear scan returns exactly `k`, the
/// words meet the contiguous-write assumption, and every boundary that the
/// binary search can return lies at `k` too: both scanners agree on `k`.
pub proof fn lemma_binary_matches_linear(region: StackRegion, sp: int, words: Seq<u32>, k: int)
    requires
        region.wf(),
        words.len() == region.word_count(),
        region.end < sp,
        k % 4 == 0,
        4 <= k <= 4 * (painted_count(region, sp) + 1),
        forall|i: int|
            0 <= i < painted_count(region, sp) ==> (#[trigger] words[i] == STACK_PAINT_VALUE)
                == (4 * (i + 1) < k),
    ensures
        linear_watermark(region, sp, words) == k,
        monotone_painted(region, sp, words),
        forall|p: int| #[trigger] is_boundary(region, sp, words, p) ==> 4 * (p + 1) == k,
{
    let n = painted_count(region, sp);
    let idx = k / 4 - 1;
    if region.word_count() > 0 {
        lemma_painted_count(region, sp, 0);
    }
    assert(0 <= region.word_count()) by (nonlinear_arith)
        requires
            region.end <= region.start,
    ;
    assert(0 <= idx <= n && 4 * (idx + 1) == k) by (nonlinear_arith)
        requires
            idx == k / 4 - 1,
            k % 4 == 0,
            4 <= k <= 4 * (n + 1),
    ;
    assert forall|i: int| 0 <= i < idx implies #[trigger] region.word_addr(i) < sp
        && words[i] == STACK_PAINT_VALUE by {
        lemma_painted_count(region, sp, i);
        assert(4 * (i + 1) < k);
    }
    lemma_first_stop_skip(region, sp, words, 0, idx);
    if idx < region.word_count() {
        lemma_painted_count(region, sp, idx);
    }
    if idx < n {
        assert(!(4 * (idx + 1) < k));
    }
    lemma_first_stop_here(region, sp, words, idx);
    assert forall|i: int, j: int|
        0 <= i < j < n && words[i] != STACK_PAINT_VALUE implies words[j]
        != STACK_PAINT_VALUE by {
        assert(!(4 * (i + 1) < k));
        assert(!(4 * (j + 1) < k));
    }
    assert forall|p: int| #[trigger] is_boundary(region, sp, words, p) implies 4 * (p + 1)
        == k by {
        if p < idx {
            assert(!(4 * (p + 1) < k));
        }
        if p > idx {
            assert(4 * (p - 1 + 1) < k);
        }
    }
}

} // verus!
