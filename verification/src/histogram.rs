//! Histograms of 8-bit levels: what they count and how their sums behave.

use vstd::prelude::*;

verus! {

/// How often the level `v` occurs in `levels`.
pub open spec fn occurrences(levels: Seq<u8>, v: int) -> nat
    decreases levels.len(),
{
    if levels.len() == 0 {
        0
    } else {
        occurrences(levels.drop_last(), v) + if levels.last() == v {
            1nat
        } else {
            0nat
        }
    }
}

/// `h` has one bucket for each of the 256 levels, and bucket `v` holds the
/// number of entries of `levels` equal to `v`.
pub open spec fn is_histogram_of(h: Seq<u32>, levels: Seq<u8>) -> bool {
    &&& h.len() == 256
    &&& forall|v: int| 0 <= v < 256 ==> h[v] == #[trigger] occurrences(levels, v)
}

/// The histogram of `levels`, as long as no count outgrows 32 bits.
pub open spec fn histogram_of(levels: Seq<u8>) -> Seq<u32> {
    Seq::new(256, |v: int| occurrences(levels, v) as u32)
}

/// Sum of the buckets `lo`, .., `hi - 1`.
pub open spec fn weight(h: Seq<u32>, lo: int, hi: int) -> int
    decreases hi - lo,
{
    if hi <= lo {
        0
    } else {
        weight(h, lo, hi - 1) + h[hi - 1]
    }
}

/// Sum of the levels that the buckets `lo`, .., `hi - 1` count: each level
/// times the number in its bucket.
pub open spec fn moment(h: Seq<u32>, lo: int, hi: int) -> int
    decreases hi - lo,
{
    if hi <= lo {
        0
    } else {
        moment(h, lo, hi - 1) + (hi - 1) * h[hi - 1]
    }
}

/// Sum of all buckets.
pub open spec fn total(h: Seq<u32>) -> int {
    weight(h, 0, h.len() as int)
}

/// Number of counted entries whose level is at most `v`.
pub open spec fn cumulative(h: Seq<u32>, v: int) -> int {
    weight(h, 0, v + 1)
}

/// Smallest level from `k` on whose bucket is not empty; 255 if there is
/// none.
pub open spec fn lowest_from(h: Seq<u32>, k: int) -> int
    decreases 255 - k,
{
    if k >= 255 {
        255
    } else if h[k] > 0 {
        k
    } else {
        lowest_from(h, k + 1)
    }
}

/// Largest level up to `k` whose bucket is not empty; 0 if there is none.
pub open spec fn highest_upto(h: Seq<u32>, k: int) -> int
    decreases k,
{
    if k <= 0 {
        0
    } else if h[k] > 0 {
        k
    } else {
        highest_upto(h, k - 1)
    }
}

/// Smallest level that the histogram counts at least once; 255 for a
/// histogram that counts nothing.
pub open spec fn lowest_level(h: Seq<u32>) -> int {
    lowest_from(h, 0)
}

/// Largest level that the histogram counts at least once; 0 for a histogram
/// that counts nothing.
pub open spec fn highest_level(h: Seq<u32>) -> int {
    highest_upto(h, 255)
}

/// Number of entries of `levels` below the level `k`.
pub open spec fn occurrences_below(levels: Seq<u8>, k: int) -> int
    decreases k,
{
    if k <= 0 {
        0
    } else {
        occurrences_below(levels, k - 1) + occurrences(levels, k - 1)
    }
}

/// No level occurs more often than there are entries.
pub proof fn lemma_occurrences_bound(levels: Seq<u8>, v: int)
    ensures
        occurrences(levels, v) <= levels.len(),
    decreases levels.len(),
{
    if levels.len() > 0 {
        lemma_occurrences_bound(levels.drop_last(), v);
    }
}

/// One more entry adds one occurrence of its own level and none of any other.
pub proof fn lemma_occurrences_push(levels: Seq<u8>, x: u8, v: int)
    ensures
        occurrences(levels.push(x), v) == occurrences(levels, v) + if x == v {
            1nat
        } else {
            0nat
        },
{
    assert(levels.push(x).drop_last() =~= levels);
}

proof fn lemma_occurrences_below_push(levels: Seq<u8>, x: u8, k: int)
    requires
        0 <= k,
    ensures
        occurrences_below(levels.push(x), k) == occurrences_below(levels, k) + if x < k {
            1int
        } else {
            0int
        },
    decreases k,
{
    if k > 0 {
        lemma_occurrences_below_push(levels, x, k - 1);
        lemma_occurrences_push(levels, x, k - 1);
    }
}

proof fn lemma_occurrences_below_empty(levels: Seq<u8>, k: int)
    requires
        levels.len() == 0,
    ensures
        occurrences_below(levels, k) == 0,
    decreases k,
{
    if k > 0 {
        lemma_occurrences_below_empty(levels, k - 1);
    }
}

/// Every entry has exactly one of the 256 levels, so the occurrences of all
/// levels add up to the number of entries.
pub proof fn lemma_occurrences_cover(levels: Seq<u8>)
    ensures
        occurrences_below(levels, 256) == levels.len(),
    decreases levels.len(),
{
    if levels.len() == 0 {
        lemma_occurrences_below_empty(levels, 256);
    } else {
        lemma_occurrences_cover(levels.drop_last());
        lemma_occurrences_below_push(levels.drop_last(), levels.last(), 256);
        assert(levels.drop_last().push(levels.last()) =~= levels);
    }
}

/// The first `k` buckets of a histogram count the entries below level `k`.
pub proof fn lemma_weight_counts_below(h: Seq<u32>, levels: Seq<u8>, k: int)
    requires
        is_histogram_of(h, levels),
        0 <= k <= 256,
    ensures
        weight(h, 0, k) == occurrences_below(levels, k),
    decreases k,
{
    if k > 0 {
        lemma_weight_counts_below(h, levels, k - 1);
    }
}

/// The buckets of a histogram add up to the number of entries it counts.
pub proof fn lemma_histogram_total(h: Seq<u32>, levels: Seq<u8>)
    requires
        is_histogram_of(h, levels),
    ensures
        total(h) == levels.len(),
{
    lemma_weight_counts_below(h, levels, 256);
    lemma_occurrences_cover(levels);
}

/// Counting one more entry: the bucket of its level has room for it, and
/// with that bucket raised by one the histogram covers the longer prefix.
pub proof fn lemma_tally(h: Seq<u32>, levels: Seq<u8>, p: int)
    requires
        0 <= p < levels.len() <= u32::MAX,
        is_histogram_of(h, levels.take(p)),
    ensures
        h[levels[p] as int] < u32::MAX,
        is_histogram_of(
            h.update(levels[p] as int, (h[levels[p] as int] + 1) as u32),
            levels.take(p + 1),
        ),
{
    let x = levels[p];
    let shorter = levels.take(p);
    let longer = levels.take(p + 1);
    assert(longer =~= shorter.push(x));
    lemma_occurrences_bound(shorter, x as int);
    assert(h[x as int] == occurrences(shorter, x as int));
    let raised = h.update(x as int, (h[x as int] + 1) as u32);
    assert forall|v: int| 0 <= v < 256 implies raised[v] == #[trigger] occurrences(longer, v) by {
        lemma_occurrences_push(shorter, x, v);
        assert(h[v] == occurrences(shorter, v));
    }
}

/// A level that occurs nowhere has no occurrences.
pub proof fn lemma_occurrences_absent(levels: Seq<u8>, v: int)
    requires
        forall|i: int| 0 <= i < levels.len() ==> levels[i] != v,
    ensures
        occurrences(levels, v) == 0,
    decreases levels.len(),
{
    if levels.len() > 0 {
        lemma_occurrences_absent(levels.drop_last(), v);
    }
}

/// A level that stands at every position occurs as often as there are
/// entries.
pub proof fn lemma_occurrences_everywhere(levels: Seq<u8>, v: int)
    requires
        forall|i: int| 0 <= i < levels.len() ==> levels[i] == v,
    ensures
        occurrences(levels, v) == levels.len(),
    decreases levels.len(),
{
    if levels.len() > 0 {
        lemma_occurrences_everywhere(levels.drop_last(), v);
    }
}

/// Fewer than 2^32 entries have a histogram.
pub proof fn lemma_histogram_of(levels: Seq<u8>)
    requires
        levels.len() <= u32::MAX,
    ensures
        is_histogram_of(histogram_of(levels), levels),
{
    assert forall|v: int| 0 <= v < 256 implies histogram_of(levels)[v] == #[trigger] occurrences(
        levels,
        v,
    ) by {
        lemma_occurrences_bound(levels, v);
    }
}

/// A histogram is the histogram of the entries it counts.
pub proof fn lemma_histogram_unique(h: Seq<u32>, levels: Seq<u8>)
    requires
        is_histogram_of(h, levels),
    ensures
        h == histogram_of(levels),
{
    assert(h =~= histogram_of(levels));
}

/// A level that occurs at some position occurs at least once.
pub proof fn lemma_occurrences_positive(levels: Seq<u8>, p: int)
    requires
        0 <= p < levels.len(),
    ensures
        occurrences(levels, levels[p] as int) > 0,
    decreases levels.len(),
{
    if p < levels.len() - 1 {
        lemma_occurrences_positive(levels.drop_last(), p);
    }
}

proof fn lemma_lowest_from(h: Seq<u32>, k: int, v: int)
    requires
        0 <= k <= v < 256,
        h[v] > 0,
    ensures
        k <= lowest_from(h, k) <= v,
    decreases 255 - k,
{
    if k < 255 && h[k] == 0 {
        lemma_lowest_from(h, k + 1, v);
    }
}

proof fn lemma_highest_upto(h: Seq<u32>, k: int, v: int)
    requires
        0 <= v <= k < 256,
        h[v] > 0,
    ensures
        v <= highest_upto(h, k) <= k,
    decreases k,
{
    if k > 0 && h[k] == 0 {
        lemma_highest_upto(h, k - 1, v);
    }
}

/// Empty buckets from `k` up to `x` put the lowest level from `k` on at `x`
/// or above.
pub proof fn lemma_lowest_from_skips(h: Seq<u32>, k: int, x: int)
    requires
        0 <= k <= x <= 255,
        forall|j: int| k <= j < x ==> h[j] == 0,
    ensures
        x <= lowest_from(h, k),
    decreases 255 - k,
{
    if k < 255 {
        if k < x {
            lemma_lowest_from_skips(h, k + 1, x);
        } else if h[k] == 0 {
            lemma_lowest_from_skips(h, k + 1, k + 1);
        }
    }
}

/// Empty buckets from `k` down to `x` put the highest level up to `k` at
/// `x` or below.
pub proof fn lemma_highest_upto_skips(h: Seq<u32>, k: int, x: int)
    requires
        0 <= x <= k <= 255,
        forall|j: int| x < j <= k ==> h[j] == 0,
    ensures
        highest_upto(h, k) <= x,
    decreases k,
{
    if k > 0 {
        if k > x {
            lemma_highest_upto_skips(h, k - 1, x);
        } else if h[k] == 0 {
            lemma_highest_upto_skips(h, k - 1, k - 1);
        }
    }
}

/// The lowest level from `k` on has only empty buckets between `k` and
/// itself, and unless it is 255 its own bucket is not empty.
pub proof fn lemma_lowest_from_ends(h: Seq<u32>, k: int)
    requires
        0 <= k <= 255,
    ensures
        k <= lowest_from(h, k) <= 255,
        forall|j: int| k <= j < lowest_from(h, k) ==> h[j] == 0,
        lowest_from(h, k) < 255 ==> h[lowest_from(h, k)] > 0,
    decreases 255 - k,
{
    if k < 255 && h[k] == 0 {
        lemma_lowest_from_ends(h, k + 1);
    }
}

/// The highest level up to `k` has only empty buckets between itself and
/// `k`, and unless it is 0 its own bucket is not empty.
pub proof fn lemma_highest_upto_ends(h: Seq<u32>, k: int)
    requires
        0 <= k <= 255,
    ensures
        0 <= highest_upto(h, k) <= k,
        forall|j: int| highest_upto(h, k) < j <= k ==> h[j] == 0,
        highest_upto(h, k) > 0 ==> h[highest_upto(h, k)] > 0,
    decreases k,
{
    if k > 0 && h[k] == 0 {
        lemma_highest_upto_ends(h, k - 1);
    }
}

/// What the lowest and the highest level are. No level below the lowest or
/// above the highest is counted. In a histogram that counts anything, both
/// are counted levels; in one that counts nothing, the lowest is 255 and the
/// highest 0.
pub proof fn lemma_level_ends(h: Seq<u32>)
    ensures
        0 <= lowest_level(h) <= 255,
        0 <= highest_level(h) <= 255,
        forall|v: int| 0 <= v < lowest_level(h) ==> h[v] == 0,
        forall|v: int| highest_level(h) < v <= 255 ==> h[v] == 0,
        (exists|v: int| 0 <= v < 256 && h[v] > 0) ==> h[lowest_level(h)] > 0 && h[highest_level(
            h,
        )] > 0,
        (forall|v: int| 0 <= v < 256 ==> h[v] == 0) ==> lowest_level(h) == 255 && highest_level(h)
            == 0,
{
    lemma_lowest_from_ends(h, 0);
    lemma_highest_upto_ends(h, 255);
    if exists|v: int| 0 <= v < 256 && h[v] > 0 {
        let v = choose|v: int| 0 <= v < 256 && h[v] > 0;
        lemma_level_range(h, v);
    }
}

/// Every counted level lies between the lowest and the highest level.
pub proof fn lemma_level_range(h: Seq<u32>, v: int)
    requires
        0 <= v < 256,
        h[v] > 0,
    ensures
        0 <= lowest_level(h) <= v <= highest_level(h) <= 255,
{
    lemma_lowest_from(h, 0, v);
    lemma_highest_upto(h, 255, v);
}

/// A range of buckets splits at any point inside it.
pub proof fn lemma_weight_split(h: Seq<u32>, lo: int, mid: int, hi: int)
    requires
        lo <= mid <= hi,
    ensures
        weight(h, lo, hi) == weight(h, lo, mid) + weight(h, mid, hi),
        moment(h, lo, hi) == moment(h, lo, mid) + moment(h, mid, hi),
    decreases hi - mid,
{
    if mid < hi {
        lemma_weight_split(h, lo, mid, hi - 1);
    }
}

/// Where `g` is the only level with a bucket that is not empty, a range of
/// buckets sums to that bucket if it holds `g`, and to nothing if not.
pub proof fn lemma_single_bucket(h: Seq<u32>, g: int, lo: int, hi: int)
    requires
        0 <= lo,
        forall|v: int| 0 <= v && v != g ==> h[v] == 0,
    ensures
        weight(h, lo, hi) == if lo <= g < hi {
            h[g] as int
        } else {
            0
        },
        moment(h, lo, hi) == if lo <= g < hi {
            g * h[g]
        } else {
            0
        },
    decreases hi - lo,
{
    if lo < hi {
        lemma_single_bucket(h, g, lo, hi - 1);
        if hi - 1 != g {
            assert((hi - 1) * h[hi - 1] == 0) by (nonlinear_arith)
                requires
                    h[hi - 1] == 0,
            ;
        }
    }
}

/// A wider range of buckets sums to at least as much.
pub proof fn lemma_weight_monotone(h: Seq<u32>, lo: int, mid: int, hi: int)
    requires
        0 <= lo <= mid <= hi,
    ensures
        weight(h, lo, mid) <= weight(h, lo, hi),
        moment(h, lo, mid) <= moment(h, lo, hi),
{
    lemma_weight_split(h, lo, mid, hi);
    lemma_weight_bounds(h, mid, hi);
    assert(0 <= mid * weight(h, mid, hi)) by (nonlinear_arith)
        requires
            0 <= mid,
            0 <= weight(h, mid, hi),
    ;
}

/// Each bucket holds less than 2^32, so a sum of buckets stays below that
/// many times 2^32.
pub proof fn lemma_weight_limit(h: Seq<u32>, lo: int, hi: int)
    requires
        lo <= hi,
    ensures
        weight(h, lo, hi) <= (hi - lo) * 0xffff_ffff,
    decreases hi - lo,
{
    if lo < hi {
        lemma_weight_limit(h, lo, hi - 1);
    }
}

/// Sums of buckets are not negative and grow with the range; the levels they
/// count lie between the ends of the range.
pub proof fn lemma_weight_bounds(h: Seq<u32>, lo: int, hi: int)
    requires
        0 <= lo,
    ensures
        0 <= weight(h, lo, hi),
        lo * weight(h, lo, hi) <= moment(h, lo, hi),
        hi <= lo || moment(h, lo, hi) <= (hi - 1) * weight(h, lo, hi),
    decreases hi - lo,
{
    if lo < hi {
        lemma_weight_bounds(h, lo, hi - 1);
        let w = weight(h, lo, hi - 1);
        let x = h[hi - 1] as int;
        assert(lo * (w + x) == lo * w + lo * x) by (nonlinear_arith);
        assert(lo * x <= (hi - 1) * x) by (nonlinear_arith)
            requires
                lo <= hi - 1,
                0 <= x,
        ;
        assert((hi - 1) * (w + x) == (hi - 1) * w + (hi - 1) * x) by (nonlinear_arith);
        if lo < hi - 1 {
            assert((hi - 2) * w <= (hi - 1) * w) by (nonlinear_arith)
                requires
                    0 <= w,
            ;
        }
    }
}

/// Sum of all buckets.
pub fn histogram_sum(h: &[u32; 256]) -> (r: u64)
    ensures
        r == total(h@),
{
    let mut sum: u64 = 0;
    let mut k: usize = 0;
    while k < 256
        invariant
            k <= 256,
            sum == weight(h@, 0, k as int),
        decreases 256 - k,
    {
        proof {
            lemma_weight_limit(h@, 0, k as int);
        }
        sum = sum + h[k] as u64;
        k = k + 1;
    }
    sum
}

/// Lowest and highest level that the histogram counts at least once.
pub fn level_range(h: &[u32; 256]) -> (r: (u8, u8))
    ensures
        r.0 == lowest_level(h@),
        r.1 == highest_level(h@),
{
    let mut lo: usize = 0;
    while lo < 255 && h[lo] == 0
        invariant
            lo <= 255,
            lowest_from(h@, lo as int) == lowest_level(h@),
        decreases 255 - lo,
    {
        lo = lo + 1;
    }
    let mut hi: usize = 255;
    while hi > 0 && h[hi] == 0
        invariant
            hi <= 255,
            highest_upto(h@, hi as int) == highest_level(h@),
        decreases hi,
    {
        hi = hi - 1;
    }
    (lo as u8, hi as u8)
}

} // verus!
