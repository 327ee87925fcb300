//! The percent-black rule: the cutoff below which a wanted share of the pixels lies.

use vstd::prelude::*;
use crate::histogram::{
    cumulative, histogram_of, lemma_histogram_unique, lemma_weight_limit, lemma_weight_monotone,
    total, weight,
};
use crate::image::{Image, ImageView};
use crate::threshold::binarized;

verus! {

/// Smallest level from `k` on at which the cumulative count reaches
/// `target`; 0 if there is none.
pub open spec fn first_reaching(h: Seq<u32>, target: int, k: int) -> int
    decreases 256 - k,
{
    if k >= 256 {
        0
    } else if cumulative(h, k) >= target {
        k
    } else {
        first_reaching(h, target, k + 1)
    }
}

/// The cutoff that leaves `target` entries at or below it: the smallest
/// level at which the cumulative count reaches `target`. A target that the
/// histogram never reaches gives 0.
pub open spec fn percent_black_level(h: Seq<u32>, target: int) -> int {
    first_reaching(h, target, 0)
}

proof fn lemma_first_reaching(h: Seq<u32>, target: int, k: int)
    requires
        0 <= k <= 256,
        forall|j: int| 0 <= j < k ==> cumulative(h, j) < target,
    ensures
        0 <= first_reaching(h, target, k) < 256,
        target <= total(h) && h.len() == 256 ==> {
            &&& cumulative(h, first_reaching(h, target, k)) >= target
            &&& forall|j: int|
                0 <= j < first_reaching(h, target, k) ==> cumulative(h, j) < target
        },
        target > total(h) && h.len() == 256 ==> first_reaching(h, target, k) == 0,
    decreases 256 - k,
{
    if k < 256 {
        if cumulative(h, k) < target {
            lemma_first_reaching(h, target, k + 1);
        } else if h.len() == 256 {
            lemma_weight_monotone(h, 0, k + 1, 256);
        }
    } else if h.len() == 256 {
        assert(cumulative(h, 255) == total(h));
    }
}

/// The percent-black cutoff is a level. Where the histogram holds at least
/// `target` entries, the cutoff is the first level at which the cumulative
/// count reaches `target`; where it holds fewer, the cutoff is 0.
pub proof fn lemma_percent_black_level(h: Seq<u32>, target: int)
    requires
        h.len() == 256,
    ensures
        0 <= percent_black_level(h, target) < 256,
        target <= total(h) ==> {
            &&& cumulative(h, percent_black_level(h, target)) >= target
            &&& forall|j: int|
                0 <= j < percent_black_level(h, target) ==> cumulative(h, j) < target
        },
        target > total(h) ==> percent_black_level(h, target) == 0,
{
    lemma_first_reaching(h, target, 0);
}

/// The percent-black cutoff for a histogram and a number of entries.
pub fn percent_black_threshold(h: &[u32; 256], target: u32) -> (t: u8)
    ensures
        t == percent_black_level(h@, target as int),
{
    let mut sum: u64 = 0;
    let mut k: usize = 0;
    while k < 256
        invariant
            k <= 256,
            sum == weight(h@, 0, k as int),
            first_reaching(h@, target as int, k as int) == percent_black_level(h@, target as int),
        decreases 256 - k,
    {
        proof {
            lemma_weight_limit(h@, 0, k as int);
        }
        sum = sum + h[k] as u64;
        if sum >= target as u64 {
            return k as u8;
        }
        k = k + 1;
    }
    0
}

impl Image {
    /// Binarizes with the percent-black cutoff of the gray levels: the
    /// lowest gray level at or below which at least `pixels` pixels lie.
    /// `pixels` is the wanted share of the image as a number of pixels, the
    /// share times `width * height` with the fraction cut off. The pixels
    /// with a colour level at or above the cutoff become white.
    pub fn percent_black_selection(&self, pixels: u32) -> (r: Image)
        ensures
            r@ == (ImageView {
                width: self@.width,
                height: self@.height,
                pixels: binarized(
                    self@.pixels,
                    percent_black_level(histogram_of(self@.gray()), pixels as int) as u8,
                    255,
                ),
            }),
            r@.wf(),
    {
        let h: [u32; 256] = self.get_grayscale_histogram();
        proof {
            lemma_histogram_unique(h@, self@.gray());
        }
        let t: u8 = percent_black_threshold(&h, pixels);
        self.threshold((t, 255))
    }
}

} // verus!
