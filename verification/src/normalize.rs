//! Contrast normalization: equalizing and stretching the colour channels.

use vstd::prelude::*;
use crate::histogram::{
    cumulative, highest_level, histogram_of, histogram_sum, is_histogram_of, level_range,
    lemma_highest_upto_skips, lemma_histogram_of, lemma_histogram_total, lemma_histogram_unique,
    lemma_level_range, lemma_lowest_from_skips, lemma_occurrences_absent,
    lemma_occurrences_everywhere, lemma_occurrences_positive, lemma_weight_limit,
    lemma_weight_monotone, lowest_level, total, weight,
};
use crate::image::{lemma_remapped_channels, through, ColorComponent, Image};

verus! {

/// Where equalization sends the level `v` of a channel with histogram `h`:
/// the share of the counted entries that lie at or below `v`, not counting
/// those at level 0, scaled to 0..=255 and rounded to the nearest whole
/// number, halves upwards. When every entry is at level 0 there is nothing to
/// spread, and `v` stays.
pub open spec fn equalized_level(h: Seq<u32>, v: int) -> int {
    let floor = cumulative(h, 0);
    let up = cumulative(h, v) - floor;
    let down = total(h) - floor;
    if down == 0 {
        v
    } else {
        (2 * 255 * up + down) / (2 * down)
    }
}

/// Where stretching sends the level `v` of a channel with histogram `h`: the
/// range from the lowest to the highest counted level is drawn out over
/// 0..=255, fractions cut off. A channel with a single level has no range
/// to draw out, and `v` stays.
pub open spec fn stretched_level(h: Seq<u32>, v: int) -> int {
    let lo = lowest_level(h);
    let hi = highest_level(h);
    if hi <= lo {
        v
    } else {
        (v - lo) * 255 / (hi - lo)
    }
}

/// The levels of a channel after equalization.
pub open spec fn equalized(levels: Seq<u8>) -> Seq<u8> {
    Seq::new(
        levels.len(),
        |p: int| equalized_level(histogram_of(levels), levels[p] as int) as u8,
    )
}

/// The levels of a channel after stretching.
pub open spec fn stretched(levels: Seq<u8>) -> Seq<u8> {
    Seq::new(
        levels.len(),
        |p: int| stretched_level(histogram_of(levels), levels[p] as int) as u8,
    )
}

/// Whether all entries are at one level.
pub open spec fn is_constant(levels: Seq<u8>) -> bool {
    forall|i: int, j: int|
        0 <= i < levels.len() && 0 <= j < levels.len() ==> levels[i] == levels[j]
}

/// Stretching leaves a channel as it is where every pixel has the same
/// level: there is no range to draw out.
pub proof fn lemma_stretch_keeps_constant(levels: Seq<u8>)
    requires
        is_constant(levels),
    ensures
        stretched(levels) == levels,
{
    if levels.len() > 0 {
        let x = levels[0];
        let h = histogram_of(levels);
        assert forall|v: int| 0 <= v < 256 && v != x implies h[v] == 0 by {
            lemma_occurrences_absent(levels, v);
        }
        lemma_lowest_from_skips(h, 0, x as int);
        lemma_highest_upto_skips(h, 255, x as int);
    }
    assert(stretched(levels) =~= levels);
}

/// Equalizing leaves a channel as it is where every pixel is at level 0:
/// there is nothing to spread.
pub proof fn lemma_equalize_keeps_zero(levels: Seq<u8>)
    requires
        forall|i: int| 0 <= i < levels.len() ==> levels[i] == 0,
        levels.len() <= u32::MAX,
    ensures
        equalized(levels) == levels,
{
    let h = histogram_of(levels);
    lemma_histogram_of(levels);
    lemma_histogram_total(h, levels);
    lemma_occurrences_everywhere(levels, 0);
    assert(weight(h, 0, 1) == weight(h, 0, 0) + h[0]);
    assert(equalized(levels) =~= levels);
}

/// The equalized level of each of the 256 levels.
pub fn equalization_table(h: &[u32; 256]) -> (t: [u8; 256])
    ensures
        forall|v: int| 0 <= v < 256 ==> #[trigger] t[v] == equalized_level(h@, v),
{
    let n: u64 = histogram_sum(h);
    let floor: u64 = h[0] as u64;
    proof {
        assert(weight(h@, 0, 1) == weight(h@, 0, 0) + h@[0]);
        lemma_weight_monotone(h@, 0, 1, 256);
        lemma_weight_limit(h@, 0, 256);
    }
    let down: u64 = n - floor;
    let mut t: [u8; 256] = [0u8; 256];
    let mut cdf: u64 = 0;
    let mut v: usize = 0;
    while v < 256
        invariant
            v <= 256,
            cdf == weight(h@, 0, v as int),
            n == total(h@),
            n <= 256 * 0xffff_ffff,
            floor == cumulative(h@, 0),
            down == n - floor,
            forall|j: int| 0 <= j < v ==> t[j] == #[trigger] equalized_level(h@, j),
        decreases 256 - v,
    {
        proof {
            lemma_weight_monotone(h@, 0, v as int + 1, 256);
            lemma_weight_monotone(h@, 0, 1, v as int + 1);
        }
        cdf = cdf + h[v] as u64;
        let level: u8 = if down == 0 {
            v as u8
        } else {
            let up: u64 = cdf - floor;
            assert(510 * up + down < 2 * down * 256) by (nonlinear_arith)
                requires
                    0 <= up <= down,
                    0 < down,
            ;
            let q: u64 = (510 * up + down) / (2 * down);
            assert(q < 256) by (nonlinear_arith)
                requires
                    q == (510 * up + down) / (2 * down),
                    510 * up + down < 2 * down * 256,
                    0 < down,
            ;
            q as u8
        };
        t[v] = level;
        v = v + 1;
    }
    t
}

/// The stretched level of each level between the lowest and the highest that
/// the histogram counts; the levels outside stay.
pub fn stretch_table(h: &[u32; 256]) -> (t: [u8; 256])
    ensures
        forall|v: int|
            0 <= v < 256 ==> #[trigger] t[v] == if lowest_level(h@) <= v <= highest_level(h@) {
                stretched_level(h@, v)
            } else {
                v
            },
{
    let range: (u8, u8) = level_range(h);
    let lo: u8 = range.0;
    let hi: u8 = range.1;
    let mut t: [u8; 256] = [0u8; 256];
    let mut v: usize = 0;
    while v < 256
        invariant
            v <= 256,
            lo == lowest_level(h@),
            hi == highest_level(h@),
            forall|j: int|
                0 <= j < v ==> #[trigger] t[j] == if lo <= j <= hi {
                    stretched_level(h@, j)
                } else {
                    j
                },
        decreases 256 - v,
    {
        let level: u8 = if hi <= lo || v < lo as usize || v > hi as usize {
            v as u8
        } else {
            let span: u32 = (hi - lo) as u32;
            let rise: u32 = (v - lo as usize) as u32;
            assert(rise * 255 / span as int <= 255) by (nonlinear_arith)
                requires
                    0 <= rise <= span,
                    0 < span,
            ;
            (rise * 255 / span) as u8
        };
        t[v] = level;
        v = v + 1;
    }
    t
}

proof fn lemma_equalized_through(h: Seq<u32>, levels: Seq<u8>, table: Seq<u8>)
    requires
        is_histogram_of(h, levels),
        forall|v: int| 0 <= v < 256 ==> #[trigger] table[v] == equalized_level(h, v),
    ensures
        through(levels, table) == equalized(levels),
{
    lemma_histogram_unique(h, levels);
    assert(through(levels, table) =~= equalized(levels));
}

proof fn lemma_stretched_through(h: Seq<u32>, levels: Seq<u8>, table: Seq<u8>)
    requires
        is_histogram_of(h, levels),
        forall|v: int|
            lowest_level(h) <= v <= highest_level(h) && 0 <= v < 256 ==> #[trigger] table[v]
                == stretched_level(h, v),
    ensures
        through(levels, table) == stretched(levels),
{
    lemma_histogram_unique(h, levels);
    assert forall|p: int| 0 <= p < levels.len() implies through(levels, table)[p] == stretched(
        levels,
    )[p] by {
        lemma_occurrences_positive(levels, p);
        lemma_level_range(h, levels[p] as int);
    }
    assert(through(levels, table) =~= stretched(levels));
}

impl Image {
    /// Equalizes the histogram of each colour channel on its own; alpha is
    /// kept. Equalizing an equalized image may change it again.
    pub fn get_equalized_image(&self) -> (r: Image)
        ensures
            r@.width == self@.width,
            r@.height == self@.height,
            r@.wf(),
            forall|c: ColorComponent|
                c.is_color() ==> #[trigger] r@.channel(c) == equalized(self@.channel(c)),
            r@.channel(ColorComponent::Alpha) == self@.channel(ColorComponent::Alpha),
    {
        let hist = self.get_histogram();
        let red: [u8; 256] = equalization_table(&hist.red);
        let green: [u8; 256] = equalization_table(&hist.green);
        let blue: [u8; 256] = equalization_table(&hist.blue);
        let r = self.remap(&red, &green, &blue);
        proof {
            lemma_remapped_channels(self@, r@, red@, green@, blue@);
            assert(hist@[ColorComponent::Red] == hist.red@);
            assert(hist@[ColorComponent::Green] == hist.green@);
            assert(hist@[ColorComponent::Blue] == hist.blue@);
            lemma_equalized_through(hist.red@, self@.channel(ColorComponent::Red), red@);
            lemma_equalized_through(hist.green@, self@.channel(ColorComponent::Green), green@);
            lemma_equalized_through(hist.blue@, self@.channel(ColorComponent::Blue), blue@);
            assert forall|c: ColorComponent| c.is_color() implies #[trigger] r@.channel(c)
                == equalized(self@.channel(c)) by {
                match c {
                    ColorComponent::Red => {},
                    ColorComponent::Green => {},
                    ColorComponent::Blue => {},
                    ColorComponent::Alpha => {},
                }
            }
        }
        r
    }

    /// Stretches each colour channel on its own to the full range of levels;
    /// alpha is kept. A channel that has the same level in every pixel is
    /// left as it is.
    pub fn get_stretched_image(&self) -> (r: Image)
        ensures
            r@.width == self@.width,
            r@.height == self@.height,
            r@.wf(),
            forall|c: ColorComponent|
                c.is_color() ==> #[trigger] r@.channel(c) == stretched(self@.channel(c)),
            r@.channel(ColorComponent::Alpha) == self@.channel(ColorComponent::Alpha),
    {
        let hist = self.get_histogram();
        let red: [u8; 256] = stretch_table(&hist.red);
        let green: [u8; 256] = stretch_table(&hist.green);
        let blue: [u8; 256] = stretch_table(&hist.blue);
        let r = self.remap(&red, &green, &blue);
        proof {
            lemma_remapped_channels(self@, r@, red@, green@, blue@);
            assert(hist@[ColorComponent::Red] == hist.red@);
            assert(hist@[ColorComponent::Green] == hist.green@);
            assert(hist@[ColorComponent::Blue] == hist.blue@);
            lemma_stretched_through(hist.red@, self@.channel(ColorComponent::Red), red@);
            lemma_stretched_through(hist.green@, self@.channel(ColorComponent::Green), green@);
            lemma_stretched_through(hist.blue@, self@.channel(ColorComponent::Blue), blue@);
            assert forall|c: ColorComponent| c.is_color() implies #[trigger] r@.channel(c)
                == stretched(self@.channel(c)) by {
                match c {
                    ColorComponent::Red => {},
                    ColorComponent::Green => {},
                    ColorComponent::Blue => {},
                    ColorComponent::Alpha => {},
                }
            }
        }
        r
    }
}

} // verus!
