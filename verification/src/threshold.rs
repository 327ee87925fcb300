//! Binarization by a range of levels.

use vstd::prelude::*;
use crate::image::{luminance, ColorComponent, Image, ImageView};

verus! {

/// What a pixel's colour bytes become: 255 if one of its colour levels lies
/// in `low..=high`, else 0.
pub open spec fn binarized_level(red: u8, green: u8, blue: u8, low: u8, high: u8) -> u8 {
    if low <= red <= high || low <= green <= high || low <= blue <= high {
        255
    } else {
        0
    }
}

/// The bytes of an image after binarization: the three colour bytes of each
/// pixel are its binarized level, and its alpha byte stays.
pub open spec fn binarized(pixels: Seq<u8>, low: u8, high: u8) -> Seq<u8> {
    Seq::new(
        pixels.len(),
        |i: int|
            if i % 4 == 3 {
                pixels[i]
            } else {
                binarized_level(
                    pixels[i - i % 4],
                    pixels[i - i % 4 + 1],
                    pixels[i - i % 4 + 2],
                    low,
                    high,
                )
            },
    )
}

/// A pixel turns white under every range that runs from its own gray level,
/// or from below it, up to 255: the gray level is a weighted mean of the
/// colour levels, so one of them is at least as high.
pub proof fn lemma_white_from_gray_level(red: u8, green: u8, blue: u8, low: u8)
    requires
        low <= luminance(red, green, blue),
    ensures
        binarized_level(red, green, blue, low, 255) == 255,
{
}

impl Image {
    /// Turns the image black and white. A pixel with a red, green or blue
    /// level in `range.0..=range.1` becomes white, any other black; alpha is
    /// kept. The full range 0..=255 gives a white image, and an empty range,
    /// one whose lower end lies above its upper end, a black one.
    pub fn threshold(&self, range: (u8, u8)) -> (r: Image)
        ensures
            r@ == (ImageView {
                width: self@.width,
                height: self@.height,
                pixels: binarized(self@.pixels, range.0, range.1),
            }),
            r@.wf(),
            r@.channel(ColorComponent::Alpha) == self@.channel(ColorComponent::Alpha),
            range.0 == 0 && range.1 == 255 ==> forall|c: ColorComponent, p: int|
                c.is_color() && 0 <= p < r@.pixel_count() ==> #[trigger] r@.channel(c)[p] == 255,
            range.0 > range.1 ==> forall|c: ColorComponent, p: int|
                c.is_color() && 0 <= p < r@.pixel_count() ==> #[trigger] r@.channel(c)[p] == 0,
    {
        let low: u8 = range.0;
        let high: u8 = range.1;
        let source: &Vec<u8> = self.get_data_ref();
        let n: usize = source.len() / 4;
        let mut data: Vec<u8> = Vec::with_capacity(source.len());
        let ghost target = binarized(self@.pixels, low, high);
        let mut p: usize = 0;
        while p < n
            invariant
                p <= n,
                source@.len() == 4 * n,
                4 * n <= usize::MAX,
                source@ == self@.pixels,
                target == binarized(self@.pixels, low, high),
                data@.len() == 4 * p,
                forall|i: int| 0 <= i < 4 * p ==> data@[i] == target[i],
            decreases n - p,
        {
            let red: u8 = source[4 * p];
            let green: u8 = source[4 * p + 1];
            let blue: u8 = source[4 * p + 2];
            let white: bool = (low <= red && red <= high) || (low <= green && green <= high)
                || (low <= blue && blue <= high);
            let level: u8 = if white {
                255
            } else {
                0
            };
            data.push(level);
            data.push(level);
            data.push(level);
            data.push(source[4 * p + 3]);
            p = p + 1;
        }
        assert(data@ =~= target);
        let r = self.with_pixels(data);
        proof {
            assert(r@.channel(ColorComponent::Alpha) =~= self@.channel(ColorComponent::Alpha));
            assert forall|c: ColorComponent, p: int|
                c.is_color() && 0 <= p < r@.pixel_count() implies #[trigger] r@.channel(c)[p]
                == binarized_level(
                self@.pixels[4 * p],
                self@.pixels[4 * p + 1],
                self@.pixels[4 * p + 2],
                low,
                high,
            ) by {
                let i = 4 * p + c.spec_offset();
                assert(i % 4 == c.spec_offset());
                assert(r@.channel(c)[p] == target[i]);
            }
        }
        r
    }
}

} // verus!
