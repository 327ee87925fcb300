//! The pixel buffer and its histograms.

use vstd::prelude::*;
use crate::decode::{decode_rgba8, decoded_rgba8};
use crate::histogram::{is_histogram_of, lemma_histogram_total, lemma_tally, total};

verus! {

/// One channel of a pixel. A pixel takes four consecutive bytes of the
/// buffer, in the order of the variants.
#[derive(Clone, Copy, Debug, PartialEq, Eq, Structural, Hash)]
pub enum ColorComponent {
    Red,
    Green,
    Blue,
    Alpha,
}

impl ColorComponent {
    /// Position of the channel's byte inside its pixel.
    pub open spec fn spec_offset(self) -> int {
        match self {
            ColorComponent::Red => 0,
            ColorComponent::Green => 1,
            ColorComponent::Blue => 2,
            ColorComponent::Alpha => 3,
        }
    }

    /// Whether the channel carries colour, that is, is not `Alpha`.
    pub open spec fn is_color(self) -> bool {
        self != ColorComponent::Alpha
    }

    /// Position of the channel's byte inside its pixel.
    pub fn offset(self) -> (r: usize)
        ensures
            r == self.spec_offset(),
    {
        match self {
            ColorComponent::Red => 0,
            ColorComponent::Green => 1,
            ColorComponent::Blue => 2,
            ColorComponent::Alpha => 3,
        }
    }
}

/// Gray level of a colour: the weighted sum
/// 0.2126 red + 0.7152 green + 0.0722 blue, cut off to a whole number.
pub open spec fn luminance(red: u8, green: u8, blue: u8) -> int {
    (2126 * red + 7152 * green + 722 * blue) / 10000
}

/// Gray level of a colour.
pub fn gray_level(red: u8, green: u8, blue: u8) -> (r: u8)
    ensures
        r == luminance(red, green, blue),
{
    let sum: u32 = 2126 * (red as u32) + 7152 * (green as u32) + 722 * (blue as u32);
    (sum / 10000) as u8
}

/// The histograms of the three colour channels. Alpha has none.
pub struct ChannelHistogram {
    pub red: [u32; 256],
    pub green: [u32; 256],
    pub blue: [u32; 256],
}

impl View for ChannelHistogram {
    type V = Map<ColorComponent, Seq<u32>>;

    open spec fn view(&self) -> Map<ColorComponent, Seq<u32>> {
        map![
            ColorComponent::Red => self.red@,
            ColorComponent::Green => self.green@,
            ColorComponent::Blue => self.blue@,
        ]
    }
}

impl ChannelHistogram {
    /// The histogram of a colour channel; none for `Alpha`.
    pub fn get(&self, component: &ColorComponent) -> (r: Option<&[u32; 256]>)
        ensures
            r is Some <==> self@.dom().contains(*component),
            r is Some <==> component.is_color(),
            r matches Some(h) ==> h@ == self@[*component],
    {
        match component {
            ColorComponent::Red => Some(&self.red),
            ColorComponent::Green => Some(&self.green),
            ColorComponent::Blue => Some(&self.blue),
            ColorComponent::Alpha => None,
        }
    }
}

/// The bytes of an image after each colour level went through the table of
/// its channel. Alpha stays as it is.
pub open spec fn remapped(pixels: Seq<u8>, red: Seq<u8>, green: Seq<u8>, blue: Seq<u8>) -> Seq<u8> {
    Seq::new(
        pixels.len(),
        |i: int|
            if i % 4 == 0 {
                red[pixels[i] as int]
            } else if i % 4 == 1 {
                green[pixels[i] as int]
            } else if i % 4 == 2 {
                blue[pixels[i] as int]
            } else {
                pixels[i]
            },
    )
}

/// A sequence of levels after each went through a table.
pub open spec fn through(levels: Seq<u8>, table: Seq<u8>) -> Seq<u8> {
    Seq::new(levels.len(), |p: int| table[levels[p] as int])
}

/// What an [`Image`] stands for: its dimensions and its bytes, four per
/// pixel, row after row.
pub struct ImageView {
    pub width: nat,
    pub height: nat,
    pub pixels: Seq<u8>,
}

impl ImageView {
    /// Number of pixels.
    pub open spec fn pixel_count(self) -> nat {
        self.width * self.height
    }

    /// The buffer holds four bytes for each pixel, and the pixels can be
    /// counted in 32 bits.
    pub open spec fn wf(self) -> bool {
        &&& self.pixels.len() == 4 * self.pixel_count()
        &&& self.pixel_count() <= u32::MAX
    }

    /// The levels of one channel, pixel by pixel.
    pub open spec fn channel(self, component: ColorComponent) -> Seq<u8> {
        Seq::new(self.pixel_count(), |p: int| self.pixels[4 * p + component.spec_offset()])
    }

    /// The gray levels, pixel by pixel.
    pub open spec fn gray(self) -> Seq<u8> {
        Seq::new(
            self.pixel_count(),
            |p: int| luminance(self.pixels[4 * p], self.pixels[4 * p + 1], self.pixels[4 * p + 2]) as u8,
        )
    }
}

/// Seen channel by channel, remapping sends the levels of each colour
/// channel through its table and keeps the alpha channel.
pub proof fn lemma_remapped_channels(
    img: ImageView,
    out: ImageView,
    red: Seq<u8>,
    green: Seq<u8>,
    blue: Seq<u8>,
)
    requires
        img.wf(),
        out == (ImageView {
            width: img.width,
            height: img.height,
            pixels: remapped(img.pixels, red, green, blue),
        }),
    ensures
        out.wf(),
        out.channel(ColorComponent::Red) == through(img.channel(ColorComponent::Red), red),
        out.channel(ColorComponent::Green) == through(img.channel(ColorComponent::Green), green),
        out.channel(ColorComponent::Blue) == through(img.channel(ColorComponent::Blue), blue),
        out.channel(ColorComponent::Alpha) == img.channel(ColorComponent::Alpha),
{
    assert(out.channel(ColorComponent::Red) =~= through(img.channel(ColorComponent::Red), red));
    assert(out.channel(ColorComponent::Green) =~= through(img.channel(ColorComponent::Green), green));
    assert(out.channel(ColorComponent::Blue) =~= through(img.channel(ColorComponent::Blue), blue));
    assert(out.channel(ColorComponent::Alpha) =~= img.channel(ColorComponent::Alpha));
}

/// The image that decoded bytes make: none where nothing was decoded, where
/// the buffer does not hold four bytes per pixel, or where the pixels cannot
/// be counted in 32 bits.
pub open spec fn image_of(decoded: Option<(u32, u32, Seq<u8>)>) -> Option<ImageView> {
    match decoded {
        Some((width, height, pixels)) => {
            let view = ImageView { width: width as nat, height: height as nat, pixels };
            if view.wf() {
                Some(view)
            } else {
                None
            }
        },
        None => None,
    }
}

/// A decoded image: `width * height` pixels of four bytes each, in the order
/// red, green, blue, alpha. An image is never changed; every operation
/// returns a new one.
pub struct Image {
    width: u32,
    height: u32,
    data: Vec<u8>,
}

impl View for Image {
    type V = ImageView;

    closed spec fn view(&self) -> ImageView {
        ImageView { width: self.width as nat, height: self.height as nat, pixels: self.data@ }
    }
}

impl Clone for Image {
    fn clone(&self) -> (r: Self)
        ensures
            r@ == self@,
    {
        proof {
            use_type_invariant(self);
        }
        let data: Vec<u8> = self.data.clone();
        assert(data@ =~= self.data@);
        Image { width: self.width, height: self.height, data }
    }
}

impl Image {
    #[verifier::type_invariant]
    spec fn inv(self) -> bool {
        self@.wf()
    }

    /// Decodes an encoded image, whatever its format. There is no image
    /// where the decoder fails.
    pub fn new_with_data(data: Vec<u8>) -> (r: Option<Image>)
        ensures
            match r {
                Some(img) => image_of(decoded_rgba8(data@)) == Some(img@),
                None => image_of(decoded_rgba8(data@)) is None,
            },
    {
        match decode_rgba8(&data) {
            Some((width, height, pixels)) => Image::from_rgba8(width, height, pixels),
            None => None,
        }
    }

    /// Makes an image of decoded bytes. The buffer must hold exactly four
    /// bytes per pixel, and `width * height` must fit in 32 bits; otherwise
    /// there is no image.
    pub fn from_rgba8(width: u32, height: u32, data: Vec<u8>) -> (r: Option<Image>)
        ensures
            r is Some <==> data.len() == 4 * (width * height) && width * height <= u32::MAX,
            r matches Some(img) ==> img@ == (ImageView {
                width: width as nat,
                height: height as nat,
                pixels: data@,
            }) && img@.wf(),
    {
        assert(width * height <= 0xffff_ffff * 0xffff_ffff) by (nonlinear_arith)
            requires
                width <= 0xffff_ffff,
                height <= 0xffff_ffff,
        ;
        let count: u64 = (width as u64) * (height as u64);
        if count > u32::MAX as u64 {
            return None;
        }
        if data.len() as u64 != 4 * count {
            return None;
        }
        Some(Image { width, height, data })
    }

    /// Counts, for each colour channel, how many pixels have each level.
    /// Each of the three histograms adds up to the number of pixels.
    pub fn get_histogram(&self) -> (h: ChannelHistogram)
        ensures
            self@.wf(),
            forall|c: ColorComponent| h@.dom().contains(c) <==> c.is_color(),
            forall|c: ColorComponent|
                c.is_color() ==> is_histogram_of(#[trigger] h@[c], self@.channel(c)),
            forall|c: ColorComponent|
                c.is_color() ==> total(#[trigger] h@[c]) == self@.width * self@.height,
    {
        proof {
            use_type_invariant(self);
        }
        let mut red: [u32; 256] = [0u32; 256];
        let mut green: [u32; 256] = [0u32; 256];
        let mut blue: [u32; 256] = [0u32; 256];
        let n: usize = self.data.len() / 4;
        let ghost reds = self@.channel(ColorComponent::Red);
        let ghost greens = self@.channel(ColorComponent::Green);
        let ghost blues = self@.channel(ColorComponent::Blue);
        let mut p: usize = 0;
        while p < n
            invariant
                p <= n,
                n == self@.pixel_count(),
                self.data@.len() == 4 * n,
                4 * n <= usize::MAX,
                self.data@ == self@.pixels,
                n <= u32::MAX,
                reds == self@.channel(ColorComponent::Red),
                greens == self@.channel(ColorComponent::Green),
                blues == self@.channel(ColorComponent::Blue),
                is_histogram_of(red@, reds.take(p as int)),
                is_histogram_of(green@, greens.take(p as int)),
                is_histogram_of(blue@, blues.take(p as int)),
            decreases n - p,
        {
            let r: u8 = self.data[4 * p];
            let g: u8 = self.data[4 * p + 1];
            let b: u8 = self.data[4 * p + 2];
            proof {
                lemma_tally(red@, reds, p as int);
                lemma_tally(green@, greens, p as int);
                lemma_tally(blue@, blues, p as int);
            }
            red[r as usize] = red[r as usize] + 1;
            green[g as usize] = green[g as usize] + 1;
            blue[b as usize] = blue[b as usize] + 1;
            p = p + 1;
        }
        let h = ChannelHistogram { red, green, blue };
        proof {
            assert(reds.take(n as int) =~= reds);
            assert(greens.take(n as int) =~= greens);
            assert(blues.take(n as int) =~= blues);
            lemma_histogram_total(red@, reds);
            lemma_histogram_total(green@, greens);
            lemma_histogram_total(blue@, blues);
            assert forall|c: ColorComponent| c.is_color() implies is_histogram_of(
                #[trigger] h@[c],
                self@.channel(c),
            ) && total(h@[c]) == self@.width * self@.height by {
                match c {
                    ColorComponent::Red => {},
                    ColorComponent::Green => {},
                    ColorComponent::Blue => {},
                    ColorComponent::Alpha => {},
                }
            }
        }
        h
    }

    /// Counts how many pixels have each gray level. The histogram adds up to
    /// the number of pixels.
    pub fn get_grayscale_histogram(&self) -> (h: [u32; 256])
        ensures
            self@.wf(),
            is_histogram_of(h@, self@.gray()),
            total(h@) == self@.width * self@.height,
    {
        proof {
            use_type_invariant(self);
        }
        let mut h: [u32; 256] = [0u32; 256];
        let n: usize = self.data.len() / 4;
        let ghost grays = self@.gray();
        let mut p: usize = 0;
        while p < n
            invariant
                p <= n,
                n == self@.pixel_count(),
                self.data@.len() == 4 * n,
                4 * n <= usize::MAX,
                self.data@ == self@.pixels,
                n <= u32::MAX,
                grays == self@.gray(),
                is_histogram_of(h@, grays.take(p as int)),
            decreases n - p,
        {
            let level: u8 = gray_level(self.data[4 * p], self.data[4 * p + 1], self.data[4 * p + 2]);
            proof {
                lemma_tally(h@, grays, p as int);
            }
            h[level as usize] = h[level as usize] + 1;
            p = p + 1;
        }
        proof {
            assert(grays.take(n as int) =~= grays);
            lemma_histogram_total(h@, grays);
        }
        h
    }

    /// An image of the same size with other bytes.
    pub(crate) fn with_pixels(&self, data: Vec<u8>) -> (r: Image)
        requires
            data.len() == self@.pixels.len(),
        ensures
            r@ == (ImageView { width: self@.width, height: self@.height, pixels: data@ }),
            r@.wf(),
    {
        proof {
            use_type_invariant(self);
        }
        Image { width: self.width, height: self.height, data }
    }

    /// Sends every colour level through the table of its channel.
    pub(crate) fn remap(&self, red: &[u8; 256], green: &[u8; 256], blue: &[u8; 256]) -> (r: Image)
        ensures
            r@ == (ImageView {
                width: self@.width,
                height: self@.height,
                pixels: remapped(self@.pixels, red@, green@, blue@),
            }),
            r@.wf(),
            self@.wf(),
    {
        proof {
            use_type_invariant(self);
        }
        let n: usize = self.data.len() / 4;
        let mut data: Vec<u8> = Vec::with_capacity(self.data.len());
        let ghost target = remapped(self@.pixels, red@, green@, blue@);
        let mut p: usize = 0;
        while p < n
            invariant
                p <= n,
                self.data@.len() == 4 * n,
                4 * n <= usize::MAX,
                self.data@ == self@.pixels,
                target == remapped(self@.pixels, red@, green@, blue@),
                data@.len() == 4 * p,
                forall|i: int| 0 <= i < 4 * p ==> data@[i] == target[i],
            decreases n - p,
        {
            data.push(red[self.data[4 * p] as usize]);
            data.push(green[self.data[4 * p + 1] as usize]);
            data.push(blue[self.data[4 * p + 2] as usize]);
            data.push(self.data[4 * p + 3]);
            p = p + 1;
        }
        assert(data@ =~= target);
        self.with_pixels(data)
    }

    /// Number of pixels in a row.
    pub fn get_width(&self) -> (r: u32)
        ensures
            r == self@.width,
            self@.wf(),
    {
        proof {
            use_type_invariant(self);
        }
        self.width
    }

    /// Number of rows.
    pub fn get_height(&self) -> (r: u32)
        ensures
            r == self@.height,
            self@.wf(),
    {
        proof {
            use_type_invariant(self);
        }
        self.height
    }

    /// The bytes of the image, four per pixel.
    pub fn get_data_ref(&self) -> (r: &Vec<u8>)
        ensures
            r@ == self@.pixels,
            self@.wf(),
    {
        proof {
            use_type_invariant(self);
        }
        &self.data
    }
}

} // verus!
