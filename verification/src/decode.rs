//! Decoding of encoded images (PNG, JPEG and the like) to RGBA8 bytes.

use vstd::prelude::*;

verus! {

/// What the decoder makes of encoded bytes: width, height and the RGBA8
/// bytes of the picture, or nothing where it reads no picture from them.
pub uninterp spec fn decoded_rgba8(bytes: Seq<u8>) -> Option<(u32, u32, Seq<u8>)>;

/// Decodes with the `image` crate: `io::Reader::new` on a cursor over the
/// bytes, `with_guessed_format`, `decode`, and from the `DynamicImage` its
/// `width`, `height` and `to_rgba8().into_vec()`. An error of the reader or
/// of the decoder gives `None`. The contract claims only that the outcome is
/// a function of the bytes; nothing is claimed of what it holds.
#[verifier::external_body]
pub(crate) fn decode_rgba8(data: &Vec<u8>) -> (r: Option<(u32, u32, Vec<u8>)>)
    ensures
        match r {
            Some((width, height, pixels)) => decoded_rgba8(data@) == Some(
                (width, height, pixels@),
            ),
            None => decoded_rgba8(data@) is None,
        },
{
    let guessed = ::image::io::Reader::new(std::io::Cursor::new(&data[..])).with_guessed_format();
    let reader = match guessed {
        Ok(reader) => reader,
        Err(_) => return None,
    };
    match reader.decode() {
        Ok(picture) => Some((picture.width(), picture.height(), picture.to_rgba8().into_vec())),
        Err(_) => None,
    }
}

} // verus!
