use std::io::Cursor;
use std::time::Duration;

use image::codecs::gif::{GifDecoder, GifEncoder, Repeat};
use image::{AnimationDecoder, Delay, ImageError, RgbaImage};
use vstd::prelude::*;

verus! {

#[verifier::external_type_specification]
#[verifier::external_body]
pub struct ExImageError(ImageError);

/// One frame of a decoded GIF: its size, its pixels as red, green, blue and
/// alpha bytes row by row, and its display time in milliseconds as the ratio
/// `delay_numer / delay_denom`.
#[derive(Debug)]
pub struct GifFrame {
    pub width: u32,
    pub height: u32,
    pub rgba: Vec<u8>,
    pub delay_numer: u32,
    pub delay_denom: u32,
}

impl View for GifFrame {
    type V = (u32, u32, Seq<u8>, u32, u32);

    open spec fn view(&self) -> Self::V {
        (self.width, self.height, self.rgba@, self.delay_numer, self.delay_denom)
    }
}

/// One frame to encode as GIF: its size, its pixels as red, green, blue and
/// alpha bytes row by row, and its display time in milliseconds.
#[derive(Debug)]
pub struct GifFrameOut {
    pub width: u32,
    pub height: u32,
    pub rgba: Vec<u8>,
    pub delay_millis: u16,
}

impl View for GifFrameOut {
    type V = (u32, u32, Seq<u8>, u16);

    open spec fn view(&self) -> Self::V {
        (self.width, self.height, self.rgba@, self.delay_millis)
    }
}

/// The frames that the `image` crate's GIF decoder gives for `bytes` (each
/// composed onto the full canvas), or `None` where it fails.
pub uninterp spec fn gif_decoding(bytes: Seq<u8>) -> Option<Seq<(u32, u32, Seq<u8>, u32, u32)>>;

/// The bytes that the `image` crate's GIF encoder writes for `frames`, set to
/// repeat forever, and whether it succeeds.
pub uninterp spec fn gif_encoding(frames: Seq<(u32, u32, Seq<u8>, u16)>) -> (Seq<u8>, bool);

/// Calls `image::codecs::gif::GifDecoder::new` on `bytes`, then
/// `into_frames().collect_frames()`, and hands each frame back as its size,
/// raw RGBA buffer and delay (`Delay::numer_denom_ms`). The result is named by
/// `gif_decoding`; the one fact stated of it is that an `ImageBuffer` holds at
/// least four bytes per pixel (`ImageBuffer::from_raw` checks it).
#[verifier::external_body]
pub(crate) fn decode_gif(bytes: &[u8]) -> (frames: Result<Vec<GifFrame>, ImageError>)
    ensures
        match frames {
            Ok(v) => {
                &&& gif_decoding(bytes@) == Some(v@.map_values(|f: GifFrame| f@))
                &&& forall|i: int| 0 <= i < v@.len() ==> 4 * v@[i].width * v@[i].height <= (#[trigger] v@[i]).rgba@.len()
            },
            Err(_) => gif_decoding(bytes@) is None,
        },
{
    let frames = GifDecoder::new(Cursor::new(bytes))?.into_frames().collect_frames()?;
    Ok(frames.into_iter().map(|frame| {
        let (delay_numer, delay_denom) = frame.delay().numer_denom_ms();
        let buffer = frame.into_buffer();
        GifFrame { width: buffer.width(), height: buffer.height(), rgba: buffer.into_raw(), delay_numer, delay_denom }
    }).collect())
}

/// Calls `image::codecs::gif::GifEncoder::new` on `out`, `set_repeat(Repeat::Infinite)`
/// and `encode_frames`, each frame made by `image::Frame::from_parts` from its
/// buffer and `Delay::from_saturating_duration` of its display time. What is
/// written, and whether it succeeds, is named by `gif_encoding`. A buffer of
/// other than four bytes per pixel would make `RgbaImage::from_raw` fail (if
/// shorter) or the GIF frame conversion panic (if longer), and `requires`
/// leaves it out.
#[verifier::external_body]
pub(crate) fn encode_gif(frames: Vec<GifFrameOut>, out: &mut Vec<u8>) -> (result: Result<(), ImageError>)
    requires
        forall|i: int| 0 <= i < frames@.len() ==> 4 * frames@[i].width * frames@[i].height == (#[trigger] frames@[i]).rgba@.len(),
    ensures
        final(out)@ == old(out)@ + gif_encoding(frames@.map_values(|f: GifFrameOut| f@)).0,
        result is Ok == gif_encoding(frames@.map_values(|f: GifFrameOut| f@)).1,
{
    let frames: Vec<image::Frame> = frames.into_iter().map(|f| image::Frame::from_parts(
        RgbaImage::from_raw(f.width, f.height, f.rgba).unwrap(),
        0,
        0,
        Delay::from_saturating_duration(Duration::from_millis(f.delay_millis.into())),
    )).collect();
    let mut encoder = GifEncoder::new(out);
    encoder.set_repeat(Repeat::Infinite)?;
    encoder.encode_frames(frames)
}

} // verus!
