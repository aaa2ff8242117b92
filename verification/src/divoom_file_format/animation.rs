use vstd::prelude::*;

use super::frame::{
    ceil_log2, corner_color, frame_palette, frame_view, lemma_ceil_log2_at_most, lemma_frame_roundtrip, lemma_frame_rewrite,
    lemma_failure_free_from, pixel_data, pixel_index_failure, read_frame, scan_pixels, EncodeError, Frame, FrameRead, FrameView,
    PixelScan, FRAME_SIDE,
};
use super::pixel_bits::two_to;
use crate::protocol::byte_order::le16_at;
use super::frame_header::{read_header, DecodeError, FrameHeader, FRAME_HEADER_LENGTH};
use super::gif::{decode_gif, encode_gif, gif_decoding, gif_encoding, GifFrame, GifFrameOut};
use super::picture::{Image, Rgb, Rgba};
use super::{
    color_set_get, color_set_items, color_set_len, first_occurrences, get_palette_from_images,
    pixel_colors, all_pixel_colors,
};
use image::ImageError;

verus! {

/// What reading a whole animation file gives.
pub enum AnimationRead {
    Frames(Seq<FrameView>),
    Failed(DecodeError),
    /// A pixel names a colour beyond its palette.
    PixelOutsidePalette,
}

/// A pixel scan that reads all 256 pixels has all their bits.
proof fn lemma_scan_needs_all_bits(data: Seq<u8>, bits: nat, colors: nat, i: nat)
    requires
        i < 256,
        scan_pixels(data, bits, colors, i) == PixelScan::Complete,
    ensures
        256 * bits <= 8 * data.len(),
    decreases 256 - i,
{
    if i + 1 < 256 {
        lemma_scan_needs_all_bits(data, bits, colors, i + 1);
    } else {
        assert((i + 1) * bits == 256 * bits);
    }
}

/// A frame, and the bytes read before a palette too large is refused, take at least a
/// header and at most the input.
pub proof fn lemma_read_frame_advances(bytes: Seq<u8>, previous: Seq<Rgb>)
    ensures
        read_frame(bytes, previous) matches FrameRead::Frame(_, n) ==> FRAME_HEADER_LENGTH <= n <= bytes.len(),
        read_frame(bytes, previous) matches FrameRead::Failed(DecodeError::ExcessiveBitsPerPixel { consumed })
            ==> FRAME_HEADER_LENGTH <= consumed <= bytes.len(),
{
    if let Ok(header) = read_header(bytes) {
        let count = header.color_count as nat;
        let start = FRAME_HEADER_LENGTH + 3 * count;
        if bytes.len() >= start {
            let local = super::frame::palette_colors(bytes, FRAME_HEADER_LENGTH as int, count);
            let palette = frame_palette(header, previous, local);
            let bits = ceil_log2(palette.len());
            if bits <= 8 {
                let rest = (bytes.len() - start) as nat;
                let avail = if rest < 32 * bits { rest } else { 32 * bits };
                let data = bytes.subrange(start as int, start + avail);
                if scan_pixels(data, bits, palette.len(), 0) == PixelScan::Complete {
                    lemma_scan_needs_all_bits(data, bits, palette.len(), 0);
                }
            }
        }
    }
}

/// Reads frames from `bytes` until the input ends, after the frames `frames`,
/// the last of which had the palette `previous`.
///
/// A frame cut short by the end of the input ends the animation, and is left
/// out. Any other failure, a palette of more than 256 colours among them, ends
/// reading with that failure.
pub open spec fn read_frames(bytes: Seq<u8>, previous: Seq<Rgb>, frames: Seq<FrameView>) -> AnimationRead
    decreases bytes.len(),
{
    match read_frame(bytes, previous) {
        FrameRead::Frame(v, n) => {
            proof {
                lemma_read_frame_advances(bytes, previous);
            }
            read_frames(bytes.skip(n as int), v.palette, frames.push(v))
        },
        FrameRead::Failed(DecodeError::UnexpectedEndOfInput) => AnimationRead::Frames(frames),
        FrameRead::Failed(e) => AnimationRead::Failed(e),
        FrameRead::PixelOutsidePalette => AnimationRead::PixelOutsidePalette,
    }
}

/// What reading the animation file `bytes` gives.
pub open spec fn read_animation(bytes: Seq<u8>) -> AnimationRead {
    read_frames(bytes, Seq::empty(), Seq::empty())
}

/// The bytes that writing `frames` gives when the palette before them is
/// `palette`, and the failure that stops writing, if any.
///
/// A frame that reuses the palette adds its own colours to the running palette;
/// any other frame sets the running palette to its palette. Each frame is
/// written against the running palette.
pub open spec fn write_frames(frames: Seq<Frame>, palette: Seq<Rgb>) -> (Seq<u8>, Option<EncodeError>)
    decreases frames.len(),
{
    if frames.len() == 0 {
        (Seq::empty(), None)
    } else {
        let frame = frames[0];
        let running = if frame.header.reuse_palette {
            palette + frame.local_palette@
        } else {
            frame.palette@
        };
        match pixel_data(frame.image, running) {
            Err(e) => (Seq::empty(), Some(e)),
            Ok(data) => {
                let rest = write_frames(frames.drop_first(), running);
                (frame.frame_bytes(data) + rest.0, rest.1)
            },
        }
    }
}

/// A frame shaped as reading gives one: 16 by 16 pixels and as many own
/// colours as the header counts.
pub open spec fn is_readable_frame(frame: Frame) -> bool {
    &&& frame.image.is_valid()
    &&& frame.image.width == FRAME_SIDE
    &&& frame.image.height == FRAME_SIDE
    &&& frame.header.color_count == frame.local_palette@.len()
}

/// Each frame is readable and has the palette that its header and the frame
/// before (or `previous` for the first) imply.
pub open spec fn frames_chain(frames: Seq<Frame>, previous: Seq<Rgb>) -> bool {
    forall|i: int|
        0 <= i < frames.len() ==> {
            &&& is_readable_frame(#[trigger] frames[i])
            &&& frames[i].palette@ == frame_palette(
                frames[i].header,
                if i == 0 { previous } else { frames[i - 1].palette@ },
                frames[i].local_palette@,
            )
        }
}

proof fn lemma_frames_roundtrip(frames: Seq<Frame>, previous: Seq<Rgb>, read: Seq<FrameView>)
    requires
        frames_chain(frames, previous),
        write_frames(frames, previous).1 is None,
    ensures
        read_frames(write_frames(frames, previous).0, previous, read)
            == AnimationRead::Frames(read + frames.map_values(|f: Frame| frame_view(f))),
    decreases frames.len(),
{
    if frames.len() == 0 {
        assert(read + frames.map_values(|f: Frame| frame_view(f)) =~= read);
    } else {
        let frame = frames[0];
        let running = if frame.header.reuse_palette { previous + frame.local_palette@ } else { frame.palette@ };
        assert(running =~= frame.palette@);
        let data = pixel_data(frame.image, running)->Ok_0;
        let rest = frames.drop_first();
        assert(frames_chain(rest, frame.palette@)) by {
            assert forall|i: int| 0 <= i < rest.len() implies {
                &&& is_readable_frame(#[trigger] rest[i])
                &&& rest[i].palette@ == frame_palette(
                    rest[i].header,
                    if i == 0 { frame.palette@ } else { rest[i - 1].palette@ },
                    rest[i].local_palette@,
                )
            } by {
                assert(rest[i] == frames[i + 1]);
            }
        }
        let tail = write_frames(rest, running).0;
        lemma_frame_roundtrip(frame, previous, tail);
        let written = frame.frame_bytes(data);
        assert((written + tail).skip(written.len() as int) =~= tail);
        lemma_frames_roundtrip(rest, frame.palette@, read.push(frame_view(frame)));
        assert(read.push(frame_view(frame)) + rest.map_values(|f: Frame| frame_view(f))
            =~= read + frames.map_values(|f: Frame| frame_view(f)));
    }
}

/// Writing a chain of readable frames in the Divoom format and reading the
/// bytes back gives the frames again, in order, with opaque pixels of the same
/// colours.
pub proof fn lemma_animation_roundtrip(frames: Seq<Frame>)
    requires
        frames_chain(frames, Seq::empty()),
        write_frames(frames, Seq::empty()).1 is None,
    ensures
        read_animation(write_frames(frames, Seq::empty()).0)
            == AnimationRead::Frames(frames.map_values(|f: Frame| frame_view(f))),
{
    lemma_frames_roundtrip(frames, Seq::empty(), Seq::empty());
    assert(Seq::<FrameView>::empty() + frames.map_values(|f: Frame| frame_view(f))
        =~= frames.map_values(|f: Frame| frame_view(f)));
}

/// Why a GIF could not be turned into an animation.
#[derive(Debug)]
pub enum GifError {
    /// The GIF decoder failed.
    Decode(ImageError),
    /// The GIF has this many colours; at most 255 are taken.
    TooManyColors(usize),
}

/// The display time in whole milliseconds of a delay of `numer / denom`
/// milliseconds, saturated to 16 bits; no time is 0 milliseconds, and a
/// positive time over 0 saturates.
pub open spec fn delay_millis(numer: u32, denom: u32) -> u16 {
    if denom == 0 {
        if numer == 0 { 0 } else { u16::MAX }
    } else if numer / denom > u16::MAX {
        u16::MAX
    } else {
        (numer / denom) as u16
    }
}

fn delay_to_millis(numer: u32, denom: u32) -> (millis: u16)
    ensures
        millis == delay_millis(numer, denom),
{
    if denom == 0 {
        if numer == 0 { 0 } else { u16::MAX }
    } else if numer / denom > u16::MAX as u32 {
        u16::MAX
    } else {
        (numer / denom) as u16
    }
}

/// The first `count` pixels of an RGBA buffer.
pub open spec fn rgba_pixels(rgba: Seq<u8>, count: nat) -> Seq<Rgba> {
    Seq::new(
        count,
        |i: int| Rgba { red: rgba[4 * i], green: rgba[4 * i + 1], blue: rgba[4 * i + 2], alpha: rgba[4 * i + 3] },
    )
}

/// The pixels as an RGBA buffer.
pub open spec fn rgba_bytes(pixels: Seq<Rgba>) -> Seq<u8> {
    Seq::new(
        4 * pixels.len(),
        |k: int|
            if k % 4 == 0 {
                pixels[k / 4].red
            } else if k % 4 == 1 {
                pixels[k / 4].green
            } else if k % 4 == 2 {
                pixels[k / 4].blue
            } else {
                pixels[k / 4].alpha
            },
    )
}

/// The colours of the pixels of all decoded GIF frames, frame after frame,
/// row by row.
pub open spec fn gif_pixel_colors(frames: Seq<(u32, u32, Seq<u8>, u32, u32)>) -> Seq<(u8, u8, u8)>
    decreases frames.len(),
{
    if frames.len() == 0 {
        Seq::empty()
    } else {
        let f = frames.last();
        gif_pixel_colors(frames.drop_last()) + rgba_pixels(f.2, (f.0 * f.1) as nat).map_values(
            |p: Rgba| (p.red, p.green, p.blue),
        )
    }
}

/// The palette of an animation made from decoded GIF frames: their distinct
/// colours in order of first appearance.
pub open spec fn gif_palette(frames: Seq<(u32, u32, Seq<u8>, u32, u32)>) -> Seq<Rgb> {
    first_occurrences(gif_pixel_colors(frames)).map_values(|c: (u8, u8, u8)| Rgb { red: c.0, green: c.1, blue: c.2 })
}

/// `frame` is frame `index` of the animation made from the decoded GIF frame
/// `gif` with the animation palette `palette`: its picture and delay, the whole
/// palette carried by the first frame and reused by the others.
pub open spec fn is_gif_frame(frame: Frame, index: int, gif: (u32, u32, Seq<u8>, u32, u32), palette: Seq<Rgb>) -> bool {
    &&& frame.image.width == gif.0
    &&& frame.image.height == gif.1
    &&& frame.image.pixels@ == rgba_pixels(gif.2, (gif.0 * gif.1) as nat)
    &&& frame.header.time_in_milliseconds == delay_millis(gif.3, gif.4)
    &&& frame.header.reuse_palette == (index != 0)
    &&& frame.header.color_count == (if index == 0 { palette.len() as u8 } else { 0u8 })
    &&& frame.palette@ == palette
    &&& frame.local_palette@ == (if index == 0 { palette } else { Seq::empty() })
}

/// `result` is the animation made from the decoded GIF frames `gif`, or the
/// refusal of a palette of 256 colours or more.
pub open spec fn is_gif_animation(result: Result<Animation, GifError>, gif: Seq<(u32, u32, Seq<u8>, u32, u32)>) -> bool {
    let palette = gif_palette(gif);
    if palette.len() >= 256 {
        result matches Err(GifError::TooManyColors(n)) && n == palette.len()
    } else {
        result matches Ok(a) && a.frames@.len() == gif.len() && forall|i: int|
            0 <= i < gif.len() ==> is_gif_frame(#[trigger] a.frames@[i], i, gif[i], palette)
    }
}

/// Each frame of an animation made from decoded GIF frames keeps its GIF
/// frame's picture as decoded: its size, and pixel `k` is the four bytes
/// `rgba[4k..4k+4]` (red, green, blue, alpha), transparency included.
pub proof fn lemma_gif_pixels_kept(animation: Animation, gif: Seq<(u32, u32, Seq<u8>, u32, u32)>)
    requires
        is_gif_animation(Ok(animation), gif),
    ensures
        animation.frames@.len() == gif.len(),
        forall|i: int| 0 <= i < gif.len() ==> {
            let image = (#[trigger] animation.frames@[i]).image;
            &&& image.width == gif[i].0
            &&& image.height == gif[i].1
            &&& image.pixels@.len() == gif[i].0 * gif[i].1
        },
        forall|i: int, k: int| 0 <= i < gif.len() && 0 <= k < gif[i].0 * gif[i].1 ==> {
            let p = #[trigger] animation.frames@[i].image.pixels@[k];
            &&& p.red == gif[i].2[4 * k]
            &&& p.green == gif[i].2[4 * k + 1]
            &&& p.blue == gif[i].2[4 * k + 2]
            &&& p.alpha == gif[i].2[4 * k + 3]
        },
{
    assert forall|i: int| 0 <= i < gif.len() implies is_gif_frame(
        #[trigger] animation.frames@[i],
        i,
        gif[i],
        gif_palette(gif),
    ) by {}
}

/// What an animation writes as GIF: each frame's size, pixels and display time.
pub open spec fn gif_frames_out(frames: Seq<Frame>) -> Seq<(u32, u32, Seq<u8>, u16)> {
    frames.map_values(
        |f: Frame| (f.image.width, f.image.height, rgba_bytes(f.image.pixels@), f.header.time_in_milliseconds),
    )
}

/// Every element of `s` is kept by `first_occurrences`.
proof fn lemma_first_occurrences_keep(s: Seq<(u8, u8, u8)>, x: (u8, u8, u8))
    requires
        s.contains(x),
    ensures
        first_occurrences(s).contains(x),
    decreases s.len(),
{
    let before = first_occurrences(s.drop_last());
    if s.last() == x {
        if !before.contains(x) {
            assert(before.push(x)[before.len() as int] == x);
        }
    } else {
        let k = choose|k: int| 0 <= k < s.len() && s[k] == x;
        assert(s.drop_last()[k] == x);
        lemma_first_occurrences_keep(s.drop_last(), x);
        if !before.contains(s.last()) {
            let m = choose|m: int| 0 <= m < before.len() && before[m] == x;
            assert(before.push(s.last())[m] == x);
        }
    }
}

/// The colour of pixel `k` of decoded GIF frame `i` is among the colours of
/// all frames.
proof fn lemma_gif_color_listed(gif: Seq<(u32, u32, Seq<u8>, u32, u32)>, i: int, k: int)
    requires
        0 <= i < gif.len(),
        0 <= k < gif[i].0 * gif[i].1,
    ensures
        gif_pixel_colors(gif).contains(({
            let p = rgba_pixels(gif[i].2, (gif[i].0 * gif[i].1) as nat)[k];
            (p.red, p.green, p.blue)
        })),
    decreases gif.len(),
{
    let f = gif.last();
    let own = rgba_pixels(f.2, (f.0 * f.1) as nat).map_values(|p: Rgba| (p.red, p.green, p.blue));
    let before = gif_pixel_colors(gif.drop_last());
    if i == gif.len() - 1 {
        assert((before + own)[before.len() + k] == own[k]);
    } else {
        lemma_gif_color_listed(gif.drop_last(), i, k);
        let p = rgba_pixels(gif[i].2, (gif[i].0 * gif[i].1) as nat)[k];
        let m = choose|m: int| 0 <= m < before.len() && before[m] == (p.red, p.green, p.blue);
        assert((before + own)[m] == before[m]);
    }
}

/// A frame made from a 16 by 16 opaque GIF frame has all its pixels in the
/// animation palette, which fits 8 bits a pixel.
proof fn lemma_gif_frame_writable(frame: Frame, index: int, gif: Seq<(u32, u32, Seq<u8>, u32, u32)>)
    requires
        0 <= index < gif.len(),
        is_gif_frame(frame, index, gif[index], gif_palette(gif)),
        gif_palette(gif).len() < 256,
        gif[index].0 == 16 && gif[index].1 == 16,
    ensures
        pixel_index_failure(frame.image, gif_palette(gif), ceil_log2(gif_palette(gif).len()), 0) is None,
{
    let palette = gif_palette(gif);
    let bits = ceil_log2(palette.len());
    assert(palette.len() <= two_to(8)) by {
        reveal_with_fuel(two_to, 9);
    }
    lemma_ceil_log2_at_most(palette.len(), 8);
    assert forall|j: int| 0 <= j < 256 implies palette.contains(#[trigger] corner_color(frame.image, j)) by {
        assert(j / 16 * 16 + j % 16 == j);
        let p = frame.image.pixels@[j];
        assert(corner_color(frame.image, j) == p.color());
        lemma_gif_color_listed(gif, index, j);
        lemma_first_occurrences_keep(gif_pixel_colors(gif), (p.red, p.green, p.blue));
        let occ = first_occurrences(gif_pixel_colors(gif));
        let m = choose|m: int| 0 <= m < occ.len() && occ[m] == (p.red, p.green, p.blue);
        assert(palette[m] == p.color());
    }
    lemma_failure_free_from(frame.image, palette, bits, 0);
}

/// Writing frames that all run on the palette `palette` succeeds when each has
/// its pixels in it.
proof fn lemma_write_gif_frames(frames: Seq<Frame>, palette: Seq<Rgb>)
    requires
        forall|i: int| 0 <= i < frames.len() ==> {
            &&& (#[trigger] frames[i]).header.reuse_palette ==> frames[i].local_palette@ == Seq::<Rgb>::empty()
            &&& !frames[i].header.reuse_palette ==> frames[i].palette@ == palette
            &&& pixel_data(frames[i].image, palette) is Ok
        },
    ensures
        write_frames(frames, palette).1 is None,
    decreases frames.len(),
{
    if frames.len() > 0 {
        let f = frames[0];
        let running = if f.header.reuse_palette { palette + f.local_palette@ } else { f.palette@ };
        assert(running =~= palette);
        assert forall|i: int| 0 <= i < frames.drop_first().len() implies {
            &&& (#[trigger] frames.drop_first()[i]).header.reuse_palette ==> frames.drop_first()[i].local_palette@ == Seq::<Rgb>::empty()
            &&& !frames.drop_first()[i].header.reuse_palette ==> frames.drop_first()[i].palette@ == palette
            &&& pixel_data(frames.drop_first()[i].image, palette) is Ok
        } by {
            assert(frames.drop_first()[i] == frames[i + 1]);
        }
        lemma_write_gif_frames(frames.drop_first(), palette);
    }
}

/// An animation made from a GIF whose frames are 16 by 16 pixels can be
/// written in the Divoom format without failure, and the bytes read back as
/// the same frames, in order: same headers and palettes, and pixels of the same
/// colours (made opaque, whatever their opacity was).
pub proof fn lemma_gif_animation_roundtrip(animation: Animation, gif: Seq<(u32, u32, Seq<u8>, u32, u32)>)
    requires
        is_gif_animation(Ok(animation), gif),
        forall|i: int| 0 <= i < gif.len() ==> (#[trigger] gif[i]).0 == 16 && gif[i].1 == 16,
    ensures
        animation.is_writable(),
        write_frames(animation.frames@, Seq::empty()).1 is None,
        read_animation(write_frames(animation.frames@, Seq::empty()).0)
            == AnimationRead::Frames(animation.frames@.map_values(|f: Frame| frame_view(f))),
{
    let frames = animation.frames@;
    let palette = gif_palette(gif);
    assert forall|i: int| 0 <= i < frames.len() implies pixel_data((#[trigger] frames[i]).image, palette) is Ok by {
        lemma_gif_frame_writable(frames[i], i, gif);
    }
    lemma_write_gif_frames(frames, palette);
    assert forall|i: int| 0 <= i < frames.len() implies {
        &&& is_readable_frame(#[trigger] frames[i])
        &&& frames[i].palette@ == frame_palette(
            frames[i].header,
            if i == 0 { Seq::empty() } else { frames[i - 1].palette@ },
            frames[i].local_palette@,
        )
    } by {
        let f = frames[i];
        assert(is_gif_frame(f, i, gif[i], palette));
        if i == 0 {
            assert(frame_palette(f.header, Seq::empty(), f.local_palette@) =~= palette);
        } else {
            assert(is_gif_frame(frames[i - 1], i - 1, gif[i - 1], palette));
            assert(frame_palette(f.header, frames[i - 1].palette@, f.local_palette@) =~= palette);
        }
    }
    lemma_animation_roundtrip(frames);
}

/// `bytes` is a canonical Divoom file after a frame with palette `previous`:
/// whole frames only, each with its length in its length field, a reuse flag
/// of 0 or 1, and a palette without a colour twice.
pub open spec fn is_canonical_from(bytes: Seq<u8>, previous: Seq<Rgb>) -> bool
    decreases bytes.len(),
{
    if bytes.len() == 0 {
        true
    } else {
        match read_frame(bytes, previous) {
            FrameRead::Frame(v, n) => {
                proof {
                    lemma_read_frame_advances(bytes, previous);
                }
                &&& n == le16_at(bytes, 1)
                &&& (bytes[5] == 0 || bytes[5] == 1)
                &&& v.palette.no_duplicates()
                &&& is_canonical_from(bytes.skip(n as int), v.palette)
            },
            _ => false,
        }
    }
}

/// The frames of a canonical file, in order.
pub open spec fn canonical_frames(bytes: Seq<u8>, previous: Seq<Rgb>) -> Seq<FrameView>
    decreases bytes.len(),
{
    if bytes.len() == 0 {
        Seq::empty()
    } else {
        match read_frame(bytes, previous) {
            FrameRead::Frame(v, n) => {
                proof {
                    lemma_read_frame_advances(bytes, previous);
                }
                seq![v] + canonical_frames(bytes.skip(n as int), v.palette)
            },
            _ => Seq::empty(),
        }
    }
}

proof fn lemma_canonical_reads(bytes: Seq<u8>, previous: Seq<Rgb>, read: Seq<FrameView>)
    requires
        is_canonical_from(bytes, previous),
    ensures
        read_frames(bytes, previous, read) == AnimationRead::Frames(read + canonical_frames(bytes, previous)),
    decreases bytes.len(),
{
    lemma_read_frame_advances(bytes, previous);
    if bytes.len() == 0 {
        assert(read_header(bytes) is Err);
        assert(read + canonical_frames(bytes, previous) =~= read);
    } else {
        let v = read_frame(bytes, previous)->Frame_0;
        let n = read_frame(bytes, previous)->Frame_1;
        lemma_canonical_reads(bytes.skip(n as int), v.palette, read.push(v));
        assert(read.push(v) + canonical_frames(bytes.skip(n as int), v.palette)
            =~= read + canonical_frames(bytes, previous));
    }
}

/// The first frame of a canonical file: a frame holding it is readable, is
/// written against its own palette as the bytes it was read from, and the rest
/// of the file is canonical after it.
proof fn lemma_canonical_step(bytes: Seq<u8>, previous: Seq<Rgb>, frame: Frame)
    requires
        is_canonical_from(bytes, previous),
        bytes.len() > 0,
        read_frame(bytes, previous) is Frame,
        frame.holds(read_frame(bytes, previous)->Frame_0),
    ensures
        ({
            let v = read_frame(bytes, previous)->Frame_0;
            let n = read_frame(bytes, previous)->Frame_1;
            &&& FRAME_HEADER_LENGTH <= n <= bytes.len()
            &&& is_readable_frame(frame)
            &&& frame.palette@ == (if frame.header.reuse_palette {
                previous + frame.local_palette@
            } else {
                frame.palette@
            })
            &&& pixel_data(frame.image, frame.palette@) is Ok
            &&& frame.frame_bytes(pixel_data(frame.image, frame.palette@)->Ok_0) == bytes.take(n as int)
            &&& is_canonical_from(bytes.skip(n as int), v.palette)
            &&& canonical_frames(bytes, previous) == seq![v] + canonical_frames(bytes.skip(n as int), v.palette)
        }),
{
    lemma_read_frame_advances(bytes, previous);
    lemma_frame_rewrite(bytes, previous, frame);
}

proof fn lemma_canonical_writes(bytes: Seq<u8>, previous: Seq<Rgb>, frames: Seq<Frame>)
    requires
        is_canonical_from(bytes, previous),
        frames.len() == canonical_frames(bytes, previous).len(),
        forall|i: int| 0 <= i < frames.len() ==> (#[trigger] frames[i]).holds(canonical_frames(bytes, previous)[i]),
    ensures
        write_frames(frames, previous) == (bytes, None::<EncodeError>),
        forall|i: int| 0 <= i < frames.len() ==> is_readable_frame(#[trigger] frames[i]),
    decreases bytes.len(),
{
    let views = canonical_frames(bytes, previous);
    if bytes.len() == 0 {
        assert(frames.len() == 0);
        assert(bytes =~= Seq::<u8>::empty());
    } else {
        assert(read_frame(bytes, previous) is Frame);
        let v = read_frame(bytes, previous)->Frame_0;
        let n = read_frame(bytes, previous)->Frame_1;
        let frame = frames[0];
        assert(frame.holds(views[0]));
        lemma_canonical_step(bytes, previous, frame);
        let rest_views = canonical_frames(bytes.skip(n as int), v.palette);
        let rest = frames.drop_first();
        assert forall|i: int| 0 <= i < rest.len() implies (#[trigger] rest[i]).holds(rest_views[i]) by {
            assert(rest[i] == frames[i + 1]);
            assert(views[i + 1] == rest_views[i]);
        }
        lemma_canonical_writes(bytes.skip(n as int), v.palette, rest);
        assert(bytes.take(n as int) + bytes.skip(n as int) =~= bytes);
        assert forall|i: int| 0 <= i < frames.len() implies is_readable_frame(#[trigger] frames[i]) by {
            if i > 0 {
                assert(frames[i] == rest[i - 1]);
            }
        }
    }
}

/// Reading a canonical Divoom file and writing the animation again gives the
/// file back, byte for byte; the animation read can be written.
pub proof fn lemma_canonical_file_rewrite(bytes: Seq<u8>, animation: Animation)
    requires
        is_canonical_from(bytes, Seq::empty()),
        Animation::read_result(Some(Ok(animation)), bytes),
    ensures
        animation.is_writable(),
        write_frames(animation.frames@, Seq::empty()) == (bytes, None::<EncodeError>),
{
    lemma_canonical_reads(bytes, Seq::empty(), Seq::empty());
    let views = canonical_frames(bytes, Seq::empty());
    assert(Seq::<FrameView>::empty() + views =~= views);
    lemma_canonical_writes(bytes, Seq::empty(), animation.frames@);
    assert forall|i: int| 0 <= i < animation.frames@.len() implies {
        let f = #[trigger] animation.frames@[i];
        &&& f.image.is_valid()
        &&& f.image.width >= FRAME_SIDE
        &&& f.image.height >= FRAME_SIDE
        &&& FRAME_HEADER_LENGTH + 3 * f.local_palette@.len() + 32 * 8 <= usize::MAX
    } by {
        assert(is_readable_frame(animation.frames@[i]));
    }
}

/// A Divoom animation: its frames in order.
#[derive(Debug)]
pub struct Animation {
    pub frames: Vec<Frame>,
}

impl Animation {
    /// This animation holds the frames `views`, in order.
    pub open spec fn holds(self, views: Seq<FrameView>) -> bool {
        &&& self.frames@.len() == views.len()
        &&& forall|i: int| 0 <= i < views.len() ==> (#[trigger] self.frames@[i]).holds(views[i])
    }

    /// `result` is what reading `bytes` gives: `None` where a pixel names a
    /// colour beyond its palette.
    pub open spec fn read_result(result: Option<Result<Animation, DecodeError>>, bytes: Seq<u8>) -> bool {
        match read_animation(bytes) {
            AnimationRead::Frames(views) => result matches Some(Ok(a)) && a.holds(views),
            AnimationRead::Failed(e) => result == Some(Err::<Animation, DecodeError>(e)),
            AnimationRead::PixelOutsidePalette => result is None,
        }
    }

    /// Reads a Divoom animation file of 16 by 16 frames. A file in which a pixel
    /// names a colour beyond its palette cannot be read, and `requires` leaves
    /// it out; `from_16x16_checked` takes any input.
    pub fn from_16x16(input: &[u8]) -> (animation: Result<Animation, DecodeError>)
        requires
            !(read_animation(input@) is PixelOutsidePalette),
        ensures
            Self::read_result(Some(animation), input@),
    {
        match Self::from_16x16_checked(input) {
            Some(r) => r,
            None => vstd::pervasive::unreached(),
        }
    }

    /// Reads a Divoom animation file as `from_16x16` does, and gives `None`
    /// where a pixel names a colour beyond its palette.
    pub fn from_16x16_checked(input: &[u8]) -> (animation: Option<Result<Animation, DecodeError>>)
        ensures
            Self::read_result(animation, input@),
    {
        let mut frames: Vec<Frame> = Vec::new();
        let no_palette: Vec<Rgb> = Vec::new();
        let mut offset: usize = 0;
        let ghost mut views: Seq<FrameView> = Seq::empty();
        let ghost mut previous: Seq<Rgb> = Seq::empty();
        assert(input@.skip(0) =~= input@);
        loop
            invariant
                offset <= input@.len(),
                no_palette@ == Seq::<Rgb>::empty(),
                frames@.len() == views.len(),
                forall|i: int| 0 <= i < views.len() ==> (#[trigger] frames@[i]).holds(views[i]),
                previous == (if frames@.len() == 0 { Seq::<Rgb>::empty() } else { frames@.last().palette@ }),
                read_animation(input@) == read_frames(input@.skip(offset as int), previous, views),
            decreases input@.len() - offset,
        {
            let rest = vstd::slice::slice_subrange(input, offset, input.len());
            assert(rest@ =~= input@.skip(offset as int));
            let step = if frames.len() == 0 {
                Frame::from_16x16_checked(rest, no_palette.as_slice())
            } else {
                Frame::from_16x16_checked(rest, frames[frames.len() - 1].palette.as_slice())
            };
            proof {
                lemma_read_frame_advances(rest@, previous);
            }
            match step {
                None => return None,
                Some(Ok((frame, consumed))) => {
                    proof {
                        let v = read_frame(rest@, previous)->Frame_0;
                        views = views.push(v);
                        previous = v.palette;
                        assert(input@.skip(offset as int).skip(consumed as int) =~= input@.skip(offset + consumed));
                    }
                    frames.push(frame);
                    offset = offset + consumed;
                },
                Some(Err(DecodeError::UnexpectedEndOfInput)) => {
                    return Some(Ok(Animation { frames }));
                },
                Some(Err(e)) => return Some(Err(e)),
            }
        }
    }

    /// Every frame can be written: its image holds all its pixels and at least
    /// 16 by 16 of them.
    pub open spec fn is_writable(self) -> bool {
        forall|i: int|
            0 <= i < self.frames@.len() ==> {
                let f = #[trigger] self.frames@[i];
                &&& f.image.is_valid()
                &&& f.image.width >= FRAME_SIDE
                &&& f.image.height >= FRAME_SIDE
                &&& FRAME_HEADER_LENGTH + 3 * f.local_palette@.len() + 32 * 8 <= usize::MAX
            }
    }

    /// Writes the animation in the Divoom format to `writer`, frame after frame,
    /// and stops at the first frame that cannot be written; what was written
    /// before stays.
    pub fn save_to_divoom_format(&self, writer: &mut Vec<u8>) -> (result: Result<(), EncodeError>)
        requires
            self.is_writable(),
        ensures
            final(writer)@ == old(writer)@ + write_frames(self.frames@, Seq::empty()).0,
            result == (match write_frames(self.frames@, Seq::empty()).1 {
                None => Ok::<(), EncodeError>(()),
                Some(e) => Err(e),
            }),
    {
        let ghost start = writer@;
        let ghost whole = write_frames(self.frames@, Seq::empty());
        let mut palette: Vec<Rgb> = Vec::new();
        let mut failure: Option<EncodeError> = None;
        let mut i: usize = 0;
        assert(self.frames@.skip(0) =~= self.frames@);
        while i < self.frames.len() && failure.is_none()
            invariant
                self.is_writable(),
                i <= self.frames@.len(),
                whole == write_frames(self.frames@, Seq::empty()),
                writer@.len() >= start.len(),
                writer@.subrange(0, start.len() as int) == start,
                failure is None ==> whole.0 == writer@.skip(start.len() as int) + write_frames(
                    self.frames@.skip(i as int),
                    palette@,
                ).0,
                failure is None ==> whole.1 == write_frames(self.frames@.skip(i as int), palette@).1,
                failure is Some ==> whole.0 == writer@.skip(start.len() as int) && whole.1 == failure,
            decreases self.frames@.len() - i + (if failure is None { 1int } else { 0int }),
        {
            let frame = &self.frames[i];
            assert(self.frames@.skip(i as int)[0] == *frame);
            assert(self.frames@.skip(i as int).drop_first() =~= self.frames@.skip(i + 1));
            let ghost p_old = palette@;
            if frame.header.reuse_palette {
                let mut j: usize = 0;
                let ghost before = palette@;
                while j < frame.local_palette.len()
                    invariant
                        j <= frame.local_palette@.len(),
                        palette@ == before + frame.local_palette@.take(j as int),
                    decreases frame.local_palette@.len() - j,
                {
                    palette.push(frame.local_palette[j]);
                    j = j + 1;
                    assert(palette@ =~= before + frame.local_palette@.take(j as int));
                }
                assert(frame.local_palette@.take(j as int) =~= frame.local_palette@);
            } else {
                palette = vstd::slice::slice_to_vec(frame.palette.as_slice());
            }
            let ghost written = writer@;
            match frame.serialize(palette.as_slice(), writer) {
                Err(e) => {
                    assert(writer@.skip(start.len() as int) =~= written.skip(start.len() as int));
                    failure = Some(e);
                },
                Ok(()) => {
                    assert(writer@.subrange(0, start.len() as int) =~= start);
                    assert(writer@.skip(start.len() as int) =~= written.skip(start.len() as int) + frame.frame_bytes(
                        pixel_data(frame.image, palette@)->Ok_0,
                    ));
                    i = i + 1;
                },
            }
        }
        if failure.is_none() {
            assert(self.frames@.skip(i as int) =~= Seq::<Frame>::empty());
        }
        assert(whole.0 =~= writer@.skip(start.len() as int));
        assert(writer@ =~= start + whole.0);
        match failure {
            Some(e) => Err(e),
            None => Ok(()),
        }
    }

    /// Decodes a GIF and makes it an animation, as `from_gif_frames` does with
    /// the decoded frames.
    pub fn from_gif(input: &[u8]) -> (animation: Result<Animation, GifError>)
        ensures
            match gif_decoding(input@) {
                None => animation matches Err(GifError::Decode(_)),
                Some(gif) => is_gif_animation(animation, gif),
            },
    {
        match decode_gif(input) {
            Err(e) => Err(GifError::Decode(e)),
            Ok(frames) => {
                let ghost gif = frames@.map_values(|f: GifFrame| f@);
                assert forall|i: int| 0 <= i < gif.len() implies 4 * gif[i].0 * gif[i].1 <= (#[trigger] gif[i]).2.len() by {
                    assert(frames@[i].rgba@.len() >= 4 * frames@[i].width * frames@[i].height);
                }
                Self::from_gif_frames(frames)
            },
        }
    }

    /// Makes an animation of decoded GIF frames: one frame each, with its
    /// picture and its delay in whole milliseconds, all sharing the palette of
    /// the GIF's distinct colours in order of first appearance, which the first
    /// frame carries and the others reuse. A GIF of 256 colours or more is
    /// refused.
    pub fn from_gif_frames(frames: Vec<GifFrame>) -> (animation: Result<Animation, GifError>)
        requires
            forall|i: int| 0 <= i < frames@.len() ==> 4 * frames@[i].width * frames@[i].height <= (#[trigger] frames@[i]).rgba@.len(),
        ensures
            is_gif_animation(animation, frames@.map_values(|f: GifFrame| f@)),
    {
        let ghost gif = frames@.map_values(|f: GifFrame| f@);
        let mut images: Vec<Image> = Vec::new();
        let mut k: usize = 0;
        while k < frames.len()
            invariant
                k <= frames@.len(),
                gif == frames@.map_values(|f: GifFrame| f@),
                forall|i: int| 0 <= i < frames@.len() ==> 4 * frames@[i].width * frames@[i].height <= (#[trigger] frames@[i]).rgba@.len(),
                images@.len() == k,
                forall|i: int| 0 <= i < k ==> {
                    &&& (#[trigger] images@[i]).width == gif[i].0
                    &&& images@[i].height == gif[i].1
                    &&& images@[i].pixels@ == rgba_pixels(gif[i].2, (gif[i].0 * gif[i].1) as nat)
                },
                all_pixel_colors(images@) == gif_pixel_colors(gif.take(k as int)),
            decreases frames@.len() - k,
        {
            let frame = &frames[k];
            let rgba_len = frame.rgba.len();
            assert(4 * frame.width * frame.height <= frame.rgba@.len());
            assert(frame.width * frame.height <= 4 * frame.width * frame.height) by (nonlinear_arith);
            assert(4 * frame.width * frame.height == 4 * (frame.width * frame.height)) by (nonlinear_arith);
            let count: usize = frame.width as usize * frame.height as usize;
            let mut pixels: Vec<Rgba> = Vec::new();
            let mut p: usize = 0;
            while p < count
                invariant
                    p <= count,
                    count == frame.width * frame.height,
                    4 * count <= frame.rgba@.len(),
                    rgba_len == frame.rgba@.len(),
                    pixels@ == rgba_pixels(frame.rgba@, count as nat).take(p as int),
                decreases count - p,
            {
                let pixel = Rgba {
                    red: frame.rgba[4 * p],
                    green: frame.rgba[4 * p + 1],
                    blue: frame.rgba[4 * p + 2],
                    alpha: frame.rgba[4 * p + 3],
                };
                pixels.push(pixel);
                p = p + 1;
                assert(pixels@ =~= rgba_pixels(frame.rgba@, count as nat).take(p as int));
            }
            assert(pixels@ =~= rgba_pixels(frame.rgba@, count as nat));
            let ghost old_images = images@;
            images.push(Image { width: frame.width, height: frame.height, pixels });
            proof {
                assert(images@.drop_last() =~= old_images);
                assert(gif.take(k + 1).drop_last() =~= gif.take(k as int));
                assert(pixel_colors(images@.last()) =~= rgba_pixels(gif[k as int].2, (gif[k as int].0 * gif[k as int].1) as nat).map_values(
                    |p: Rgba| (p.red, p.green, p.blue),
                ));
            }
            k = k + 1;
        }
        assert(gif.take(k as int) =~= gif);
        let set = get_palette_from_images(images.as_slice());
        let ghost palette_spec = gif_palette(gif);
        let length = color_set_len(&set);
        let mut palette: Vec<Rgb> = Vec::new();
        let mut c: usize = 0;
        while c < length
            invariant
                c <= length,
                length == color_set_items(set).len(),
                color_set_items(set) == first_occurrences(gif_pixel_colors(gif)),
                palette_spec == gif_palette(gif),
                palette@ == palette_spec.take(c as int),
            decreases length - c,
        {
            match color_set_get(&set, c) {
                Some((red, green, blue)) => palette.push(Rgb { red, green, blue }),
                None => vstd::pervasive::unreached(),
            }
            c = c + 1;
            assert(palette@ =~= palette_spec.take(c as int));
        }
        assert(palette@ =~= palette_spec);
        if palette.len() >= 256 {
            return Err(GifError::TooManyColors(palette.len()));
        }
        let mut result: Vec<Frame> = Vec::new();
        let mut i: usize = 0;
        let mut images = images;
        while i < frames.len()
            invariant
                i <= frames@.len(),
                gif == frames@.map_values(|f: GifFrame| f@),
                palette@ == palette_spec,
                palette_spec.len() < 256,
                images@.len() == frames@.len() - i,
                forall|j: int| 0 <= j < images@.len() ==> {
                    &&& (#[trigger] images@[j]).width == gif[j + i].0
                    &&& images@[j].height == gif[j + i].1
                    &&& images@[j].pixels@ == rgba_pixels(gif[j + i].2, (gif[j + i].0 * gif[j + i].1) as nat)
                },
                result@.len() == i,
                forall|j: int| 0 <= j < i ==> is_gif_frame(#[trigger] result@[j], j, gif[j], palette_spec),
            decreases frames@.len() - i,
        {
            let frame = &frames[i];
            let time_in_milliseconds = delay_to_millis(frame.delay_numer, frame.delay_denom);
            let header = if i == 0 {
                FrameHeader { time_in_milliseconds, reuse_palette: false, color_count: palette.len() as u8 }
            } else {
                FrameHeader { time_in_milliseconds, reuse_palette: true, color_count: 0 }
            };
            let image = images.remove(0);
            let local_palette = if i == 0 {
                vstd::slice::slice_to_vec(palette.as_slice())
            } else {
                Vec::new()
            };
            result.push(Frame { header, palette: vstd::slice::slice_to_vec(palette.as_slice()), local_palette, image });
            i = i + 1;
        }
        Ok(Animation { frames: result })
    }

    /// Every frame's picture holds all its pixels, and its RGBA buffer fits in
    /// memory.
    pub open spec fn is_encodable(self) -> bool {
        forall|i: int|
            0 <= i < self.frames@.len() ==> {
                let f = #[trigger] self.frames@[i];
                &&& f.image.is_valid()
                &&& 4 * f.image.pixels@.len() <= usize::MAX
            }
    }

    /// Writes the animation as a GIF that repeats forever, each frame with its
    /// picture and display time, to `writer`.
    pub fn save_to_gif(&self, writer: &mut Vec<u8>) -> (result: Result<(), ImageError>)
        requires
            self.is_encodable(),
        ensures
            final(writer)@ == old(writer)@ + gif_encoding(gif_frames_out(self.frames@)).0,
            result is Ok == gif_encoding(gif_frames_out(self.frames@)).1,
    {
        let mut out: Vec<GifFrameOut> = Vec::new();
        let mut i: usize = 0;
        while i < self.frames.len()
            invariant
                self.is_encodable(),
                i <= self.frames@.len(),
                out@.len() == i,
                forall|j: int| 0 <= j < i ==> (#[trigger] out@[j])@ == gif_frames_out(self.frames@)[j],
                forall|j: int| 0 <= j < i ==> 4 * out@[j].width * out@[j].height == (#[trigger] out@[j]).rgba@.len(),
            decreases self.frames@.len() - i,
        {
            let frame = &self.frames[i];
            let mut rgba: Vec<u8> = Vec::new();
            let mut p: usize = 0;
            while p < frame.image.pixels.len()
                invariant
                    p <= frame.image.pixels@.len(),
                    4 * frame.image.pixels@.len() <= usize::MAX,
                    rgba@ == rgba_bytes(frame.image.pixels@).take(4 * p),
                decreases frame.image.pixels@.len() - p,
            {
                let pixel = frame.image.pixels[p];
                rgba.push(pixel.red);
                rgba.push(pixel.green);
                rgba.push(pixel.blue);
                rgba.push(pixel.alpha);
                p = p + 1;
                assert(rgba@ =~= rgba_bytes(frame.image.pixels@).take(4 * p));
            }
            assert(rgba@ =~= rgba_bytes(frame.image.pixels@));
            assert(4 * frame.image.width * frame.image.height == 4 * (frame.image.width * frame.image.height))
                by (nonlinear_arith);
            out.push(GifFrameOut {
                width: frame.image.width,
                height: frame.image.height,
                rgba,
                delay_millis: frame.header.time_in_milliseconds,
            });
            i = i + 1;
        }
        assert(out@.map_values(|f: GifFrameOut| f@) =~= gif_frames_out(self.frames@));
        encode_gif(out, writer)
    }
}

} // verus!
