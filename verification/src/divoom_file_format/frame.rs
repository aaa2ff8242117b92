use vstd::prelude::*;

use super::frame_header::{
    header_fields, read_header, DecodeError, FrameHeader, FRAME_HEADER_LENGTH, FRAME_HEADER_MAGIC_NUMBER,
};
use super::picture::{Image, Rgb, Rgba};
use crate::protocol::byte_order::{le16, u16_to_le_bytes};
use super::pixel_bits::{
    lemma_two_to_monotone, pack_bits, pack_values, read_bits, read_bits_at, two_to,
};

verus! {

/// Frames are 16 by 16 pixels.
pub const FRAME_SIDE: u32 = 16;

/// The number of pixels of a frame.
pub const FRAME_PIXELS: usize = 256;

/// The number of bits needed to tell `n` colours apart: the least `b` with
/// `n <= 2^b`.
pub open spec fn ceil_log2(n: nat) -> nat
    decreases n,
{
    if n <= 1 {
        0
    } else {
        1 + ceil_log2(((n + 1) / 2) as nat)
    }
}

/// `ceil_log2(n)` is the least `b` with `n <= 2^b`.
pub proof fn lemma_ceil_log2_is_least(n: nat)
    ensures
        n <= two_to(ceil_log2(n)),
        ceil_log2(n) > 0 ==> two_to((ceil_log2(n) - 1) as nat) < n,
    decreases n,
{
    if n > 1 {
        let h = ((n + 1) / 2) as nat;
        lemma_ceil_log2_is_least(h);
        assert(two_to(ceil_log2(n)) == 2 * two_to(ceil_log2(h)));
    }
}

/// A colour count of at most `2^k` needs at most `k` bits.
pub proof fn lemma_ceil_log2_at_most(n: nat, k: nat)
    requires
        n <= two_to(k),
    ensures
        ceil_log2(n) <= k,
    decreases k,
{
    if n > 1 {
        assert(k > 0);
        lemma_ceil_log2_at_most(((n + 1) / 2) as nat, (k - 1) as nat);
    }
}

fn bits_for(n: usize) -> (b: usize)
    ensures
        b == ceil_log2(n as nat),
{
    let mut m: usize = n;
    let mut b: usize = 0;
    while m > 1
        invariant
            ceil_log2(n as nat) == b + ceil_log2(m as nat),
            b + m <= n || m <= 1,
            b <= n,
        decreases m,
    {
        m = m / 2 + m % 2;
        b = b + 1;
    }
    b
}

/// The number of bits per pixel for a palette of `color_count` colours.
pub fn bits_per_pixel(color_count: u32) -> (bits: u8)
    ensures
        bits == ceil_log2(color_count as nat),
{
    proof {
        reveal_with_fuel(two_to, 33);
        lemma_ceil_log2_at_most(color_count as nat, 32);
    }
    bits_for(color_count as usize) as u8
}

/// The colours stored three bytes each (red, green, blue) from `bytes[at]` on.
pub open spec fn palette_colors(bytes: Seq<u8>, at: int, count: nat) -> Seq<Rgb> {
    Seq::new(
        count,
        |i: int| Rgb { red: bytes[at + 3 * i], green: bytes[at + 3 * i + 1], blue: bytes[at + 3 * i + 2] },
    )
}

/// How reading the pixel indices from `i` on ends.
pub enum PixelScan {
    /// All pixels name a colour of the palette.
    Complete,
    /// The data ends before the pixel that needs the missing bits.
    EndOfInput,
    /// A pixel names a colour beyond the palette.
    OutsidePalette,
}

/// Reads the indices of pixels `i` to 255, `bits` bits each, from `data`, in
/// order, and tells how that ends: at the first pixel whose bits are not all
/// there, or at the first index that is not below `colors`.
pub open spec fn scan_pixels(data: Seq<u8>, bits: nat, colors: nat, i: nat) -> PixelScan
    decreases 256 - i,
{
    if i >= 256 {
        PixelScan::Complete
    } else if (i + 1) * bits > 8 * data.len() {
        PixelScan::EndOfInput
    } else if read_bits(data, (i * bits) as int, bits) >= colors {
        PixelScan::OutsidePalette
    } else {
        scan_pixels(data, bits, colors, i + 1)
    }
}

/// The content of a frame as read from a file.
pub struct FrameView {
    pub header: FrameHeader,
    pub palette: Seq<Rgb>,
    pub local_palette: Seq<Rgb>,
    /// The 256 pixels, row by row.
    pub pixels: Seq<Rgba>,
}

/// What reading one frame gives.
pub enum FrameRead {
    /// The frame and the number of bytes it takes.
    Frame(FrameView, nat),
    Failed(DecodeError),
    /// A pixel names a colour beyond the palette, on which reading cannot go on.
    PixelOutsidePalette,
}

/// The palette of a frame: the previous one if the frame reuses it, then the
/// frame's own colours.
pub open spec fn frame_palette(header: FrameHeader, previous: Seq<Rgb>, local: Seq<Rgb>) -> Seq<Rgb> {
    (if header.reuse_palette { previous } else { Seq::empty() }) + local
}

/// Reads the frame at the start of `bytes`; `previous` is the palette of the
/// frame before.
///
/// The header is followed by its colours and then by the pixel indices, 16 rows
/// of 16, each index taking `ceil_log2(palette length)` bits, least significant
/// bit first, so that the pixel data takes `32 * bits` bytes.
pub open spec fn read_frame(bytes: Seq<u8>, previous: Seq<Rgb>) -> FrameRead {
    match read_header(bytes) {
        Err(e) => FrameRead::Failed(e),
        Ok(header) => {
            let count = header.color_count as nat;
            let start = FRAME_HEADER_LENGTH + 3 * count;
            if bytes.len() < start {
                FrameRead::Failed(DecodeError::UnexpectedEndOfInput)
            } else {
                let local = palette_colors(bytes, FRAME_HEADER_LENGTH as int, count);
                let palette = frame_palette(header, previous, local);
                let bits = ceil_log2(palette.len());
                if bits > 8 {
                    FrameRead::Failed(DecodeError::ExcessiveBitsPerPixel { consumed: start as usize })
                } else {
                    let rest = (bytes.len() - start) as nat;
                    let avail = if rest < 32 * bits { rest } else { 32 * bits };
                    let data = bytes.subrange(start as int, start + avail);
                    match scan_pixels(data, bits, palette.len(), 0) {
                        PixelScan::EndOfInput => FrameRead::Failed(DecodeError::UnexpectedEndOfInput),
                        PixelScan::OutsidePalette => FrameRead::PixelOutsidePalette,
                        PixelScan::Complete => FrameRead::Frame(
                            FrameView {
                                header,
                                palette,
                                local_palette: local,
                                pixels: Seq::new(
                                    256,
                                    |i: int| Rgba::opaque(palette[read_bits(data, i * bits, bits) as int]),
                                ),
                            },
                            (start + 32 * bits) as nat,
                        ),
                    }
                }
            }
        },
    }
}


/// Why a frame could not be written.
#[derive(Clone, Copy, Debug, PartialEq, Eq)]
pub enum EncodeError {
    /// A pixel has a colour that the palette lacks.
    PixelNotInPalette,
    /// The palette has more than 256 colours, so an index would take more than
    /// 8 bits.
    ExcessiveBitsPerPixel,
}

/// The colours as bytes: red, green and blue of each in turn.
pub open spec fn color_bytes(colors: Seq<Rgb>) -> Seq<u8> {
    Seq::new(
        3 * colors.len(),
        |k: int|
            if k % 3 == 0 {
                colors[k / 3].red
            } else if k % 3 == 1 {
                colors[k / 3].green
            } else {
                colors[k / 3].blue
            },
    )
}

/// The colour of pixel `i` of the 16 by 16 top left corner of `image`, row by
/// row.
pub open spec fn corner_color(image: Image, i: int) -> Rgb {
    image.pixel_at(i % 16, i / 16).color()
}

/// Looks up the colours of the corner pixels `i` to 255 in `palette`, in
/// order, where indices take `bits` bits, and tells the first failure: a colour
/// the palette lacks, or a colour found while an index cannot fit in a byte.
pub open spec fn pixel_index_failure(image: Image, palette: Seq<Rgb>, bits: nat, i: nat) -> Option<EncodeError>
    decreases 256 - i,
{
    if i >= 256 {
        None
    } else if !palette.contains(corner_color(image, i as int)) {
        Some(EncodeError::PixelNotInPalette)
    } else if bits > 8 {
        Some(EncodeError::ExcessiveBitsPerPixel)
    } else {
        pixel_index_failure(image, palette, bits, i + 1)
    }
}

/// The position in `palette` of the first entry equal to each corner pixel.
pub open spec fn pixel_indices(image: Image, palette: Seq<Rgb>) -> Seq<u8> {
    Seq::new(256, |i: int| palette.index_of_first(corner_color(image, i))->Some_0 as u8)
}

/// The pixel data of the corner of `image` against `palette`: the indices
/// packed `ceil_log2(palette length)` bits each, least significant bit first.
pub open spec fn pixel_data(image: Image, palette: Seq<Rgb>) -> Result<Seq<u8>, EncodeError> {
    let bits = ceil_log2(palette.len());
    match pixel_index_failure(image, palette, bits, 0) {
        Some(e) => Err(e),
        None => Ok(pack_bits(pixel_indices(image, palette), bits)),
    }
}

/// One frame of a Divoom animation.
#[derive(Debug)]
pub struct Frame {
    pub header: FrameHeader,
    /// The colours the pixels refer to: those of the frame before (if the
    /// header says so) followed by the frame's own.
    pub palette: Vec<Rgb>,
    /// The frame's own colours.
    pub local_palette: Vec<Rgb>,
    pub image: Image,
}

impl Frame {
    /// This frame holds `v`, as a 16 by 16 picture.
    pub open spec fn holds(self, v: FrameView) -> bool {
        &&& self.header == v.header
        &&& self.palette@ == v.palette
        &&& self.local_palette@ == v.local_palette
        &&& self.image.width == FRAME_SIDE
        &&& self.image.height == FRAME_SIDE
        &&& self.image.pixels@ == v.pixels
    }

    /// The bytes of this frame with `data` as pixel data: magic number, length
    /// of the frame, display time (little endian), palette reuse flag, colour
    /// count, the frame's own colours, the pixel data.
    pub open spec fn frame_bytes(self, data: Seq<u8>) -> Seq<u8> {
        seq![FRAME_HEADER_MAGIC_NUMBER]
            + le16((FRAME_HEADER_LENGTH + 3 * self.local_palette@.len() + data.len()) as u16)
            + le16(self.header.time_in_milliseconds)
            + seq![if self.header.reuse_palette { 1u8 } else { 0u8 }, self.header.color_count]
            + color_bytes(self.local_palette@)
            + data
    }

    /// Writes the frame to `writer`, its pixels as indices into `palette`. Only
    /// the top left 16 by 16 pixels of the image are written. On failure nothing
    /// is written.
    pub fn serialize(&self, palette: &[Rgb], writer: &mut Vec<u8>) -> (result: Result<(), EncodeError>)
        requires
            self.image.is_valid(),
            self.image.width >= FRAME_SIDE,
            self.image.height >= FRAME_SIDE,
            FRAME_HEADER_LENGTH + 3 * self.local_palette@.len() + 32 * 8 <= usize::MAX,
        ensures
            match pixel_data(self.image, palette@) {
                Ok(data) => result is Ok && final(writer)@ == old(writer)@ + self.frame_bytes(data),
                Err(e) => result == Err::<(), EncodeError>(e) && final(writer)@ == old(writer)@,
            },
    {
        let pixel_data = match self.build_pixel_data(palette) {
            Ok(data) => data,
            Err(e) => return Err(e),
        };
        let length = FRAME_HEADER_LENGTH + self.local_palette.len() * 3 + pixel_data.len();
        let ghost start = writer@;
        writer.push(FRAME_HEADER_MAGIC_NUMBER);
        let length_bytes = u16_to_le_bytes(length as u16);
        writer.push(length_bytes[0]);
        writer.push(length_bytes[1]);
        let time_bytes = u16_to_le_bytes(self.header.time_in_milliseconds);
        writer.push(time_bytes[0]);
        writer.push(time_bytes[1]);
        writer.push(if self.header.reuse_palette { 1u8 } else { 0u8 });
        writer.push(self.header.color_count);
        let ghost before_colors = writer@;
        let mut i: usize = 0;
        while i < self.local_palette.len()
            invariant
                i <= self.local_palette@.len(),
                writer@ == before_colors + color_bytes(self.local_palette@.take(i as int)),
            decreases self.local_palette@.len() - i,
        {
            let color = self.local_palette[i];
            writer.push(color.red);
            writer.push(color.green);
            writer.push(color.blue);
            i = i + 1;
            assert(color_bytes(self.local_palette@.take(i as int)) =~= color_bytes(
                self.local_palette@.take(i - 1),
            ) + seq![color.red, color.green, color.blue]);
        }
        assert(self.local_palette@.take(i as int) =~= self.local_palette@);
        crate::bytes::append_bytes(writer, pixel_data.as_slice());
        assert(writer@ =~= start + self.frame_bytes(pixel_data@));
        Ok(())
    }

    fn build_pixel_data(&self, palette: &[Rgb]) -> (data: Result<Vec<u8>, EncodeError>)
        requires
            self.image.is_valid(),
            self.image.width >= FRAME_SIDE,
            self.image.height >= FRAME_SIDE,
        ensures
            match pixel_data(self.image, palette@) {
                Ok(d) => data matches Ok(v) && v@ == d,
                Err(e) => data == Err::<Vec<u8>, EncodeError>(e),
            },
            data matches Ok(v) ==> v@.len() <= 32 * 8,
    {
        let bits = bits_for(palette.len());
        let ghost image = self.image;
        let mut indices: Vec<u8> = Vec::new();
        let mut i: usize = 0;
        while i < FRAME_PIXELS
            invariant
                i <= FRAME_PIXELS,
                image == self.image,
                image.is_valid(),
                image.width >= FRAME_SIDE,
                image.height >= FRAME_SIDE,
                bits == ceil_log2(palette@.len()),
                pixel_index_failure(image, palette@, bits as nat, 0) == pixel_index_failure(image, palette@, bits as nat, i as nat),
                indices@ == pixel_indices(image, palette@).take(i as int),
            decreases FRAME_PIXELS - i,
        {
            let x = (i % 16) as u32;
            let y = (i / 16) as u32;
            let color = self.image.get_pixel(x, y).to_rgb();
            assert(color == corner_color(image, i as int));
            match position_of(palette, color) {
                None => return Err(EncodeError::PixelNotInPalette),
                Some(index) => {
                    if bits > 8 {
                        return Err(EncodeError::ExcessiveBitsPerPixel);
                    }
                    proof {
                        lemma_ceil_log2_is_least(palette@.len());
                        lemma_two_to_monotone(bits as nat, 8);
                        reveal_with_fuel(two_to, 9);
                    }
                    indices.push(index as u8);
                },
            }
            i = i + 1;
            assert(indices@ =~= pixel_indices(image, palette@).take(i as int));
        }
        assert(indices@ =~= pixel_indices(image, palette@));
        if bits == 0 {
            assert(pack_bits(indices@, 0) =~= Seq::<u8>::empty());
            Ok(Vec::new())
        } else {
            let data = pack_values(indices.as_slice(), bits as u32);
            assert(256 * bits / 8 == 32 * bits);
            Ok(data)
        }
    }

    /// `result` is what reading `bytes` after `previous` gives: `None` where a
    /// pixel names a colour beyond the palette.
    pub open spec fn read_result(
        result: Option<Result<(Frame, usize), DecodeError>>,
        bytes: Seq<u8>,
        previous: Seq<Rgb>,
    ) -> bool {
        match read_frame(bytes, previous) {
            FrameRead::Frame(v, n) => result matches Some(Ok((f, m))) && f.holds(v) && m == n,
            FrameRead::Failed(e) => result == Some(Err::<(Frame, usize), DecodeError>(e)),
            FrameRead::PixelOutsidePalette => result is None,
        }
    }

    /// Reads a 16 by 16 frame from the start of `input`, after a frame whose
    /// palette is `previous_palette`; gives the frame and the number of bytes
    /// it takes. A pixel that names a colour beyond the palette cannot be read,
    /// and `requires` leaves such input out.
    pub fn from_16x16(input: &[u8], previous_palette: &[Rgb]) -> (frame: Result<(Frame, usize), DecodeError>)
        requires
            !(read_frame(input@, previous_palette@) is PixelOutsidePalette),
        ensures
            Self::read_result(Some(frame), input@, previous_palette@),
    {
        match Self::from_16x16_checked(input, previous_palette) {
            Some(r) => r,
            None => vstd::pervasive::unreached(),
        }
    }

    /// Reads a frame as `from_16x16` does, and gives `None` where a pixel names
    /// a colour beyond the palette.
    pub fn from_16x16_checked(input: &[u8], previous_palette: &[Rgb]) -> (frame: Option<Result<(Frame, usize), DecodeError>>)
        ensures
            Self::read_result(frame, input@, previous_palette@),
    {
        let header = match FrameHeader::from_reader(input) {
            Ok(h) => h,
            Err(e) => return Some(Err(e)),
        };
        let count: usize = header.color_count as usize;
        let start: usize = FRAME_HEADER_LENGTH + 3 * count;
        if input.len() < start {
            return Some(Err(DecodeError::UnexpectedEndOfInput));
        }
        let ghost local_spec = palette_colors(input@, FRAME_HEADER_LENGTH as int, count as nat);
        let mut local_palette: Vec<Rgb> = Vec::new();
        let mut c: usize = 0;
        while c < count
            invariant
                c <= count,
                start == FRAME_HEADER_LENGTH + 3 * count,
                start <= input@.len(),
                local_spec == palette_colors(input@, FRAME_HEADER_LENGTH as int, count as nat),
                local_palette@ == local_spec.take(c as int),
            decreases count - c,
        {
            let at = FRAME_HEADER_LENGTH + 3 * c;
            let color = Rgb { red: input[at], green: input[at + 1], blue: input[at + 2] };
            local_palette.push(color);
            c = c + 1;
            assert(local_palette@ =~= local_spec.take(c as int));
        }
        assert(local_spec.take(c as int) =~= local_spec);
        let mut palette: Vec<Rgb> = if header.reuse_palette {
            vstd::slice::slice_to_vec(previous_palette)
        } else {
            Vec::new()
        };
        let mut i: usize = 0;
        let ghost palette_start = palette@;
        while i < local_palette.len()
            invariant
                i <= local_palette@.len(),
                palette@ == palette_start + local_palette@.take(i as int),
            decreases local_palette@.len() - i,
        {
            palette.push(local_palette[i]);
            i = i + 1;
            assert(palette@ =~= palette_start + local_palette@.take(i as int));
        }
        assert(local_palette@.take(i as int) =~= local_palette@);
        assert(palette@ =~= frame_palette(header, previous_palette@, local_spec));
        let bits = bits_for(palette.len());
        if bits > 8 {
            return Some(Err(DecodeError::ExcessiveBitsPerPixel { consumed: start }));
        }
        let rest: usize = input.len() - start;
        let avail: usize = if rest < 32 * bits { rest } else { 32 * bits };
        let ghost data = input@.subrange(start as int, start + avail);
        let ghost colors = palette@;
        let mut pixels: Vec<Rgba> = Vec::new();
        let mut p: usize = 0;
        while p < FRAME_PIXELS
            invariant
                p <= FRAME_PIXELS,
                bits <= 8,
                read_header(input@) == Ok::<FrameHeader, DecodeError>(header),
                count == header.color_count,
                start == FRAME_HEADER_LENGTH + 3 * count,
                start <= input@.len(),
                local_spec == palette_colors(input@, FRAME_HEADER_LENGTH as int, count as nat),
                local_palette@ == local_spec,
                colors == frame_palette(header, previous_palette@, local_spec),
                bits == ceil_log2(colors.len()),
                rest == input@.len() - start,
                avail == (if rest < 32 * bits { rest as int } else { 32 * bits }),
                start + avail <= input@.len(),
                avail <= 32 * bits,
                data == input@.subrange(start as int, start + avail),
                colors == palette@,
                scan_pixels(data, bits as nat, colors.len(), 0) == scan_pixels(data, bits as nat, colors.len(), p as nat),
                pixels@.len() == p,
                forall|j: int| 0 <= j < p ==> pixels@[j] == Rgba::opaque(colors[read_bits(data, j * bits, bits as nat) as int]),
            decreases FRAME_PIXELS - p,
        {
            assert((p + 1) * bits <= 256 * 8) by (nonlinear_arith)
                requires
                    p < 256,
                    bits <= 8,
            ;
            if (p + 1) * bits > 8 * avail {
                return Some(Err(DecodeError::UnexpectedEndOfInput));
            }
            assert(p * bits + bits == (p + 1) * bits) by (nonlinear_arith);
            let index = read_bits_at(input, start, avail, p * bits, bits as u32);
            if index as usize >= palette.len() {
                return None;
            }
            pixels.push(Rgba::from_rgb(palette[index as usize]));
            p = p + 1;
        }
        let consumed = start + 32 * bits;
        let frame = Frame {
            header,
            palette,
            local_palette,
            image: Image { width: FRAME_SIDE, height: FRAME_SIDE, pixels },
        };
        assert(frame.image.pixels@ =~= Seq::new(
            256,
            |j: int| Rgba::opaque(colors[read_bits(data, j * bits, bits as nat) as int]),
        ));
        Some(Ok((frame, consumed)))
    }
}

} // verus!

verus! {

/// The position of the first colour of `palette` equal to `color`.
fn position_of(palette: &[Rgb], color: Rgb) -> (position: Option<usize>)
    ensures
        position matches Some(i) ==> palette@.index_of_first(color) == Some(i as int) && i < palette@.len()
            && palette@[i as int] == color && palette@.contains(color),
        position is None ==> palette@.index_of_first(color) is None && !palette@.contains(color),
{
    proof {
        palette@.index_of_first_ensures(color);
    }
    let mut i: usize = 0;
    while i < palette.len()
        invariant
            i <= palette@.len(),
            forall|j: int| 0 <= j < i ==> palette@[j] != color,
        decreases palette@.len() - i,
    {
        if palette[i] == color {
            proof {
                palette@.index_of_first_ensures(color);
                assert(palette@[i as int] == color);
                assert(palette@.contains(color));
                let k = palette@.index_of_first(color)->Some_0;
                if k < i {
                    assert(palette@[k] != color);
                } else if k > i {
                    assert(palette@[i as int] != color);
                }
            }
            return Some(i);
        }
        i = i + 1;
    }
    None
}

} // verus!

verus! {

/// No failure from pixel `i` on means every later corner pixel is in the
/// palette, and indices fit in a byte.
proof fn lemma_no_index_failure(image: Image, palette: Seq<Rgb>, bits: nat, i: nat, j: nat)
    requires
        pixel_index_failure(image, palette, bits, i) is None,
        i <= j < 256,
    ensures
        palette.contains(corner_color(image, j as int)),
        bits <= 8,
    decreases j - i,
{
    if i < j {
        lemma_no_index_failure(image, palette, bits, i + 1, j);
    }
}

/// The pixel scan of packed in-palette indices reads all pixels.
proof fn lemma_scan_complete(data: Seq<u8>, bits: nat, colors: nat, indices: Seq<u8>, i: nat)
    requires
        i <= 256,
        indices.len() == 256,
        bits <= 8,
        data == pack_bits(indices, bits),
        forall|j: int| 0 <= j < 256 ==> indices[j] < colors && indices[j] < two_to(bits),
    ensures
        scan_pixels(data, bits, colors, i) == PixelScan::Complete,
        forall|j: int| i <= j < 256 ==> read_bits(data, j * bits, bits) == indices[j],
    decreases 256 - i,
{
    if i < 256 {
        lemma_scan_complete(data, bits, colors, indices, i + 1);
        assert((256 * bits) / 8 == 32 * bits) by (nonlinear_arith);
        assert((i + 1) * bits <= 256 * bits) by (nonlinear_arith)
            requires
                i < 256,
        ;
        if bits >= 1 {
            super::pixel_bits::lemma_pack_then_read(indices, bits, i as int);
        } else {
            assert(indices[i as int] == 0) by {
                reveal_with_fuel(two_to, 1);
            }
        }
    }
}

/// The content that `frame` has when read back from a file: the file keeps
/// colours only, so every pixel comes back opaque.
pub open spec fn frame_view(frame: Frame) -> FrameView {
    FrameView {
        header: frame.header,
        palette: frame.palette@,
        local_palette: frame.local_palette@,
        pixels: opaque_pixels(frame.image.pixels@),
    }
}

/// The pixels with their colours kept and their opacity made full.
pub open spec fn opaque_pixels(pixels: Seq<Rgba>) -> Seq<Rgba> {
    pixels.map_values(|p: Rgba| Rgba::opaque(p.color()))
}

proof fn lemma_header_roundtrip(frame: Frame, data: Seq<u8>, tail: Seq<u8>)
    ensures
        read_header(frame.frame_bytes(data) + tail) == Ok::<FrameHeader, DecodeError>(frame.header),
{
    let bytes = frame.frame_bytes(data) + tail;
    let t = frame.header.time_in_milliseconds;
    assert(bytes[3] == t % 256 && bytes[4] == t / 256);
    assert(bytes[5] == (if frame.header.reuse_palette { 1u8 } else { 0u8 }));
    assert(bytes[6] == frame.header.color_count);
    assert(header_fields(bytes) == frame.header);
}

proof fn lemma_colors_roundtrip(frame: Frame, data: Seq<u8>, tail: Seq<u8>)
    requires
        frame.header.color_count == frame.local_palette@.len(),
    ensures
        palette_colors(frame.frame_bytes(data) + tail, FRAME_HEADER_LENGTH as int, frame.header.color_count as nat)
            == frame.local_palette@,
{
    let bytes = frame.frame_bytes(data) + tail;
    let local = frame.local_palette@;
    let count = frame.header.color_count as nat;
    assert forall|i: int| 0 <= i < count implies #[trigger] palette_colors(bytes, FRAME_HEADER_LENGTH as int, count)[i]
        == local[i] by {
        let at = FRAME_HEADER_LENGTH + 3 * i;
        assert(bytes[at] == color_bytes(local)[3 * i]);
        assert(bytes[at + 1] == color_bytes(local)[3 * i + 1]);
        assert(bytes[at + 2] == color_bytes(local)[3 * i + 2]);
        assert((3 * i) / 3 == i && (3 * i) % 3 == 0);
        assert((3 * i + 1) / 3 == i && (3 * i + 1) % 3 == 1);
        assert((3 * i + 2) / 3 == i && (3 * i + 2) % 3 == 2);
    }
    assert(palette_colors(bytes, FRAME_HEADER_LENGTH as int, count) =~= local);
}

proof fn lemma_pixels_roundtrip(image: Image, palette: Seq<Rgb>)
    requires
        image.is_valid(),
        image.width == FRAME_SIDE,
        image.height == FRAME_SIDE,
        pixel_index_failure(image, palette, ceil_log2(palette.len()), 0) is None,
    ensures
        ({
            let bits = ceil_log2(palette.len());
            let data = pack_bits(pixel_indices(image, palette), bits);
            &&& bits <= 8
            &&& data.len() == 32 * bits
            &&& scan_pixels(data, bits, palette.len(), 0) == PixelScan::Complete
            &&& Seq::new(256, |j: int| Rgba::opaque(palette[read_bits(data, j * bits, bits) as int]))
                == opaque_pixels(image.pixels@)
        }),
{
    let bits = ceil_log2(palette.len());
    let indices = pixel_indices(image, palette);
    let data = pack_bits(indices, bits);
    lemma_no_index_failure(image, palette, bits, 0, 0);
    assert((256 * bits) / 8 == 32 * bits) by (nonlinear_arith);
    assert forall|j: int| 0 <= j < 256 implies #[trigger] indices[j] < palette.len() && indices[j] < two_to(bits)
        && palette[indices[j] as int] == corner_color(image, j) by {
        lemma_no_index_failure(image, palette, bits, 0, j as nat);
        palette.index_of_first_ensures(corner_color(image, j));
        lemma_ceil_log2_is_least(palette.len());
        lemma_two_to_monotone(bits, 8);
        reveal_with_fuel(two_to, 9);
    }
    lemma_scan_complete(data, bits, palette.len(), indices, 0);
    assert forall|j: int| 0 <= j < 256 implies Rgba::opaque(palette[read_bits(data, j * bits, bits) as int])
        == #[trigger] opaque_pixels(image.pixels@)[j] by {
        assert(read_bits(data, j * bits, bits) == indices[j]);
        assert(palette[indices[j] as int] == corner_color(image, j));
        assert(j / 16 * 16 + j % 16 == j);
        assert(image.pixel_at(j % 16, j / 16) == image.pixels@[j]);
    }
    assert(Seq::new(256, |j: int| Rgba::opaque(palette[read_bits(data, j * bits, bits) as int]))
        =~= opaque_pixels(image.pixels@));
}

/// Writing a frame and reading it back, whatever follows it, gives the frame
/// again: its header, its palette, its own colours and its pixels, and the
/// length of what was written, its pixels made opaque. This holds of a frame
/// shaped as reading gives one: 16 by 16 pixels, as many own colours as its
/// header counts, and the palette that its header and the frame before imply.
#[verifier::rlimit(40)]
pub proof fn lemma_frame_roundtrip(frame: Frame, previous: Seq<Rgb>, tail: Seq<u8>)
    requires
        frame.image.is_valid(),
        frame.image.width == FRAME_SIDE,
        frame.image.height == FRAME_SIDE,
        frame.header.color_count == frame.local_palette@.len(),
        frame.palette@ == frame_palette(frame.header, previous, frame.local_palette@),
        pixel_data(frame.image, frame.palette@) is Ok,
    ensures
        ({
            let written = frame.frame_bytes(pixel_data(frame.image, frame.palette@)->Ok_0);
            read_frame(written + tail, previous) == FrameRead::Frame(frame_view(frame), written.len())
        }),
{
    let palette = frame.palette@;
    let bits = ceil_log2(palette.len());
    let data = pack_bits(pixel_indices(frame.image, palette), bits);
    let written = frame.frame_bytes(data);
    let bytes = written + tail;
    let start = FRAME_HEADER_LENGTH + 3 * (frame.header.color_count as nat);
    lemma_header_roundtrip(frame, data, tail);
    lemma_colors_roundtrip(frame, data, tail);
    lemma_pixels_roundtrip(frame.image, palette);
    let local = palette_colors(bytes, FRAME_HEADER_LENGTH as int, frame.header.color_count as nat);
    assert(local == frame.local_palette@);
    assert(frame_palette(frame.header, previous, local) == palette);
    assert(written.len() == start + 32 * bits);
    let rest = (bytes.len() - start) as nat;
    assert(rest >= 32 * bits);
    let pixel_bytes = bytes.subrange(start as int, start + 32 * bits);
    assert(pixel_bytes =~= data);
    assert(scan_pixels(pixel_bytes, bits, palette.len(), 0) == PixelScan::Complete);
}

/// No failure from pixel `i` on when every corner pixel is in the palette and
/// indices fit in a byte.
pub(crate) proof fn lemma_failure_free_from(image: Image, palette: Seq<Rgb>, bits: nat, i: nat)
    requires
        bits <= 8,
        forall|j: int| 0 <= j < 256 ==> palette.contains(#[trigger] corner_color(image, j)),
    ensures
        pixel_index_failure(image, palette, bits, i) is None,
    decreases 256 - i,
{
    if i < 256 {
        assert(palette.contains(corner_color(image, i as int)));
        lemma_failure_free_from(image, palette, bits, i + 1);
    }
}

/// A pixel scan that reads all pixels finds every index below the colour
/// count.
proof fn lemma_scan_indices(data: Seq<u8>, bits: nat, colors: nat, i: nat, j: nat)
    requires
        i <= j < 256,
        scan_pixels(data, bits, colors, i) == PixelScan::Complete,
    ensures
        read_bits(data, (j * bits) as int, bits) < colors,
        (j + 1) * bits <= 8 * data.len(),
    decreases j - i,
{
    if i < j {
        lemma_scan_indices(data, bits, colors, i + 1, j);
    }
}

/// Encoding the pixels of a frame that was read, against its own palette when
/// that palette has no colour twice, gives back the pixel data that was read,
/// byte for byte.
pub proof fn lemma_frame_reencode(bytes: Seq<u8>, previous: Seq<Rgb>, frame: Frame)
    requires
        read_frame(bytes, previous) is Frame,
        frame.holds(read_frame(bytes, previous)->Frame_0),
        frame.palette@.no_duplicates(),
    ensures
        ({
            let start = FRAME_HEADER_LENGTH + 3 * (bytes[6] as nat);
            let bits = ceil_log2(frame.palette@.len());
            &&& bits <= 8
            &&& start + 32 * bits <= bytes.len()
            &&& pixel_data(frame.image, frame.palette@) == Ok::<Seq<u8>, EncodeError>(
                bytes.subrange(start as int, start + 32 * bits),
            )
        }),
{
    let header = read_header(bytes)->Ok_0;
    let count = header.color_count as nat;
    let start = FRAME_HEADER_LENGTH + 3 * count;
    let local = palette_colors(bytes, FRAME_HEADER_LENGTH as int, count);
    let palette = frame_palette(header, previous, local);
    let bits = ceil_log2(palette.len());
    let rest = (bytes.len() - start) as nat;
    let avail = if rest < 32 * bits { rest } else { 32 * bits };
    let data = bytes.subrange(start as int, start + avail);
    assert(frame.palette@ == palette);
    assert(bits <= 8);
    lemma_scan_indices(data, bits, palette.len(), 0, 255);
    assert(avail == 32 * bits);
    let image = frame.image;
    lemma_ceil_log2_is_least(palette.len());
    lemma_two_to_monotone(bits, 8);
    assert(two_to(8) == 256) by {
        reveal_with_fuel(two_to, 9);
    }
    assert(palette.len() <= 256);
    let indices = Seq::new(256, |i: int| read_bits(data, i * bits, bits) as u8);
    assert forall|j: int| 0 <= j < 256 implies palette.contains(#[trigger] corner_color(image, j))
        && palette.index_of_first(corner_color(image, j)) == Some(indices[j] as int) by {
        lemma_scan_indices(data, bits, palette.len(), 0, j as nat);
        let idx = read_bits(data, j * bits, bits) as int;
        assert(j / 16 * 16 + j % 16 == j);
        assert(image.pixel_at(j % 16, j / 16) == image.pixels@[j]);
        assert(corner_color(image, j) == palette[idx]);
        assert(palette.contains(palette[idx]));
        palette.index_of_first_ensures(palette[idx]);
        let k = palette.index_of_first(palette[idx])->Some_0;
        assert(k == idx);
        assert(indices[j] as int == idx);
    }
    lemma_failure_free_from(image, palette, bits, 0);
    assert(pixel_indices(image, palette) =~= indices);
    if bits >= 1 {
        assert(data.len() * 8 == 256 * bits);
        assert((256 * bits) % bits == 0 && (256 * bits) / bits == 256) by (nonlinear_arith)
            requires
                bits >= 1,
        ;
        super::pixel_bits::lemma_read_then_pack(data, bits);
    } else {
        assert(pack_bits(indices, 0) =~= data);
    }
}

/// A frame that was read, written again against its own palette, gives back
/// the bytes it was read from, when those bytes are canonical: the length field
/// holds the frame's length, the reuse flag is 0 or 1, and the palette has no
/// colour twice.
pub proof fn lemma_frame_rewrite(bytes: Seq<u8>, previous: Seq<Rgb>, frame: Frame)
    requires
        read_frame(bytes, previous) is Frame,
        frame.holds(read_frame(bytes, previous)->Frame_0),
        frame.palette@.no_duplicates(),
        read_frame(bytes, previous)->Frame_1 == crate::protocol::byte_order::le16_at(bytes, 1),
        bytes[5] == 0 || bytes[5] == 1,
    ensures
        pixel_data(frame.image, frame.palette@) is Ok,
        frame.frame_bytes(pixel_data(frame.image, frame.palette@)->Ok_0)
            == bytes.take(read_frame(bytes, previous)->Frame_1 as int),
{
    lemma_frame_reencode(bytes, previous, frame);
    let n = read_frame(bytes, previous)->Frame_1;
    let count = bytes[6] as nat;
    let start = FRAME_HEADER_LENGTH + 3 * count;
    let bits = ceil_log2(frame.palette@.len());
    let data = bytes.subrange(start as int, start + 32 * bits);
    let local = frame.local_palette@;
    assert(local == palette_colors(bytes, FRAME_HEADER_LENGTH as int, count));
    assert(n == start + 32 * bits);
    lemma_color_bytes_of_read(bytes, count);
    lemma_header_bytes_of_read(bytes, frame, n);
    let head = seq![FRAME_HEADER_MAGIC_NUMBER]
        + le16((FRAME_HEADER_LENGTH + 3 * local.len() + data.len()) as u16)
        + le16(frame.header.time_in_milliseconds)
        + seq![if frame.header.reuse_palette { 1u8 } else { 0u8 }, frame.header.color_count];
    assert(head =~= bytes.subrange(0, 7));
    assert(frame.frame_bytes(data) == head + color_bytes(local) + data);
    assert(bytes.take(n as int) =~= bytes.subrange(0, 7) + bytes.subrange(7, start as int) + data);
}

/// The colours read from `bytes`, as bytes again, are the bytes they were read
/// from.
proof fn lemma_color_bytes_of_read(bytes: Seq<u8>, count: nat)
    requires
        FRAME_HEADER_LENGTH + 3 * count <= bytes.len(),
    ensures
        color_bytes(palette_colors(bytes, FRAME_HEADER_LENGTH as int, count))
            == bytes.subrange(FRAME_HEADER_LENGTH as int, FRAME_HEADER_LENGTH + 3 * count),
{
    let colors = palette_colors(bytes, FRAME_HEADER_LENGTH as int, count);
    assert forall|k: int| 0 <= k < 3 * count implies #[trigger] color_bytes(colors)[k] == bytes[7 + k] by {
        assert(k / 3 * 3 + k % 3 == k);
    }
    assert(color_bytes(colors) =~= bytes.subrange(FRAME_HEADER_LENGTH as int, FRAME_HEADER_LENGTH + 3 * count));
}

/// The header fields of a read frame, written again with the length `n` found
/// in the bytes and a reuse flag of 0 or 1, are the header bytes read.
proof fn lemma_header_bytes_of_read(bytes: Seq<u8>, frame: Frame, n: nat)
    requires
        bytes.len() >= FRAME_HEADER_LENGTH,
        read_header(bytes) == Ok::<FrameHeader, DecodeError>(frame.header),
        n == crate::protocol::byte_order::le16_at(bytes, 1),
        bytes[5] == 0 || bytes[5] == 1,
    ensures
        le16(n as u16) == bytes.subrange(1, 3),
        le16(frame.header.time_in_milliseconds) == bytes.subrange(3, 5),
        (if frame.header.reuse_palette { 1u8 } else { 0u8 }) == bytes[5],
        frame.header.color_count == bytes[6],
        bytes[0] == FRAME_HEADER_MAGIC_NUMBER,
{
    assert(le16(n as u16) =~= bytes.subrange(1, 3));
    assert(le16(frame.header.time_in_milliseconds) =~= bytes.subrange(3, 5));
}

/// A frame read from a file has as its own colours the `bytes[6]` colours
/// stored three bytes each (red, green, blue) after the header. When its reuse
/// flag `bytes[5]` is set, its palette is the previous frame's palette followed
/// by those colours; when the flag is 0, its palette is its own colours alone,
/// whatever the previous frame's palette was.
pub proof fn lemma_read_frame_palette(
    result: Option<Result<(Frame, usize), DecodeError>>,
    bytes: Seq<u8>,
    previous: Seq<Rgb>,
)
    requires
        Frame::read_result(result, bytes, previous),
        result matches Some(Ok(_)),
    ensures
        ({
            let frame = result->Some_0->Ok_0.0;
            &&& bytes.len() >= FRAME_HEADER_LENGTH + 3 * (bytes[6] as nat)
            &&& frame.header.reuse_palette == (bytes[5] != 0)
            &&& frame.local_palette@.len() == bytes[6]
            &&& forall|j: int|
                0 <= j < bytes[6] ==> #[trigger] frame.local_palette@[j] == Rgb {
                    red: bytes[7 + 3 * j],
                    green: bytes[8 + 3 * j],
                    blue: bytes[9 + 3 * j],
                }
            &&& frame.palette@ == (if bytes[5] != 0 {
                previous + frame.local_palette@
            } else {
                frame.local_palette@
            })
        }),
{
    let frame = result->Some_0->Ok_0.0;
    assert(read_frame(bytes, previous) is Frame);
    let header = read_header(bytes)->Ok_0;
    let local = palette_colors(bytes, FRAME_HEADER_LENGTH as int, header.color_count as nat);
    assert(frame.local_palette@ == local);
    if bytes[5] == 0 {
        assert(Seq::<Rgb>::empty() + local =~= local);
    }
}

/// A frame whose reuse flag is 0 reads the same whatever the palette of the
/// frame before it.
pub proof fn lemma_read_frame_without_reuse(bytes: Seq<u8>, previous: Seq<Rgb>, other: Seq<Rgb>)
    requires
        bytes.len() >= FRAME_HEADER_LENGTH,
        bytes[5] == 0,
    ensures
        read_frame(bytes, previous) == read_frame(bytes, other),
{
    if let Ok(header) = read_header(bytes) {
        let local = palette_colors(bytes, FRAME_HEADER_LENGTH as int, header.color_count as nat);
        assert(frame_palette(header, previous, local) == frame_palette(header, other, local));
    }
}

} // verus!
