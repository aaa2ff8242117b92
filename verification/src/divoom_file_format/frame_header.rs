use vstd::prelude::*;

use crate::protocol::byte_order::{le16_at, u16_from_le_bytes};

verus! {

/// The first byte of every frame of a Divoom animation file.
pub const FRAME_HEADER_MAGIC_NUMBER: u8 = 0xAA;

/// The size of a frame header in bytes.
pub const FRAME_HEADER_LENGTH: usize = 7;

/// Why a frame could not be read.
#[derive(Clone, Copy, Debug, PartialEq, Eq)]
pub enum DecodeError {
    /// The input ended inside the frame.
    UnexpectedEndOfInput,
    /// The frame does not start with `FRAME_HEADER_MAGIC_NUMBER`; the byte found.
    BadMagicNumber(u8),
    /// The palette has more than 256 colours, so a pixel would take more than 8
    /// bits; `consumed` counts the bytes read up to then (header and palette).
    ExcessiveBitsPerPixel { consumed: usize },
}

/// The header of one frame.
#[derive(Clone, Copy, Debug, PartialEq, Eq)]
pub struct FrameHeader {
    pub time_in_milliseconds: u16,
    /// Whether the frame adds its colours to the palette of the frame before.
    pub reuse_palette: bool,
    /// The number of colours that the frame itself carries.
    pub color_count: u8,
}

/// The header fields stored in the first seven bytes: magic number, length
/// (unused here), display time (little endian), palette reuse flag, colour count.
pub open spec fn header_fields(bytes: Seq<u8>) -> FrameHeader {
    FrameHeader {
        time_in_milliseconds: le16_at(bytes, 3) as u16,
        reuse_palette: bytes[5] != 0,
        color_count: bytes[6],
    }
}

/// What reading a header from the start of `bytes` gives.
pub open spec fn read_header(bytes: Seq<u8>) -> Result<FrameHeader, DecodeError> {
    if bytes.len() < FRAME_HEADER_LENGTH {
        Err(DecodeError::UnexpectedEndOfInput)
    } else if bytes[0] != FRAME_HEADER_MAGIC_NUMBER {
        Err(DecodeError::BadMagicNumber(bytes[0]))
    } else {
        Ok(header_fields(bytes))
    }
}

impl FrameHeader {
    /// Reads the header at the start of `input`. All seven bytes are read before
    /// the magic number is checked.
    pub fn from_reader(input: &[u8]) -> (header: Result<FrameHeader, DecodeError>)
        ensures
            header == read_header(input@),
    {
        if input.len() < FRAME_HEADER_LENGTH {
            return Err(DecodeError::UnexpectedEndOfInput);
        }
        let magic_number = input[0];
        let time_in_milliseconds = u16_from_le_bytes(vstd::slice::slice_subrange(input, 3, 5));
        let reuse_palette = input[5] != 0;
        let color_count = input[6];
        if magic_number != FRAME_HEADER_MAGIC_NUMBER {
            return Err(DecodeError::BadMagicNumber(magic_number));
        }
        Ok(FrameHeader { time_in_milliseconds, reuse_palette, color_count })
    }
}

} // verus!
