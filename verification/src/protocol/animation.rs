use vstd::prelude::*;

use super::byte_order::{le16, le32, u16_to_le_bytes, u32_to_le_bytes};
use crate::bytes::append_bytes;

verus! {

/// The phase of an animation upload.
#[derive(Clone, Copy, Debug, PartialEq, Eq)]
pub enum ControlWord {
    StartSeeding,
    SendingData,
    TerminateSending,
}

impl ControlWord {
    /// The control byte on the wire.
    pub open spec fn code(self) -> u8 {
        match self {
            ControlWord::StartSeeding => 0,
            ControlWord::SendingData => 1,
            ControlWord::TerminateSending => 2,
        }
    }
}

/// The payload of one animation packet.
#[derive(Debug)]
pub struct Animation {
    pub control_word: ControlWord,
    pub file_size: u32,
    pub offset_id: u16,
    pub image_part: Vec<u8>,
}

/// The payload bytes of an animation packet: the control byte; the file size
/// (little endian) unless the upload ends; the chunk index (little endian) and
/// the chunk itself only while data is being sent.
pub open spec fn animation_payload(control_word: ControlWord, file_size: u32, offset_id: u16, image_part: Seq<u8>) -> Seq<u8> {
    seq![control_word.code()]
        + (if control_word != ControlWord::TerminateSending {
            le32(file_size)
        } else {
            Seq::empty()
        })
        + (if control_word == ControlWord::SendingData {
            le16(offset_id) + image_part
        } else {
            Seq::empty()
        })
}

impl Animation {
    pub open spec fn wire_bytes(self) -> Seq<u8> {
        animation_payload(self.control_word, self.file_size, self.offset_id, self.image_part@)
    }

    pub fn serialize(&self) -> (bytes: Vec<u8>)
        ensures
            bytes@ == self.wire_bytes(),
    {
        let mut bytes: Vec<u8> = Vec::new();
        let (code, with_size, with_data): (u8, bool, bool) = match self.control_word {
            ControlWord::StartSeeding => (0, true, false),
            ControlWord::SendingData => (1, true, true),
            ControlWord::TerminateSending => (2, false, false),
        };
        bytes.push(code);
        if with_size {
            let size = u32_to_le_bytes(self.file_size);
            append_bytes(&mut bytes, &size);
        }
        if with_data {
            let offset = u16_to_le_bytes(self.offset_id);
            append_bytes(&mut bytes, &offset);
            append_bytes(&mut bytes, self.image_part.as_slice());
        }
        assert(bytes@ =~= self.wire_bytes());
        bytes
    }
}

} // verus!
