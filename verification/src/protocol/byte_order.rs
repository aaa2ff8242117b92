use byteorder::{ByteOrder, LittleEndian};
use vstd::prelude::*;

verus! {

/// The two bytes of `v`, least significant first.
pub open spec fn le16(v: u16) -> Seq<u8> {
    seq![(v % 256) as u8, (v / 256) as u8]
}

/// The four bytes of `v`, least significant first.
pub open spec fn le32(v: u32) -> Seq<u8> {
    seq![(v % 256) as u8, ((v / 256) % 256) as u8, ((v / 65536) % 256) as u8, (v / 16777216) as u8]
}

/// The unsigned 16-bit number stored low byte first at `bytes[at]`, `bytes[at + 1]`.
pub open spec fn le16_at(bytes: Seq<u8>, at: int) -> int {
    bytes[at] + 256 * bytes[at + 1]
}

/// Calls `byteorder::LittleEndian::write_u16` on a two-byte buffer: the buffer
/// holds `n`, low byte first.
#[verifier::external_body]
pub(crate) fn u16_to_le_bytes(n: u16) -> (bytes: [u8; 2])
    ensures
        bytes@ == le16(n),
{
    let mut bytes = [0u8; 2];
    LittleEndian::write_u16(&mut bytes, n);
    bytes
}

/// Calls `byteorder::LittleEndian::write_u32` on a four-byte buffer: the buffer
/// holds `n`, low byte first.
#[verifier::external_body]
pub(crate) fn u32_to_le_bytes(n: u32) -> (bytes: [u8; 4])
    ensures
        bytes@ == le32(n),
{
    let mut bytes = [0u8; 4];
    LittleEndian::write_u32(&mut bytes, n);
    bytes
}

/// Calls `byteorder::LittleEndian::read_u16`: the number whose low byte is
/// `bytes[0]` and whose high byte is `bytes[1]`. It panics on a shorter slice,
/// which `requires` leaves out.
#[verifier::external_body]
pub(crate) fn u16_from_le_bytes(bytes: &[u8]) -> (n: u16)
    requires
        bytes@.len() >= 2,
    ensures
        n == le16_at(bytes@, 0),
{
    LittleEndian::read_u16(bytes)
}

} // verus!
