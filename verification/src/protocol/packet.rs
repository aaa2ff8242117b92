use vstd::prelude::*;

use super::byte_order::{le16, u16_to_le_bytes};
use crate::bytes::append_bytes;
use super::command::Command;

verus! {

/// The first byte of every packet.
pub const PACKET_START: u8 = 1;

/// The last byte of every packet.
pub const PACKET_END: u8 = 2;

/// The sum of all bytes of `bytes`, as a mathematical integer.
pub open spec fn byte_sum(bytes: Seq<u8>) -> nat
    decreases bytes.len(),
{
    if bytes.len() == 0 {
        0
    } else {
        byte_sum(bytes.drop_last()) + bytes.last() as nat
    }
}

/// The length field of a packet whose payload has `payload_len` bytes: the
/// payload, the command byte and the checksum, counted in 16 bits (a longer
/// count keeps its low 16 bits).
pub open spec fn length_field(payload_len: nat) -> u16 {
    ((payload_len + 3) % 65536) as u16
}

/// The bytes the checksum is taken over: the length field, the command byte and
/// the payload.
pub open spec fn checksum_input(command: Command, payload: Seq<u8>) -> Seq<u8> {
    le16(length_field(payload.len())) + seq![command.code()] + payload
}

/// The 16-bit checksum of a packet: the sum of the checksummed bytes, modulo 2^16.
pub open spec fn packet_checksum(command: Command, payload: Seq<u8>) -> u16 {
    (byte_sum(checksum_input(command, payload)) % 65536) as u16
}

/// One frame of the Divoom serial protocol.
#[derive(Debug)]
pub struct Packet {
    pub start: u8,
    pub length: u16,
    pub command: Command,
    pub payload: Vec<u8>,
    pub checksum: u16,
    pub end: u8,
}

impl Packet {
    /// The bytes that `serialize` puts on the wire for this packet.
    pub open spec fn wire_bytes(self) -> Seq<u8> {
        seq![self.start] + le16(self.length) + seq![self.command.code()] + self.payload@
            + le16(self.checksum) + seq![self.end]
    }

    /// The packet that carries `payload` for `command`.
    pub open spec fn framing(command: Command, payload: Seq<u8>) -> Packet {
        Packet {
            start: PACKET_START,
            length: length_field(payload.len()),
            command,
            payload: arbitrary(),
            checksum: packet_checksum(command, payload),
            end: PACKET_END,
        }
    }

    /// `self` is the packet that `Packet::from(command, payload)` builds.
    pub open spec fn frames(self, command: Command, payload: Seq<u8>) -> bool {
        &&& self.start == PACKET_START
        &&& self.length == length_field(payload.len())
        &&& self.command == command
        &&& self.payload@ == payload
        &&& self.checksum == packet_checksum(command, payload)
        &&& self.end == PACKET_END
    }

    /// Frames `payload` for `command`. The length field counts the payload, the
    /// command byte and the checksum in 16 bits; of a longer count it keeps the
    /// low 16 bits.
    pub fn from(command: Command, payload: &[u8]) -> (packet: Packet)
        ensures
            packet.frames(command, payload@),
    {
        Packet {
            start: PACKET_START,
            length: Self::length_of(payload.len()),
            command,
            payload: {
                let mut copy: Vec<u8> = Vec::new();
                append_bytes(&mut copy, payload);
                copy
            },
            checksum: Self::checksum(command, payload),
            end: PACKET_END,
        }
    }

    /// The packet as bytes on the wire.
    pub fn serialize(&self) -> (bytes: Vec<u8>)
        ensures
            bytes@ == self.wire_bytes(),
    {
        let mut bytes: Vec<u8> = Vec::new();
        bytes.push(self.start);
        let length = u16_to_le_bytes(self.length);
        bytes.push(length[0]);
        bytes.push(length[1]);
        bytes.push(self.command.value());
        append_bytes(&mut bytes, self.payload.as_slice());
        let checksum = u16_to_le_bytes(self.checksum);
        bytes.push(checksum[0]);
        bytes.push(checksum[1]);
        bytes.push(self.end);
        bytes
    }

    fn length_of(payload_len: usize) -> (length: u16)
        ensures
            length == length_field(payload_len as nat),
    {
        let low: u16 = (payload_len % 65536) as u16;
        let length = low.wrapping_add(3);
        assert(((payload_len % 65536) + 3) % 65536 == (payload_len + 3) % 65536) by (nonlinear_arith);
        length
    }

    fn checksum(command: Command, payload: &[u8]) -> (sum: u16)
        ensures
            sum == packet_checksum(command, payload@),
    {
        let mut buffer: Vec<u8> = Vec::new();
        let length = u16_to_le_bytes(Self::length_of(payload.len()));
        buffer.push(length[0]);
        buffer.push(length[1]);
        buffer.push(command.value());
        append_bytes(&mut buffer, payload);
        assert(buffer@ =~= checksum_input(command, payload@));
        Self::checksum_from_buffer(&buffer)
    }

    fn checksum_from_buffer(buffer: &[u8]) -> (sum: u16)
        ensures
            sum == byte_sum(buffer@) % 65536,
    {
        let mut sum: u16 = 0;
        let mut i: usize = 0;
        while i < buffer.len()
            invariant
                i <= buffer@.len(),
                sum == byte_sum(buffer@.take(i as int)) % 65536,
            decreases buffer@.len() - i,
        {
            assert(buffer@.take(i + 1).drop_last() == buffer@.take(i as int));
            sum = sum.wrapping_add(buffer[i] as u16);
            i = i + 1;
        }
        assert(buffer@.take(i as int) == buffer@);
        sum
    }
}

} // verus!

verus! {

/// Every packet on the wire starts with `PACKET_START` and ends with
/// `PACKET_END`; its length field counts the bytes between it and the end
/// byte (command, payload and checksum); and its checksum, stored before the end byte, is the sum of
/// the bytes from the length field through the payload, modulo 2^16.
pub proof fn lemma_packet_layout(command: Command, payload: Seq<u8>, packet: Packet)
    requires
        payload.len() + 3 <= u16::MAX,
        packet.frames(command, payload),
    ensures
        ({
            let w = packet.wire_bytes();
            let n = w.len() as int;
            &&& n == payload.len() + 7
            &&& w[0] == PACKET_START
            &&& w[n - 1] == PACKET_END
            &&& super::byte_order::le16_at(w, 1) == n - 4
            &&& w[3] == command.code()
            &&& w.subrange(4, n - 3) == payload
            &&& super::byte_order::le16_at(w, n - 3) == byte_sum(w.subrange(1, n - 3)) % 65536
        }),
{
    let w = packet.wire_bytes();
    let n = w.len() as int;
    assert(packet.payload@ == payload);
    assert(w.subrange(4, n - 3) =~= payload);
    assert(w.subrange(1, n - 3) =~= checksum_input(command, payload));
    let c = packet.checksum;
    assert(w[n - 3] == c % 256 && w[n - 2] == c / 256);
    assert((c % 256) as u8 + 256 * ((c / 256) as u8) == c);
    let l = packet.length;
    assert(w[1] == l % 256 && w[2] == l / 256);
    assert((l % 256) as u8 + 256 * ((l / 256) as u8) == l);
}

} // verus!
