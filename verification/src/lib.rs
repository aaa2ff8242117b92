pub mod divoom_file_format;
pub mod protocol;

mod bytes;

use vstd::prelude::*;

use crate::protocol::alarm::Alarm;
use crate::protocol::animation::{animation_payload, Animation, ControlWord};
use crate::protocol::command::Command;
use crate::protocol::datetime::{CalendarDateTime, DateTime, TimeOfDay};
use crate::protocol::byte_order::le16_at;
use crate::protocol::packet::Packet;

verus! {

/// What the device shows: its channel and its brightness.
#[derive(Debug, Clone, Copy, PartialEq, Eq)]
pub struct DeviceState {
    pub channel: u8,
    pub brightness: u8,
}

/// Why a reply to the settings query could not be read.
#[derive(Debug, Clone, Copy, PartialEq, Eq)]
pub enum ResponseError {
    /// The reply has fewer than 20 bytes; its length.
    TooShort(usize),
    /// The reply does not start with 0x01; the byte found.
    BadStartByte(u8),
    /// Byte 3 is not the response marker 0x04; the byte found.
    UnexpectedMarker(u8),
    /// Byte 4 does not echo the command 0x46; the byte found.
    UnexpectedCommandEcho(u8),
    /// Byte 5 is not the fixed 0x55; the byte found.
    UnexpectedFixedByte(u8),
}

/// Why a command could not be made.
#[derive(Debug, Clone, Copy, PartialEq, Eq)]
pub enum CommandError {
    InvalidTime,
}

/// What reading the reply `bytes` to the settings query gives. The reply is
/// `01 LL LL 04 46 55 [channel] [12 bytes] [brightness] ...`.
pub open spec fn settings_response(bytes: Seq<u8>) -> Result<DeviceState, ResponseError> {
    if bytes.len() < 20 {
        Err(ResponseError::TooShort(bytes.len() as usize))
    } else if bytes[0] != 0x01 {
        Err(ResponseError::BadStartByte(bytes[0]))
    } else if bytes[3] != 0x04 {
        Err(ResponseError::UnexpectedMarker(bytes[3]))
    } else if bytes[4] != 0x46 {
        Err(ResponseError::UnexpectedCommandEcho(bytes[4]))
    } else if bytes[5] != 0x55 {
        Err(ResponseError::UnexpectedFixedByte(bytes[5]))
    } else {
        Ok(DeviceState { channel: bytes[6], brightness: bytes[19] })
    }
}

/// Reads the device state from its reply to the settings query.
pub fn parse_settings_response(bytes: &[u8]) -> (state: Result<DeviceState, ResponseError>)
    ensures
        state == settings_response(bytes@),
{
    if bytes.len() < 20 {
        return Err(ResponseError::TooShort(bytes.len()));
    }
    if bytes[0] != 0x01 {
        return Err(ResponseError::BadStartByte(bytes[0]));
    }
    if bytes[3] != 0x04 {
        return Err(ResponseError::UnexpectedMarker(bytes[3]));
    }
    if bytes[4] != 0x46 {
        return Err(ResponseError::UnexpectedCommandEcho(bytes[4]));
    }
    if bytes[5] != 0x55 {
        return Err(ResponseError::UnexpectedFixedByte(bytes[5]));
    }
    Ok(DeviceState { channel: bytes[6], brightness: bytes[19] })
}

/// A reply being received is complete: its length field (bytes 1 and 2, little
/// endian) counts the bytes between it and the end byte, so a whole reply has
/// that many bytes plus four.
pub open spec fn reply_complete(bytes: Seq<u8>) -> bool {
    bytes.len() >= 3 && bytes.len() >= le16_at(bytes, 1) + 4
}

/// Adds `byte` of a reply being received to `response`; `true` when the reply
/// is complete by its length field.
pub fn accept_response_byte(response: &mut Vec<u8>, byte: u8) -> (done: bool)
    ensures
        final(response)@ == old(response)@.push(byte),
        done == reply_complete(final(response)@),
{
    response.push(byte);
    let received = response.len();
    if received < 3 {
        return false;
    }
    let announced = response[1] as usize + 256 * response[2] as usize;
    received >= announced + 4
}

/// The number of 256-byte chunks of `len` bytes, the last one maybe shorter.
pub open spec fn chunk_count(len: nat) -> nat {
    (len + 255) / 256
}

/// Chunk `i` of `data`: bytes `256 * i` to `256 * (i + 1)`, or to the end.
pub open spec fn chunk(data: Seq<u8>, i: int) -> Seq<u8> {
    data.subrange(256 * i, if 256 * (i + 1) < data.len() { 256 * (i + 1) } else { data.len() as int })
}

/// The first `n` chunks of `data`, joined.
pub open spec fn joined_chunks(data: Seq<u8>, n: nat) -> Seq<u8>
    decreases n,
{
    if n == 0 {
        Seq::empty()
    } else {
        joined_chunks(data, (n - 1) as nat) + chunk(data, n - 1)
    }
}

/// The chunks that the upload of an animation sends, joined in order, are the
/// animation.
pub proof fn lemma_chunks_rejoin(data: Seq<u8>)
    ensures
        joined_chunks(data, chunk_count(data.len())) == data,
{
    lemma_joined_prefix(data, chunk_count(data.len()));
    assert(data.subrange(0, data.len() as int) =~= data);
}

proof fn lemma_joined_prefix(data: Seq<u8>, n: nat)
    requires
        n <= chunk_count(data.len()),
    ensures
        joined_chunks(data, n) =~= data.subrange(0, if 256 * n < data.len() { (256 * n) as int } else { data.len() as int }),
    decreases n,
{
    if n > 0 {
        lemma_joined_prefix(data, (n - 1) as nat);
    }
}

/// The packets that upload the animation file `data`: one that announces its
/// size, then one per 256-byte chunk with the chunk's index (its low 16 bits)
/// and the chunk. Sizes and indices too large for their fields are truncated.
pub fn create_network_packets_from(data: &[u8]) -> (packets: Vec<Packet>)
    ensures
        packets@.len() == 1 + chunk_count(data@.len()),
        packets@[0].frames(
            Command::Animation,
            animation_payload(ControlWord::StartSeeding, data@.len() as u32, 0, Seq::empty()),
        ),
        forall|i: int|
            0 <= i < chunk_count(data@.len()) ==> (#[trigger] packets@[i + 1]).frames(
                Command::Animation,
                animation_payload(ControlWord::SendingData, data@.len() as u32, i as u16, chunk(data@, i)),
            ),
{
    let file_size = #[verifier::truncate] (data.len() as u32);
    let mut packets: Vec<Packet> = Vec::new();
    let start = Animation { control_word: ControlWord::StartSeeding, file_size, offset_id: 0, image_part: Vec::new() };
    let payload = start.serialize();
    packets.push(Packet::from(Command::Animation, payload.as_slice()));
    let count: usize = data.len() / 256 + if data.len() % 256 == 0 { 0 } else { 1 };
    let mut i: usize = 0;
    while i < count
        invariant
            i <= count,
            count == chunk_count(data@.len()),
            file_size == data@.len() as u32,
            packets@.len() == 1 + i,
            packets@[0].frames(
                Command::Animation,
                animation_payload(ControlWord::StartSeeding, data@.len() as u32, 0, Seq::empty()),
            ),
            forall|j: int|
                0 <= j < i ==> (#[trigger] packets@[j + 1]).frames(
                    Command::Animation,
                    animation_payload(ControlWord::SendingData, data@.len() as u32, j as u16, chunk(data@, j)),
                ),
        decreases count - i,
    {
        packets.push(chunk_packet(data, i, file_size));
        i = i + 1;
    }
    packets
}

/// The packet that carries chunk `index` of `data`.
fn chunk_packet(data: &[u8], index: usize, file_size: u32) -> (packet: Packet)
    requires
        index < chunk_count(data@.len()),
    ensures
        packet.frames(
            Command::Animation,
            animation_payload(ControlWord::SendingData, file_size, index as u16, chunk(data@, index as int)),
        ),
{
    let len = data.len();
    assert(256 * index < data@.len()) by (nonlinear_arith)
        requires
            index < (data@.len() + 255) / 256,
    ;
    let from = 256 * index;
    let to = if data.len() - from > 256 { from + 256 } else { data.len() };
    let part = vstd::slice::slice_to_vec(vstd::slice::slice_subrange(data, from, to));
    assert(part@ == chunk(data@, index as int));
    let message = Animation {
        control_word: ControlWord::SendingData,
        file_size,
        offset_id: #[verifier::truncate] (index as u16),
        image_part: part,
    };
    let payload = message.serialize();
    Packet::from(Command::Animation, payload.as_slice())
}

/// The packet that asks the device for its settings.
pub fn get_settings_packet() -> (packet: Packet)
    ensures
        packet.frames(Command::GetSettings, Seq::empty()),
{
    let payload: Vec<u8> = Vec::new();
    Packet::from(Command::GetSettings, payload.as_slice())
}

/// The packet that switches the display to `channel`.
pub fn set_channel_packet(channel: u8) -> (packet: Packet)
    ensures
        packet.frames(Command::SetChannel, seq![channel]),
{
    let mut payload: Vec<u8> = Vec::new();
    payload.push(channel);
    Packet::from(Command::SetChannel, payload.as_slice())
}

/// The alarm the alarm command sets: slot 0, on or off as `enable` says, at
/// 13:37, no repetition, music mode and trigger 0, volume 100.
pub open spec fn default_alarm_payload(enable: bool) -> Seq<u8> {
    seq![0u8, if enable { 1u8 } else { 0u8 }, 13u8, 37u8, 0u8, 0u8, 0u8, 0u8, 0u8, 100u8]
}

/// The packet that sets the device's first alarm, switched on or off.
pub fn alarm_packet(enable: bool) -> (packet: Result<Packet, CommandError>)
    ensures
        packet matches Ok(p) && p.frames(Command::Alarm, default_alarm_payload(enable)),
{
    let time = match TimeOfDay::from_hms(13, 37, 0) {
        Some(t) => t,
        None => return Err(CommandError::InvalidTime),
    };
    let alarm = Alarm {
        index: 0,
        enable,
        time,
        repeat: 0,
        mode: 0,
        trigger_mode: 0,
        fm: [0, 0],
        volume: 100,
    };
    let payload = alarm.serialize();
    assert(payload@ =~= default_alarm_payload(enable));
    Ok(Packet::from(Command::Alarm, payload.as_slice()))
}

/// The packet that sets the device clock to `datetime`.
pub fn set_datetime_packet(datetime: CalendarDateTime) -> (packet: Packet)
    ensures
        packet.frames(Command::SetDateTime, (DateTime { datetime }).wire_bytes()),
{
    let payload = DateTime { datetime }.serialize();
    Packet::from(Command::SetDateTime, payload.as_slice())
}

} // verus!
