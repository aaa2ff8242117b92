use vstd::prelude::*;

use super::datetime::TimeOfDay;

verus! {

/// One alarm slot of the device.
#[derive(Debug)]
pub struct Alarm {
    /// Which alarm to set, starting from 0.
    pub index: u8,
    pub enable: bool,
    pub time: TimeOfDay,
    /// Bits 0 to 6 stand for Sunday to Saturday: the days the alarm repeats on.
    pub repeat: u8,
    /// Alarm mode (music is 0).
    pub mode: u8,
    /// Trigger mode (music is 1, animation is 4).
    pub trigger_mode: u8,
    /// The frequency point when the trigger is music.
    pub fm: [u8; 2],
    /// Volume, 0 to 100.
    pub volume: u8,
}

impl Alarm {
    /// The payload bytes, one per field in the order of the declaration, the
    /// time as its hour and minute.
    pub open spec fn wire_bytes(self) -> Seq<u8> {
        seq![
            self.index,
            if self.enable { 1u8 } else { 0u8 },
            self.time.hour as u8,
            self.time.minute as u8,
            self.repeat,
            self.mode,
            self.trigger_mode,
            self.fm@[0],
            self.fm@[1],
            self.volume,
        ]
    }

    pub fn serialize(&self) -> (bytes: Vec<u8>)
        ensures
            bytes@ == self.wire_bytes(),
    {
        let mut bytes: Vec<u8> = Vec::new();
        bytes.push(self.index);
        bytes.push(if self.enable { 1u8 } else { 0u8 });
        bytes.push(self.time.hour as u8);
        bytes.push(self.time.minute as u8);
        bytes.push(self.repeat);
        bytes.push(self.mode);
        bytes.push(self.trigger_mode);
        bytes.push(self.fm[0]);
        bytes.push(self.fm[1]);
        bytes.push(self.volume);
        assert(bytes@ =~= self.wire_bytes());
        bytes
    }
}

} // verus!
