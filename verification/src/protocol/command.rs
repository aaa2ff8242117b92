use vstd::prelude::*;

verus! {

/// The commands of the Divoom serial protocol that this library sends.
#[derive(Clone, Copy, Debug, PartialEq, Eq)]
pub enum Command {
    Alarm,
    Animation,
    GetSettings,
    SetChannel,
    SetDateTime,
}

impl Command {
    /// The command byte on the wire.
    pub open spec fn code(self) -> u8 {
        match self {
            Command::SetDateTime => 0x18,
            Command::Alarm => 0x43,
            Command::SetChannel => 0x45,
            Command::GetSettings => 0x46,
            Command::Animation => 0x8b,
        }
    }

    pub fn value(&self) -> (v: u8)
        ensures
            v == self.code(),
    {
        match *self {
            Command::SetDateTime => 0x18,
            Command::Alarm => 0x43,
            Command::SetChannel => 0x45,
            Command::GetSettings => 0x46,
            Command::Animation => 0x8b,
        }
    }
}

} // verus!
