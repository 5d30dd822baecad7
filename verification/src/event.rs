use vstd::prelude::*;

use crate::key_data::KeyData;

verus! {

/// One timed musical instruction, tagged with its MIDI channel, its
/// polyphony lane (`sub_channel`) and its absolute tick.
#[derive(Clone, Copy, PartialEq, Eq, Structural, Debug)]
pub enum DataKind {
    NoteOn(KeyData),
    NoteOff(KeyData),
    ChangeTimbre(u8),
    ChangeTempo(u32),
}

#[derive(Clone, Copy, PartialEq, Eq, Structural, Debug)]
pub struct Event {
    pub channel: u8,
    pub sub_channel: u8,
    pub tick: u32,
    pub data_kind: DataKind,
}

impl Event {
    /// A fresh event always starts on lane 0; lanes are assigned later.
    pub fn new(channel: u8, tick: u32, data_kind: DataKind) -> (r: Self)
        ensures
            r == (Event { channel, sub_channel: 0, tick, data_kind }),
    {
        Event { channel, sub_channel: 0, tick, data_kind }
    }

    pub fn new_with_sub(channel: u8, sub_channel: u8, tick: u32, data_kind: DataKind) -> (r: Self)
        ensures
            r == (Event { channel, sub_channel, tick, data_kind }),
    {
        Event { channel, sub_channel, tick, data_kind }
    }
}

} // verus!
