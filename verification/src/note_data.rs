use vstd::prelude::*;

verus! {

/// A currently sounding key during lane assignment: which key, when it
/// started, and which lane it occupies.
#[derive(Clone, Copy, PartialEq, Eq, Structural, Debug)]
pub struct NoteData {
    pub key: u8,
    pub tick: u32,
    pub sub_channel: u8,
}

impl NoteData {
    pub fn new(key: u8, tick: u32, sub_channel: u8) -> (r: Self)
        ensures
            r == (NoteData { key, tick, sub_channel }),
    {
        NoteData { key, tick, sub_channel }
    }
}

} // verus!
