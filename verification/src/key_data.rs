use vstd::prelude::*;

verus! {

/// The payload of a note event: the MIDI key number and a volume
/// (already mapped to the MML `v0`..`v100` range, or the raw release
/// velocity for a note-off).
#[derive(Clone, Copy, PartialEq, Eq, Structural, Debug)]
pub struct KeyData {
    pub key: u8,
    pub vol: u8,
}

impl KeyData {
    pub fn new(key: u8, vol: u8) -> (r: Self)
        ensures
            r.key == key,
            r.vol == vol,
    {
        KeyData { key, vol }
    }
}

} // verus!
