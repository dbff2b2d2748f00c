use vstd::prelude::*;

verus! {

/// A value that starts at a point in time, counted in ticks.
pub trait MIDINote {
    /// The tick at which the note starts.
    spec fn start_time(&self) -> u64;

    /// The tick at which the note starts.
    fn start(&self) -> (time: u64)
        ensures
            time == self.start_time(),
    ;
}

/// A note of a fixed length on one key of one channel.
#[derive(Debug, Clone, Copy, PartialEq, Eq, Structural)]
pub struct Note {
    pub start: u64,
    pub len: u64,
    pub key: u8,
    pub channel: u8,
    pub velocity: u8,
}

impl MIDINote for Note {
    open spec fn start_time(&self) -> u64 {
        self.start
    }

    fn start(&self) -> u64 {
        self.start
    }
}

} // verus!
