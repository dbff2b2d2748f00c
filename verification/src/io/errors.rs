use vstd::prelude::*;

verus! {

/// Why decoding a track stopped.
#[derive(Debug, Clone, Copy, PartialEq, Eq, Structural)]
pub enum MIDIParseError {
    /// A meta event of fixed size declared another length. `position` is the
    /// offset just behind the length byte.
    CorruptEvent { track_number: u32, position: u64 },
    /// The track's bytes ended where another byte was needed. `position` is
    /// the offset at which the byte was missing.
    UnexpectedTrackEnd { track_number: u32, position: u64 },
}

} // verus!
