use crate::io::errors::MIDIParseError;
use vstd::prelude::*;

verus! {

/// A forward-only source of the bytes of one track.
///
/// A reader is described by the bytes that it has not handed out yet, the
/// absolute offset of the next of them, and the index of its track.
pub trait TrackReader {
    /// The bytes not read yet, in the order in which `read` hands them out.
    spec fn remaining(&self) -> Seq<u8>;

    /// The absolute offset of the next byte.
    spec fn position(&self) -> u64;

    /// The index of the track, as reported in errors.
    spec fn track(&self) -> u32;

    /// Hands out the next byte and steps over it. At the end of the data it
    /// fails and leaves the reader as it was.
    fn read(&mut self) -> (byte: Result<u8, MIDIParseError>)
        ensures
            final(self).track() == old(self).track(),
            old(self).remaining().len() > 0 ==> {
                &&& byte == Ok::<u8, MIDIParseError>(old(self).remaining()[0])
                &&& final(self).remaining() == old(self).remaining().skip(1)
                &&& final(self).position() == old(self).position() + 1
            },
            old(self).remaining().len() == 0 ==> {
                &&& byte == Err::<u8, MIDIParseError>(
                    MIDIParseError::UnexpectedTrackEnd {
                        track_number: old(self).track(),
                        position: old(self).position(),
                    },
                )
                &&& final(self).remaining() == old(self).remaining()
                &&& final(self).position() == old(self).position()
            },
    ;

    /// The absolute offset of the next byte.
    fn pos(&self) -> (p: u64)
        ensures
            p == self.position(),
    ;

    /// Whether every byte has been read.
    fn is_at_end(&self) -> (b: bool)
        ensures
            b == (self.remaining().len() == 0),
    ;

    /// The index of the track.
    fn track_number(&self) -> (t: u32)
        ensures
            t == self.track(),
    ;
}

/// A reader over the bytes of a track held in memory, which stand at a
/// given offset of the file they were taken from.
pub struct FullRamTrackReader {
    bytes: Vec<u8>,
    /// The index in `bytes` of the next byte.
    pos: usize,
    /// The absolute offset of the first of `bytes`.
    start: u64,
    track_number: u32,
}

impl FullRamTrackReader {
    #[verifier::type_invariant]
    spec fn fits(&self) -> bool {
        &&& self.pos <= self.bytes.len()
        &&& self.start + self.bytes.len() <= u64::MAX
    }

    /// A reader at the first of `bytes`, which stands at offset `start`.
    pub fn new(track_number: u32, start: u64, bytes: Vec<u8>) -> (reader: Self)
        requires
            start + bytes.len() <= u64::MAX,
        ensures
            reader.remaining() == bytes@,
            reader.position() == start,
            reader.track() == track_number,
    {
        FullRamTrackReader { bytes, pos: 0, start, track_number }
    }

    /// A reader of `bytes`, which start at offset `start`, at the absolute
    /// offset `pos`. An offset before the first byte gives a reader at the
    /// first byte, one behind the last byte a reader at the end.
    pub fn new_at(track_number: u32, start: u64, bytes: Vec<u8>, pos: u64) -> (reader: Self)
        requires
            start + bytes.len() <= u64::MAX,
        ensures
            reader.position() == (if pos < start {
                start as int
            } else if pos > start + bytes.len() {
                start + bytes.len()
            } else {
                pos as int
            }),
            reader.remaining() == bytes@.skip(reader.position() - start),
            reader.track() == track_number,
    {
        let len: usize = bytes.len();
        let index: usize = if pos < start {
            0
        } else if pos - start > len as u64 {
            len
        } else {
            (pos - start) as usize
        };
        FullRamTrackReader { bytes, pos: index, start, track_number }
    }
}

impl TrackReader for FullRamTrackReader {
    closed spec fn remaining(&self) -> Seq<u8> {
        self.bytes@.skip(self.pos as int)
    }

    closed spec fn position(&self) -> u64 {
        (self.start + self.pos) as u64
    }

    closed spec fn track(&self) -> u32 {
        self.track_number
    }

    fn read(&mut self) -> (byte: Result<u8, MIDIParseError>) {
        proof {
            use_type_invariant(&*self);
        }
        if self.pos < self.bytes.len() {
            let b: u8 = self.bytes[self.pos];
            self.pos = self.pos + 1;
            Ok(b)
        } else {
            Err(
                MIDIParseError::UnexpectedTrackEnd {
                    track_number: self.track_number,
                    position: self.start + self.pos as u64,
                },
            )
        }
    }

    fn pos(&self) -> (p: u64) {
        proof {
            use_type_invariant(self);
        }
        self.start + self.pos as u64
    }

    fn is_at_end(&self) -> (b: bool) {
        proof {
            use_type_invariant(self);
        }
        self.pos >= self.bytes.len()
    }

    fn track_number(&self) -> (t: u32) {
        self.track_number
    }
}

} // verus!
