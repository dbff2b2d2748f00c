//! The track decoder: a reader of bytes turned into timed events.
use crate::events::{Event, TextEventKind};
use crate::io::errors::MIDIParseError;
use crate::io::readers::TrackReader;
use crate::io::track_format::{
    decode_body, decode_meta, lemma_body_len, lemma_event_len, payload, Body, Outcome,
};
use crate::io::track_state::{lemma_fetched, lemma_taken_taken, CheckpointView, ParserState};
use crate::io::var_length::{
    base128, closing_byte, lemma_pushed, lemma_var_length_size, var_length, wrap,
};
use crate::sequence::event::Delta;
use vstd::prelude::*;

verus! {

/// Decodes the events of one track from a reader, one event per call of
/// [`TrackParser::next`].
pub struct TrackParser<T: TrackReader> {
    reader: T,
    pushback: Option<u8>,
    prev_command: u8,
    errored: bool,
}

/// What a decoder needs, besides a reader at the same offset, to go on where
/// another one stood.
#[derive(Debug, Clone, Copy, PartialEq, Eq)]
pub struct ParserCheckpoint {
    pushback: Option<u8>,
    prev_command: u8,
    reader_pos: u64,
    ended: bool,
}

impl View for ParserCheckpoint {
    type V = CheckpointView;

    closed spec fn view(&self) -> CheckpointView {
        CheckpointView {
            pushback: self.pushback,
            running_status: self.prev_command,
            reader_pos: self.reader_pos as int,
            ended: self.ended,
        }
    }
}

impl ParserCheckpoint {
    /// The offset at which the reader stood when the checkpoint was taken.
    pub fn reader_pos(&self) -> (pos: u64)
        ensures
            pos == self@.reader_pos,
    {
        self.reader_pos
    }
}

impl<T: TrackReader> View for TrackParser<T> {
    type V = ParserState;

    closed spec fn view(&self) -> ParserState {
        ParserState {
            pushback: self.pushback,
            running_status: self.prev_command,
            terminated: self.errored,
            unread: self.reader.remaining(),
            position: self.reader.position() as int,
            track_number: self.reader.track(),
        }
    }
}

/// Whether reading a body in state `before` has led to state `after` and
/// result `r`, as `body` says.
spec fn body_read(
    before: ParserState,
    body: Body,
    after: ParserState,
    r: Result<Option<Event>, MIDIParseError>,
) -> bool {
    &&& after =~= before.taken(body.len)
    &&& match body.outcome {
        Outcome::Event(event) => r matches Ok(Some(e)) && e@ == event,
        Outcome::Skipped => r matches Ok(None),
        Outcome::Truncated => r == Err::<Option<Event>, MIDIParseError>(
            MIDIParseError::UnexpectedTrackEnd { track_number: before.track_number, position: after.position as u64 },
        ),
        Outcome::Corrupt => r == Err::<Option<Event>, MIDIParseError>(
            MIDIParseError::CorruptEvent { track_number: before.track_number, position: after.position as u64 },
        ),
    }
}

impl<T: TrackReader> TrackParser<T> {
    /// A decoder that goes on from `checkpoint`, over a reader that stands at
    /// the offset recorded there.
    pub fn from_checkpoint(reader: T, checkpoint: ParserCheckpoint) -> (parser: Self)
        requires
            checkpoint@.reader_pos == reader.position(),
        ensures
            parser@ == checkpoint@.restored(reader.remaining(), reader.track()),
    {
        TrackParser {
            reader,
            pushback: checkpoint.pushback,
            prev_command: checkpoint.prev_command,
            errored: checkpoint.ended,
        }
    }

    /// A decoder at the start of an event, with no status seen yet.
    pub fn new(reader: T) -> (parser: Self)
        ensures
            parser@ == (ParserState {
                pushback: None,
                running_status: 0,
                terminated: false,
                unread: reader.remaining(),
                position: reader.position() as int,
                track_number: reader.track(),
            }),
    {
        TrackParser { reader, pushback: None, prev_command: 0, errored: false }
    }

    /// The decoder's state between two events, to go on from later.
    pub fn checkpoint(&self) -> (checkpoint: ParserCheckpoint)
        ensures
            checkpoint@ == self@.snapshot(),
    {
        ParserCheckpoint {
            pushback: self.pushback,
            prev_command: self.prev_command,
            reader_pos: self.reader.pos(),
            ended: self.errored,
        }
    }

    /// Takes the next byte of the input: the byte pushed back, if there is
    /// one, else the reader's next byte. A step of [`TrackParser::next`],
    /// for callers that decode a track's bytes themselves.
    pub fn read(&mut self) -> (byte: Result<u8, MIDIParseError>)
        ensures
            old(self)@.input().len() > 0 ==> {
                &&& byte == Ok::<u8, MIDIParseError>(old(self)@.input()[0])
                &&& final(self)@ =~= old(self)@.taken(1)
            },
            old(self)@.input().len() == 0 ==> {
                &&& byte == Err::<u8, MIDIParseError>(
                    MIDIParseError::UnexpectedTrackEnd {
                        track_number: old(self)@.track_number,
                        position: old(self)@.position as u64,
                    },
                )
                &&& final(self)@ =~= old(self)@
            },
    {
        match self.pushback {
            Some(p) => {
                self.pushback = None;
                Ok(p)
            },
            None => self.reader.read(),
        }
    }

    /// Takes the reader's next byte, whatever has been pushed back: for the
    /// bytes of an event behind its first data byte, before which nothing
    /// can be pushed back.
    pub fn read_fast(&mut self) -> (byte: Result<u8, MIDIParseError>)
        ensures
            old(self)@.unread.len() > 0 ==> {
                &&& byte == Ok::<u8, MIDIParseError>(old(self)@.unread[0])
                &&& final(self)@ =~= old(self)@.fetched()
            },
            old(self)@.unread.len() == 0 ==> {
                &&& byte == Err::<u8, MIDIParseError>(
                    MIDIParseError::UnexpectedTrackEnd {
                        track_number: old(self)@.track_number,
                        position: old(self)@.position as u64,
                    },
                )
                &&& final(self)@ =~= old(self)@
            },
    {
        self.reader.read()
    }

    /// Takes a variable-length quantity from the input: a delta time, or the
    /// length of a payload. The value is kept modulo 2^64.
    pub fn read_var_length(&mut self) -> (value: Result<u64, MIDIParseError>)
        ensures
            match var_length(old(self)@.input()) {
                Some((v, k)) => {
                    &&& value == Ok::<u64, MIDIParseError>(v)
                    &&& final(self)@ =~= old(self)@.taken(k)
                },
                None => {
                    &&& final(self)@ =~= old(self)@.taken(old(self)@.input().len())
                    &&& value == Err::<u64, MIDIParseError>(
                        MIDIParseError::UnexpectedTrackEnd {
                            track_number: old(self)@.track_number,
                            position: final(self)@.position as u64,
                        },
                    )
                },
            },
    {
        let ghost start = self@;
        let ghost inp = self@.input();
        let ghost mut i: int = 0;
        let mut n: u64 = 0;
        loop
            invariant
                0 <= i <= inp.len(),
                start == old(self)@,
                inp == start.input(),
                self@ =~= start.taken(i as nat),
                closing_byte(inp, 0) == closing_byte(inp, i as nat),
                n == base128(inp.take(i)) % wrap(),
            decreases inp.len() - i,
        {
            let byte: u8 = match self.read() {
                Ok(b) => b,
                Err(e) => {
                    proof {
                        assert(start.taken(i as nat).input() =~= inp.skip(i));
                    }
                    return Err(e);
                },
            };
            proof {
                assert(start.taken(i as nat).input() =~= inp.skip(i));
                lemma_pushed(inp.take(i), n, byte);
                assert(inp.take(i).push(byte) =~= inp.take(i + 1));
                assert((byte & 0x80) == 0 <==> byte < 0x80) by (bit_vector);
                assert(self@.unread =~= inp.skip(i + 1));
                i = i + 1;
            }
            n = (n << 7) | ((byte & 0x7F) as u64);
            if (byte & 0x80) == 0 {
                return Ok(n);
            }
        }
    }

    /// Takes the length byte of a meta event of fixed size and holds it
    /// against `size`.
    fn assert_len(&mut self, size: u8) -> (r: Result<(), MIDIParseError>)
        ensures
            old(self)@.unread.len() > 0 ==> {
                &&& final(self)@ =~= old(self)@.fetched()
                &&& r == (if old(self)@.unread[0] == size {
                    Ok::<(), MIDIParseError>(())
                } else {
                    Err::<(), MIDIParseError>(
                        MIDIParseError::CorruptEvent {
                            track_number: old(self)@.track_number,
                            position: final(self)@.position as u64,
                        },
                    )
                })
            },
            old(self)@.unread.len() == 0 ==> {
                &&& r == Err::<(), MIDIParseError>(
                    MIDIParseError::UnexpectedTrackEnd {
                        track_number: old(self)@.track_number,
                        position: old(self)@.position as u64,
                    },
                )
                &&& final(self)@ =~= old(self)@
            },
    {
        let declared: u8 = self.read_fast()?;
        if declared != size {
            return Err(
                MIDIParseError::CorruptEvent {
                    track_number: self.reader.track_number(),
                    position: self.reader.pos(),
                },
            );
        }
        Ok(())
    }

    /// Takes a length, as a variable-length quantity, and that many bytes.
    fn read_data(&mut self) -> (r: Result<Vec<u8>, MIDIParseError>)
        ensures
            match payload(old(self)@.input()) {
                Some((bytes, n)) => {
                    &&& r matches Ok(data) && data@ == bytes
                    &&& final(self)@ =~= old(self)@.taken(n)
                },
                None => {
                    &&& final(self)@ =~= old(self)@.taken(old(self)@.input().len())
                    &&& r == Err::<Vec<u8>, MIDIParseError>(
                        MIDIParseError::UnexpectedTrackEnd {
                            track_number: old(self)@.track_number,
                            position: final(self)@.position as u64,
                        },
                    )
                },
            },
    {
        let ghost start = self@;
        let ghost inp = self@.input();
        let size: u64 = self.read_var_length()?;
        let ghost k: int = var_length(inp).unwrap().1 as int;
        proof {
            lemma_var_length_size(inp);
        }
        let mut data: Vec<u8> = Vec::new();
        let mut i: u64 = 0;
        while i < size
            invariant
                start == old(self)@,
                inp == start.input(),
                var_length(inp) == Some((size, k as nat)),
                1 <= k,
                i <= size,
                k + i <= inp.len(),
                self@ =~= start.taken((k + i) as nat),
                data@ =~= inp.subrange(k, k + i),
            decreases size - i,
        {
            let byte: u8 = match self.read_fast() {
                Ok(b) => b,
                Err(e) => {
                    return Err(e);
                },
            };
            data.push(byte);
            i = i + 1;
        }
        Ok(data)
    }

    /// Decodes a meta event, from its type byte on.
    fn read_meta(&mut self) -> (r: Result<Option<Event>, MIDIParseError>)
        ensures
            body_read(old(self)@, decode_meta(old(self)@.input()), final(self)@, r),
    {
        broadcast use {lemma_taken_taken, lemma_fetched};

        reveal(decode_meta);
        let ghost start = self@;
        let ghost b = self@.input();
        let meta_type: u8 = self.read()?;
        match meta_type {
            0x00 => {
                self.assert_len(2)?;
                let _hi: u8 = self.read_fast()?;
                let _lo: u8 = self.read_fast()?;
                Ok(Some(Event::TrackStart))
            },
            0x01..=0x0A | 0xF7 => {
                let data: Vec<u8> = self.read_data()?;
                Ok(Some(Event::Text { kind: TextEventKind::from_val(meta_type), bytes: data }))
            },
            0x20 => {
                self.assert_len(1)?;
                let prefix: u8 = self.read_fast()?;
                Ok(Some(Event::ChannelPrefix { channel_prefix: prefix }))
            },
            0x21 => {
                self.assert_len(1)?;
                let port: u8 = self.read_fast()?;
                Ok(Some(Event::MIDIPort { port }))
            },
            0x2F => {
                self.assert_len(0)?;
                Ok(None)
            },
            0x51 => {
                self.assert_len(3)?;
                let b0: u8 = self.read_fast()?;
                let b1: u8 = self.read_fast()?;
                let b2: u8 = self.read_fast()?;
                let tempo: u32 = ((b0 as u32) << 16) | ((b1 as u32) << 8) | (b2 as u32);
                proof {
                    assert(((b0 as u32) << 16) | ((b1 as u32) << 8) | (b2 as u32) == b0 * 65536 + b1 * 256 + b2)
                        by (bit_vector);
                }
                Ok(Some(Event::Tempo { tempo }))
            },
            0x54 => {
                self.assert_len(5)?;
                let hr: u8 = self.read_fast()?;
                let mn: u8 = self.read_fast()?;
                let se: u8 = self.read_fast()?;
                let fr: u8 = self.read_fast()?;
                let ff: u8 = self.read_fast()?;
                Ok(
                    Some(
                        Event::SMPTEOffset {
                            hours: hr,
                            minutes: mn,
                            seconds: se,
                            frames: fr,
                            fractional_frames: ff,
                        },
                    ),
                )
            },
            0x58 => {
                self.assert_len(4)?;
                let nn: u8 = self.read_fast()?;
                let dd: u8 = self.read_fast()?;
                let cc: u8 = self.read_fast()?;
                let bb: u8 = self.read_fast()?;
                Ok(Some(Event::TimeSignature { numerator: nn, denominator: dd, ticks_per_click: cc, bb }))
            },
            0x59 => {
                self.assert_len(2)?;
                let sf: u8 = self.read_fast()?;
                let mi: u8 = self.read_fast()?;
                let sf: i8 = if sf < 128 {
                    sf as i8
                } else {
                    ((sf as i16) - 256) as i8
                };
                Ok(Some(Event::KeySignature { sf, mi }))
            },
            _ => {
                let data: Vec<u8> = self.read_data()?;
                Ok(Some(Event::UnknownMeta { meta_type, bytes: data }))
            },
        }
    }

    /// Decodes what follows the status byte `command`.
    fn read_body(&mut self, command: u8) -> (r: Result<Option<Event>, MIDIParseError>)
        ensures
            body_read(old(self)@, decode_body(command, old(self)@.input()), final(self)@, r),
    {
        broadcast use {lemma_taken_taken, lemma_fetched};

        reveal(decode_body);
        let ghost b = self@.input();
        let comm: u8 = command & 0xF0;
        let channel: u8 = command & 0x0F;
        proof {
            assert(command & 0x0F == command % 16) by (bit_vector);
            assert(command & 0xF0 == (command / 16) * 16) by (bit_vector);
        }
        match comm {
            0x80 => {
                let key: u8 = self.read()?;
                let _vel: u8 = self.read_fast()?;
                Ok(Some(Event::NoteOff { channel, key }))
            },
            0x90 => {
                let key: u8 = self.read()?;
                let vel: u8 = self.read_fast()?;
                if vel == 0 {
                    Ok(Some(Event::NoteOff { channel, key }))
                } else {
                    Ok(Some(Event::NoteOn { channel, key, velocity: vel }))
                }
            },
            0xA0 => {
                let key: u8 = self.read()?;
                let vel: u8 = self.read_fast()?;
                Ok(Some(Event::PolyphonicKeyPressure { channel, key, velocity: vel }))
            },
            0xB0 => {
                let controller: u8 = self.read()?;
                let value: u8 = self.read_fast()?;
                Ok(Some(Event::ControlChange { channel, controller, value }))
            },
            0xC0 => {
                let program: u8 = self.read()?;
                Ok(Some(Event::ProgramChange { channel, program }))
            },
            0xD0 => {
                let pressure: u8 = self.read()?;
                Ok(Some(Event::ChannelPressure { channel, pressure }))
            },
            0xE0 => {
                let var1: u8 = self.read()?;
                let var2: u8 = self.read_fast()?;
                let raw: u16 = ((var2 as u16) << 7) | (var1 as u16);
                proof {
                    assert((((var2 as u16) << 7) | (var1 as u16)) <= 0x7FFF) by (bit_vector);
                }
                Ok(Some(Event::PitchWheelChange { channel, pitch: (raw as i16) - 8192 }))
            },
            _ => match command {
                0xF0 => {
                    let data: Vec<u8> = self.read_data()?;
                    Ok(Some(Event::SystemExclusiveMessage { data }))
                },
                0xF2 => {
                    let var1: u8 = self.read()?;
                    let var2: u8 = self.read_fast()?;
                    Ok(Some(Event::SongPositionPointer { position: ((var2 as u16) << 7) | (var1 as u16) }))
                },
                0xF3 => {
                    let song: u8 = self.read()?;
                    Ok(Some(Event::SongSelect { song }))
                },
                0xF6 => Ok(Some(Event::TuneRequest)),
                0xF7 => Ok(Some(Event::EndOfExclusive)),
                0xFF => self.read_meta(),
                _ => Ok(Some(Event::Undefined { event: command })),
            },
        }
    }

    /// Decodes the event at the front of the input: its delta time, its
    /// status, and what follows. Gives nothing for an end-of-track marker.
    /// An error does not end the decoding by itself: [`TrackParser::next`]
    /// does that.
    pub fn try_parse_next_event(&mut self) -> (r: Result<Option<Delta<u64, Event>>, MIDIParseError>)
        ensures
            final(self)@ =~= old(self)@.advanced(),
            match old(self)@.parsed() {
                Ok(Some(item)) => r matches Ok(Some(found)) && found@ == item,
                Ok(None) => r matches Ok(None),
                Err(e) => r matches Err(err) && err == e,
            },
    {
        broadcast use {lemma_taken_taken, lemma_fetched};

        let ghost start = self@;
        let ghost inp = self@.input();
        proof {
            lemma_var_length_size(inp);
            lemma_event_len(inp, start.running_status);
        }
        let delta: u64 = self.read_var_length()?;
        let ghost k: int = var_length(inp).unwrap().1 as int;
        let mut command: u8 = self.read()?;
        if command < 0x80 {
            self.pushback = Some(command);
            command = self.prev_command;
        }
        self.prev_command = command;
        let ghost mid = self@;
        proof {
            assert(mid.input() =~= inp.skip(if inp[k] >= 0x80 {
                k + 1
            } else {
                k
            }));
            lemma_body_len(command, mid.input());
        }
        let body = self.read_body(command);
        proof {
            assert(self@ == mid.taken(decode_body(command, mid.input()).len));
            assert(self@.unread =~= start.advanced().unread);
        }
        match body {
            Ok(Some(event)) => Ok(Some(Delta { delta, event })),
            Ok(None) => Ok(None),
            Err(e) => Err(e),
        }
    }

    /// The next event of the track with its delta time, or the error that
    /// ends the decoding. `None` once an error has been handed out, or where
    /// the reader holds no more bytes.
    pub fn next(&mut self) -> (item: Option<Result<Delta<u64, Event>, MIDIParseError>>)
        ensures
            final(self)@ =~= old(self)@.after_next(),
            match old(self)@.next_item() {
                Some(Ok(expected)) => item matches Some(Ok(found)) && found@ == expected,
                Some(Err(e)) => item matches Some(Err(err)) && err == e,
                None => item is None,
            },
    {
        loop
            invariant
                self@.step() == old(self)@.step(),
            decreases self@.unread.len(),
        {
            if self.errored || self.reader.is_at_end() {
                return None;
            }
            let ghost before = self@;
            match self.try_parse_next_event() {
                Ok(Some(event)) => {
                    return Some(Ok(event));
                },
                Ok(None) => {
                    proof {
                        lemma_event_len(before.input(), before.running_status);
                    }
                },
                Err(e) => {
                    self.errored = true;
                    return Some(Err(e));
                },
            }
        }
    }
}

} // verus!
