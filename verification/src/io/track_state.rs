//! The state of a track decoder as plain values, and what decoding does to
//! it.
use crate::events::EventView;
use crate::io::errors::MIDIParseError;
use crate::io::track_format::{decode_event, lemma_event_len, Decoded, Outcome};
use crate::sequence::event::Delta;
use vstd::prelude::*;

verus! {

/// What a decoder hands out: a timed event, or the error that ends the
/// track.
pub type Item = Result<Delta<u64, EventView>, MIDIParseError>;

/// A decoder between two events.
#[verifier::ext_equal]
pub struct ParserState {
    /// A byte that was taken from the reader and is still to be used.
    pub pushback: Option<u8>,
    /// The status of the last event.
    pub running_status: u8,
    /// Whether an error has ended the decoding.
    pub terminated: bool,
    /// The bytes that the reader still holds.
    pub unread: Seq<u8>,
    /// The absolute offset of the first of `unread`.
    pub position: int,
    /// The index of the track.
    pub track_number: u32,
}

/// What a checkpoint records of a decoder.
pub struct CheckpointView {
    pub pushback: Option<u8>,
    pub running_status: u8,
    pub reader_pos: int,
    pub ended: bool,
}

impl ParserState {
    /// The bytes still to be decoded: the byte pushed back, if there is one,
    /// and the bytes that the reader holds.
    pub open spec fn input(self) -> Seq<u8> {
        match self.pushback {
            Some(byte) => seq![byte] + self.unread,
            None => self.unread,
        }
    }

    /// The absolute offset of the first byte of `input`.
    pub open spec fn origin(self) -> int {
        match self.pushback {
            Some(_) => self.position - 1,
            None => self.position,
        }
    }

    /// The state after `n` bytes of `input` have been used.
    pub open spec fn taken(self, n: nat) -> ParserState {
        if n == 0 {
            self
        } else {
            ParserState {
                pushback: None,
                running_status: self.running_status,
                terminated: self.terminated,
                unread: self.input().skip(n as int),
                position: self.origin() + n,
                track_number: self.track_number,
            }
        }
    }

    /// The state after the reader has handed out one byte, whatever is
    /// pushed back.
    pub open spec fn fetched(self) -> ParserState {
        ParserState {
            pushback: self.pushback,
            running_status: self.running_status,
            terminated: self.terminated,
            unread: self.unread.skip(1),
            position: self.position + 1,
            track_number: self.track_number,
        }
    }

    /// The event at the front of the input.
    pub open spec fn decoded(self) -> Decoded {
        decode_event(self.input(), self.running_status)
    }

    /// The state behind the event at the front of the input. Where the event
    /// had no status byte and no data byte, the byte behind it has been
    /// taken from the reader and is pushed back.
    pub open spec fn advanced(self) -> ParserState {
        let d = self.decoded();
        let rest = self.input().skip(d.len as int);
        if d.lookahead {
            ParserState {
                pushback: Some(rest[0]),
                running_status: d.status,
                terminated: self.terminated,
                unread: rest.skip(1),
                position: self.origin() + d.len + 1,
                track_number: self.track_number,
            }
        } else {
            ParserState {
                pushback: None,
                running_status: d.status,
                terminated: self.terminated,
                unread: rest,
                position: self.origin() + d.len,
                track_number: self.track_number,
            }
        }
    }

    /// What decoding the event at the front of the input gives: an event,
    /// nothing for an end-of-track marker, or an error with the offset at
    /// which the reader then stands.
    pub open spec fn parsed(self) -> Result<Option<Delta<u64, EventView>>, MIDIParseError> {
        let d = self.decoded();
        match d.outcome {
            Outcome::Event(event) => Ok(Some(Delta { delta: d.delta, event })),
            Outcome::Skipped => Ok(None),
            Outcome::Truncated => Err(
                MIDIParseError::UnexpectedTrackEnd {
                    track_number: self.track_number,
                    position: self.advanced().position as u64,
                },
            ),
            Outcome::Corrupt => Err(
                MIDIParseError::CorruptEvent {
                    track_number: self.track_number,
                    position: self.advanced().position as u64,
                },
            ),
        }
    }

    /// This state, marked as ended.
    pub open spec fn ended(self) -> ParserState {
        ParserState {
            pushback: self.pushback,
            running_status: self.running_status,
            terminated: true,
            unread: self.unread,
            position: self.position,
            track_number: self.track_number,
        }
    }

    /// One step of the iteration: the item handed out, if any, and the state
    /// after it. Nothing is handed out once an error has ended the decoding
    /// or the reader holds no byte. End-of-track markers are stepped over.
    pub open spec fn step(self) -> (Option<Item>, ParserState)
        decreases self.unread.len(),
    {
        if self.terminated || self.unread.len() == 0 {
            (None, self)
        } else {
            match self.parsed() {
                Ok(Some(item)) => (Some(Ok(item)), self.advanced()),
                Ok(None) => {
                    proof {
                        lemma_event_len(self.input(), self.running_status);
                    }
                    self.advanced().step()
                },
                Err(e) => (Some(Err(e)), self.advanced().ended()),
            }
        }
    }

    /// The item that the next step hands out.
    pub open spec fn next_item(self) -> Option<Item> {
        self.step().0
    }

    /// The state after the next step.
    pub open spec fn after_next(self) -> ParserState {
        self.step().1
    }

    /// A bound on the steps that are left: none once the decoding has
    /// ended, else one more than the reader holds bytes.
    pub open spec fn effort(self) -> nat {
        if self.terminated {
            0
        } else {
            self.unread.len() + 1
        }
    }

    /// Everything that the decoder still hands out, in order.
    pub open spec fn items(self) -> Seq<Item>
        decreases self.effort(),
    {
        match self.next_item() {
            Some(item) => {
                proof {
                    lemma_step_effort(self);
                }
                seq![item] + self.after_next().items()
            },
            None => Seq::empty(),
        }
    }

    /// What a checkpoint taken in this state records.
    pub open spec fn snapshot(self) -> CheckpointView {
        CheckpointView {
            pushback: self.pushback,
            running_status: self.running_status,
            reader_pos: self.position,
            ended: self.terminated,
        }
    }
}

/// A step that hands out an item leaves less to do.
pub proof fn lemma_step_effort(s: ParserState)
    ensures
        s.next_item() is Some ==> s.after_next().effort() < s.effort(),
    decreases s.unread.len(),
{
    if !s.terminated && s.unread.len() > 0 {
        lemma_event_len(s.input(), s.running_status);
        if s.parsed() == Ok::<Option<Delta<u64, EventView>>, MIDIParseError>(None) {
            lemma_step_effort(s.advanced());
        }
    }
}

/// Using `a` bytes of the input and then `b` more is using `a + b` bytes.
pub broadcast proof fn lemma_taken_taken(s: ParserState, a: nat, b: nat)
    requires
        a + b <= s.input().len(),
    ensures
        #[trigger] s.taken(a).taken(b) == s.taken(a + b),
{
    if a > 0 && b > 0 {
        assert(s.taken(a).taken(b).unread =~= s.taken(a + b).unread);
    }
}

/// With nothing pushed back, a byte from the reader is a byte of the input.
pub broadcast proof fn lemma_fetched(s: ParserState)
    requires
        s.pushback is None,
    ensures
        #[trigger] s.fetched() == s.taken(1),
{
}

impl CheckpointView {
    /// The decoder that the checkpoint gives over a reader that holds
    /// `unread` at the recorded offset, for track `track_number`.
    pub open spec fn restored(self, unread: Seq<u8>, track_number: u32) -> ParserState {
        ParserState {
            pushback: self.pushback,
            running_status: self.running_status,
            terminated: self.ended,
            unread,
            position: self.reader_pos,
            track_number,
        }
    }
}

} // verus!
