//! The byte grammar of track events, as functions on byte sequences.
//!
//! An event is a delta time, an optional status byte, and data bytes whose
//! layout the status decides. Where the status byte is left out, the status
//! of the event before it applies.
use crate::events::{EventView, TextEventKind};
use crate::io::var_length::{lemma_var_length_size, var_length};
use vstd::prelude::*;

verus! {

/// How the decoding of one event ends.
pub enum Outcome {
    /// The bytes spell this event.
    Event(EventView),
    /// The bytes spell an end-of-track marker, which yields nothing.
    Skipped,
    /// The bytes end inside the event.
    Truncated,
    /// A meta event of fixed size declares another length.
    Corrupt,
}

/// What follows a status byte: how its decoding ends, and how many bytes it
/// takes. A truncated body takes every byte there is; a corrupt one ends
/// behind the length byte.
pub struct Body {
    pub outcome: Outcome,
    pub len: nat,
}

/// One event at the front of an input.
pub struct Decoded {
    /// The ticks since the event before.
    pub delta: u64,
    pub outcome: Outcome,
    /// The number of bytes of the input that the event takes.
    pub len: nat,
    /// The status under which the event was decoded.
    pub status: u8,
    /// Whether the byte behind the event stood where a status byte was looked
    /// for and none was found.
    pub lookahead: bool,
}

/// The 14-bit number of two data bytes, least significant byte first.
pub open spec fn fourteen_bits(lsb: u8, msb: u8) -> u16 {
    ((msb as u16) << 7) | (lsb as u16)
}

/// The pitch wheel position of two data bytes, centred at 0.
pub open spec fn pitch_wheel(lsb: u8, msb: u8) -> i16 {
    (fourteen_bits(lsb, msb) - 8192) as i16
}

/// The 24-bit number of three bytes, most significant byte first.
pub open spec fn tempo_value(b0: u8, b1: u8, b2: u8) -> u32 {
    (b0 * 65536 + b1 * 256 + b2) as u32
}

/// The byte read as a two's complement number.
pub open spec fn signed(byte: u8) -> i8 {
    if byte < 128 {
        byte as i8
    } else {
        (byte - 256) as i8
    }
}

/// A body that ends with the input.
pub open spec fn truncated(b: Seq<u8>) -> Body {
    Body { outcome: Outcome::Truncated, len: b.len() }
}

/// A body of `n` data bytes that spell `event`.
pub open spec fn fixed(b: Seq<u8>, n: nat, event: EventView) -> Body {
    if b.len() < n {
        truncated(b)
    } else {
        Body { outcome: Outcome::Event(event), len: n }
    }
}

/// A length as a variable-length quantity and that many bytes behind it: the
/// bytes, and how many bytes both take.
pub open spec fn payload(b: Seq<u8>) -> Option<(Seq<u8>, nat)> {
    match var_length(b) {
        Some((size, k)) => if b.len() - k >= size {
            Some((b.subrange(k as int, k + size), (k + size) as nat))
        } else {
            None
        },
        None => None,
    }
}

/// A meta event of fixed size: the type byte, a length byte that must be `n`,
/// and `n` data bytes.
pub open spec fn fixed_meta(b: Seq<u8>, n: nat, outcome: Outcome) -> Body {
    if b.len() < 2 {
        truncated(b)
    } else if b[1] != n {
        Body { outcome: Outcome::Corrupt, len: 2 }
    } else if b.len() < 2 + n {
        truncated(b)
    } else {
        Body { outcome, len: 2 + n }
    }
}

/// What follows the status byte 0xFF: a meta event, starting at its type
/// byte.
#[verifier::opaque]
pub open spec fn decode_meta(b: Seq<u8>) -> Body {
    if b.len() == 0 {
        truncated(b)
    } else {
        let meta_type: u8 = b[0];
        if meta_type == 0x00 {
            fixed_meta(b, 2, Outcome::Event(EventView::TrackStart))
        } else if 0x01 <= meta_type <= 0x0A || meta_type == 0xF7 {
            match payload(b.skip(1)) {
                Some((bytes, n)) => Body {
                    outcome: Outcome::Event(EventView::Text { kind: TextEventKind::of_val(meta_type), bytes }),
                    len: 1 + n,
                },
                None => truncated(b),
            }
        } else if meta_type == 0x20 {
            fixed_meta(b, 1, Outcome::Event(EventView::ChannelPrefix { channel_prefix: b[2] }))
        } else if meta_type == 0x21 {
            fixed_meta(b, 1, Outcome::Event(EventView::MIDIPort { port: b[2] }))
        } else if meta_type == 0x2F {
            fixed_meta(b, 0, Outcome::Skipped)
        } else if meta_type == 0x51 {
            fixed_meta(b, 3, Outcome::Event(EventView::Tempo { tempo: tempo_value(b[2], b[3], b[4]) }))
        } else if meta_type == 0x54 {
            fixed_meta(
                b,
                5,
                Outcome::Event(
                    EventView::SMPTEOffset {
                        hours: b[2],
                        minutes: b[3],
                        seconds: b[4],
                        frames: b[5],
                        fractional_frames: b[6],
                    },
                ),
            )
        } else if meta_type == 0x58 {
            fixed_meta(
                b,
                4,
                Outcome::Event(
                    EventView::TimeSignature {
                        numerator: b[2],
                        denominator: b[3],
                        ticks_per_click: b[4],
                        bb: b[5],
                    },
                ),
            )
        } else if meta_type == 0x59 {
            fixed_meta(b, 2, Outcome::Event(EventView::KeySignature { sf: signed(b[2]), mi: b[3] }))
        } else {
            match payload(b.skip(1)) {
                Some((bytes, n)) => Body {
                    outcome: Outcome::Event(EventView::UnknownMeta { meta_type, bytes }),
                    len: 1 + n,
                },
                None => truncated(b),
            }
        }
    }
}

/// What follows a status byte, or stands in its place where the status of
/// the event before applies.
#[verifier::opaque]
pub open spec fn decode_body(status: u8, b: Seq<u8>) -> Body {
    let channel: u8 = status % 16;
    let kind: u8 = status / 16;
    if kind == 0x8 {
        fixed(b, 2, EventView::NoteOff { channel, key: b[0] })
    } else if kind == 0x9 {
        fixed(
            b,
            2,
            if b[1] == 0 {
                EventView::NoteOff { channel, key: b[0] }
            } else {
                EventView::NoteOn { channel, key: b[0], velocity: b[1] }
            },
        )
    } else if kind == 0xA {
        fixed(b, 2, EventView::PolyphonicKeyPressure { channel, key: b[0], velocity: b[1] })
    } else if kind == 0xB {
        fixed(b, 2, EventView::ControlChange { channel, controller: b[0], value: b[1] })
    } else if kind == 0xC {
        fixed(b, 1, EventView::ProgramChange { channel, program: b[0] })
    } else if kind == 0xD {
        fixed(b, 1, EventView::ChannelPressure { channel, pressure: b[0] })
    } else if kind == 0xE {
        fixed(b, 2, EventView::PitchWheelChange { channel, pitch: pitch_wheel(b[0], b[1]) })
    } else if status == 0xF0 {
        match payload(b) {
            Some((data, n)) => Body { outcome: Outcome::Event(EventView::SystemExclusiveMessage { data }), len: n },
            None => truncated(b),
        }
    } else if status == 0xF2 {
        fixed(b, 2, EventView::SongPositionPointer { position: fourteen_bits(b[0], b[1]) })
    } else if status == 0xF3 {
        fixed(b, 1, EventView::SongSelect { song: b[0] })
    } else if status == 0xF6 {
        fixed(b, 0, EventView::TuneRequest)
    } else if status == 0xF7 {
        fixed(b, 0, EventView::EndOfExclusive)
    } else if status == 0xFF {
        decode_meta(b)
    } else {
        fixed(b, 0, EventView::Undefined { event: status })
    }
}

/// The event at the front of `input`, where `running_status` is the status
/// of the event before it.
pub open spec fn decode_event(input: Seq<u8>, running_status: u8) -> Decoded {
    match var_length(input) {
        None => Decoded {
            delta: 0,
            outcome: Outcome::Truncated,
            len: input.len(),
            status: running_status,
            lookahead: false,
        },
        Some((delta, k)) => if input.len() <= k {
            Decoded { delta, outcome: Outcome::Truncated, len: input.len(), status: running_status, lookahead: false }
        } else {
            let first: u8 = input[k as int];
            let status: u8 = if first >= 0x80 {
                first
            } else {
                running_status
            };
            let start: nat = if first >= 0x80 {
                k + 1
            } else {
                k
            };
            let body = decode_body(status, input.skip(start as int));
            Decoded {
                delta,
                outcome: body.outcome,
                len: start + body.len,
                status,
                lookahead: first < 0x80 && body.len == 0,
            }
        },
    }
}

/// A body takes no more bytes than there are: all of them where it is
/// truncated, two where a meta event is corrupt or marks the end of the
/// track.
pub proof fn lemma_body_len(status: u8, b: Seq<u8>)
    ensures
        decode_body(status, b).len <= b.len(),
        decode_body(status, b).outcome is Truncated ==> decode_body(status, b).len == b.len(),
        decode_body(status, b).outcome is Corrupt ==> decode_body(status, b).len == 2,
        decode_body(status, b).outcome is Skipped ==> decode_body(status, b).len == 2,
{
    reveal(decode_body);
    reveal(decode_meta);
    lemma_var_length_size(b);
    if b.len() > 0 {
        lemma_var_length_size(b.skip(1));
    }
}

/// An event takes at least one byte and no more than there are: all of them
/// where it is truncated. No byte is looked at behind an event that does not
/// yield one.
pub proof fn lemma_event_len(input: Seq<u8>, running_status: u8)
    ensures
        decode_event(input, running_status).len <= input.len(),
        input.len() > 0 ==> 1 <= decode_event(input, running_status).len,
        decode_event(input, running_status).outcome is Truncated ==> decode_event(input, running_status).len
            == input.len(),
        decode_event(input, running_status).outcome is Skipped ==> 3 <= decode_event(input, running_status).len,
        decode_event(input, running_status).lookahead ==> {
            &&& decode_event(input, running_status).outcome is Event
            &&& decode_event(input, running_status).len < input.len()
        },
        !(decode_event(input, running_status).outcome is Truncated) ==> 2 <= decode_event(
            input,
            running_status,
        ).len + (if decode_event(input, running_status).lookahead {
            1nat
        } else {
            0nat
        }),
{
    lemma_var_length_size(input);
    match var_length(input) {
        Some((_, k)) => {
            if input.len() > k {
                let first: u8 = input[k as int];
                let status: u8 = if first >= 0x80 {
                    first
                } else {
                    running_status
                };
                let start: nat = if first >= 0x80 {
                    k + 1
                } else {
                    k
                };
                lemma_body_len(status, input.skip(start as int));
                if first < 0x80 && decode_body(status, input.skip(start as int)).len == 0 {
                    reveal(decode_body);
                    reveal(decode_meta);
                }
            }
        },
        None => {},
    }
}

} // verus!
