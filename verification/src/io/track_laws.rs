//! What holds of every decoder, whatever bytes it reads.
use crate::events::EventView;
use crate::io::errors::MIDIParseError;
use crate::io::track_format::{
    decode_body, decode_event, decode_meta, lemma_event_len, Body, Decoded, Outcome,
};
use crate::io::track_state::ParserState;
use crate::io::var_length::{
    encoding, lemma_var_length_of_encoding, lemma_var_length_prefix, lemma_var_length_size, var_length, wrap,
};
use crate::sequence::event::Delta;
use vstd::prelude::*;

verus! {

/// Whether `event` is a Note On of velocity 0.
pub open spec fn is_silent_note_on(event: EventView) -> bool {
    event matches EventView::NoteOn { velocity, .. } && velocity == 0
}

/// The size that a meta event of type `meta_type` must declare, where the
/// type has a fixed size.
pub open spec fn fixed_meta_size(meta_type: u8) -> Option<nat> {
    if meta_type == 0x00 {
        Some(2)
    } else if meta_type == 0x20 {
        Some(1)
    } else if meta_type == 0x21 {
        Some(1)
    } else if meta_type == 0x2F {
        Some(0)
    } else if meta_type == 0x51 {
        Some(3)
    } else if meta_type == 0x54 {
        Some(5)
    } else if meta_type == 0x58 {
        Some(4)
    } else if meta_type == 0x59 {
        Some(2)
    } else {
        None
    }
}

/// A decoder restored from a checkpoint, over a reader that holds the same
/// bytes at the same offset for the same track, is in the state in which
/// the checkpoint was taken, and so hands out what the first decoder would
/// have handed out from there.
pub proof fn lemma_restored_resumes(s: ParserState, unread: Seq<u8>, track_number: u32)
    requires
        unread == s.unread,
        track_number == s.track_number,
    ensures
        s.snapshot().restored(unread, track_number) == s,
        s.snapshot().restored(unread, track_number).items() == s.items(),
{
}

/// Where no status byte follows the delta time, the event is decoded under
/// the status of the event before it, from the byte that stands in the
/// status byte's place.
pub proof fn lemma_running_status(input: Seq<u8>, running_status: u8)
    requires
        var_length(input) matches Some((_, k)) && k < input.len() && input[k as int] < 0x80,
    ensures
        ({
            let k = var_length(input).unwrap().1;
            let body = decode_body(running_status, input.skip(k as int));
            let d = decode_event(input, running_status);
            &&& d.status == running_status
            &&& d.outcome == body.outcome
            &&& d.len == k + body.len
        }),
{
}

/// A status byte is the status of the events behind it that have none:
/// decoding an event leaves the status as it was or sets it to a status
/// byte, and a byte that is pushed back is no status byte.
pub proof fn lemma_status_is_kept(s: ParserState)
    ensures
        s.advanced().running_status == s.decoded().status,
        var_length(s.input()) matches Some((_, n)) ==> (n < s.input().len() && s.input()[n as int] >= 0x80
            ==> s.decoded().status == s.input()[n as int]),
        s.advanced().running_status == s.running_status || s.advanced().running_status >= 0x80,
        s.advanced().pushback matches Some(byte) ==> byte < 0x80,
{
    lemma_var_length_size(s.input());
}

/// No event is a Note On of velocity 0: the bytes of one spell a Note Off.
pub proof fn lemma_body_is_no_silent_note_on(status: u8, b: Seq<u8>)
    ensures
        decode_body(status, b).outcome matches Outcome::Event(event) ==> !is_silent_note_on(event),
        status / 16 == 0x9 && b.len() >= 2 && b[1] == 0 ==> decode_body(status, b) == (Body {
            outcome: Outcome::Event(EventView::NoteOff { channel: status % 16, key: b[0] }),
            len: 2,
        }),
        status / 16 == 0x9 && b.len() >= 2 && b[1] != 0 ==> decode_body(status, b) == (Body {
            outcome: Outcome::Event(EventView::NoteOn { channel: status % 16, key: b[0], velocity: b[1] }),
            len: 2,
        }),
{
    reveal(decode_body);
    reveal(decode_meta);
}

/// The bytes of a delta time, a Note On status for channel `channel`, a key
/// and a velocity spell a Note On, or a Note Off where the velocity is 0.
pub proof fn lemma_note_on_bytes(
    delta: Seq<u8>,
    channel: u8,
    key: u8,
    velocity: u8,
    rest: Seq<u8>,
    running_status: u8,
)
    requires
        var_length(delta) matches Some((_, n)) && n == delta.len(),
        channel < 16,
    ensures
        decode_event(delta + seq![(0x90 + channel) as u8, key, velocity] + rest, running_status) == (Decoded {
            delta: var_length(delta).unwrap().0,
            outcome: Outcome::Event(
                if velocity == 0 {
                    EventView::NoteOff { channel, key }
                } else {
                    EventView::NoteOn { channel, key, velocity }
                },
            ),
            len: delta.len() + 3,
            status: (0x90 + channel) as u8,
            lookahead: false,
        }),
{
    let status: u8 = (0x90 + channel) as u8;
    let message = seq![status, key, velocity];
    let input = delta + message + rest;
    assert(input =~= delta + (message + rest));
    lemma_var_length_prefix(delta, message + rest);
    lemma_var_length_size(delta);
    let k: int = delta.len() as int;
    assert(input[k] == status);
    let b = input.skip(k + 1);
    assert(b[0] == key);
    assert(b[1] == velocity);
    lemma_body_is_no_silent_note_on(status, b);
}

/// A status byte that starts no message of its own spells an Undefined
/// event that carries the byte and takes no data.
pub proof fn lemma_unknown_status_is_undefined(status: u8, b: Seq<u8>)
    requires
        status < 0x80 || (status >= 0xF0 && status != 0xF0 && status != 0xF2 && status != 0xF3 && status != 0xF6
            && status != 0xF7 && status != 0xFF),
    ensures
        decode_body(status, b) == (Body { outcome: Outcome::Event(EventView::Undefined { event: status }), len: 0 }),
{
    reveal(decode_body);
}

/// A decoder that stands before the shortest encoding of `value` reads
/// `value` and stands behind the encoding, with nothing pushed back.
pub proof fn lemma_quantity_round_trip(s: ParserState, value: nat, rest: Seq<u8>)
    requires
        s.pushback is None,
        value < wrap(),
        s.unread == encoding(value) + rest,
    ensures
        var_length(s.input()) == Some((value as u64, encoding(value).len())),
        s.taken(encoding(value).len()) == (ParserState {
            pushback: None,
            running_status: s.running_status,
            terminated: s.terminated,
            unread: rest,
            position: s.position + encoding(value).len(),
            track_number: s.track_number,
        }),
{
    lemma_var_length_of_encoding(value, rest);
    assert(s.taken(encoding(value).len()).unread =~= rest);
}

/// An event without a status byte is decoded as if the status of the event
/// before it were written in front of its data: the same event comes out,
/// one byte shorter, and the status stays. Where the event has data, its
/// first data byte is the byte found in the status byte's place, and no
/// byte is looked at behind the event.
pub proof fn lemma_running_status_as_written(delta: Seq<u8>, status: u8, data: Seq<u8>, other: u8)
    requires
        var_length(delta) matches Some((_, n)) && n == delta.len(),
        status >= 0x80,
        data.len() > 0,
        data[0] < 0x80,
    ensures
        ({
            let short = decode_event(delta + data, status);
            let full = decode_event(delta + seq![status] + data, other);
            &&& short.delta == full.delta
            &&& short.outcome == full.outcome
            &&& short.status == status
            &&& full.status == status
            &&& full.len == short.len + 1
            &&& short.len == delta.len() + decode_body(status, data).len
            &&& short.lookahead == (decode_body(status, data).len == 0)
            &&& status <= 0xEF ==> !short.lookahead
            &&& !full.lookahead
        }),
{
    if status <= 0xEF {
        reveal(decode_body);
    }
    lemma_var_length_size(delta);
    let k: int = delta.len() as int;
    let short_input = delta + data;
    let full_input = delta + seq![status] + data;
    assert(full_input =~= delta + (seq![status] + data));
    lemma_var_length_prefix(delta, data);
    lemma_var_length_prefix(delta, seq![status] + data);
    assert(short_input[k] == data[0]);
    assert(full_input[k] == status);
    assert(short_input.skip(k) =~= data);
    assert(full_input.skip(k + 1) =~= data);
}

/// A decoder never hands out a Note On of velocity 0.
pub proof fn lemma_no_silent_note_on(s: ParserState)
    ensures
        s.next_item() matches Some(Ok(item)) ==> !is_silent_note_on(item.event),
    decreases s.unread.len(),
{
    if !s.terminated && s.unread.len() > 0 {
        lemma_event_len(s.input(), s.running_status);
        let input = s.input();
        match var_length(input) {
            Some((_, k)) => {
                if input.len() > k {
                    let first: u8 = input[k as int];
                    if first >= 0x80 {
                        lemma_body_is_no_silent_note_on(first, input.skip(k + 1 as int));
                    } else {
                        lemma_body_is_no_silent_note_on(s.running_status, input.skip(k as int));
                    }
                }
            },
            None => {},
        }
        if s.parsed() == Ok::<Option<Delta<u64, EventView>>, MIDIParseError>(None) {
            lemma_no_silent_note_on(s.advanced());
        }
    }
}

/// A meta event of a type of fixed size that declares another length is
/// corrupt, whatever its data bytes are.
pub proof fn lemma_wrong_length_is_corrupt(b: Seq<u8>)
    requires
        b.len() >= 2,
        fixed_meta_size(b[0]) matches Some(n) && b[1] != n,
    ensures
        decode_meta(b) == (Body { outcome: Outcome::Corrupt, len: 2 }),
        decode_body(0xFF, b) == (Body { outcome: Outcome::Corrupt, len: 2 }),
{
    reveal(decode_body);
    reveal(decode_meta);
}

/// The bytes of a delta time and an end-of-track marker spell an event that
/// yields nothing and leaves 0xFF as the status.
pub proof fn lemma_end_of_track_bytes(delta: Seq<u8>, rest: Seq<u8>, running_status: u8)
    requires
        var_length(delta) matches Some((_, n)) && n == delta.len(),
    ensures
        decode_event(delta + seq![0xFFu8, 0x2Fu8, 0x00u8] + rest, running_status) == (Decoded {
            delta: var_length(delta).unwrap().0,
            outcome: Outcome::Skipped,
            len: delta.len() + 3,
            status: 0xFF,
            lookahead: false,
        }),
{
    reveal(decode_body);
    reveal(decode_meta);
    let marker = seq![0xFFu8, 0x2Fu8, 0x00u8];
    let input = delta + marker + rest;
    assert(input =~= delta + (marker + rest));
    lemma_var_length_prefix(delta, marker + rest);
    lemma_var_length_size(delta);
    let k: int = delta.len() as int;
    assert(input[k] == 0xFF);
    let b = input.skip(k + 1);
    assert(b[0] == 0x2F);
    assert(b[1] == 0x00);
}

/// An end-of-track marker yields no item: a decoder that stands before one
/// goes on as a decoder behind it does. Where no byte follows the marker,
/// the iteration ends without an item.
pub proof fn lemma_end_of_track_is_stepped_over(s: ParserState, delta: Seq<u8>, rest: Seq<u8>)
    requires
        !s.terminated,
        s.pushback is None,
        var_length(delta) matches Some((_, n)) && n == delta.len(),
        s.unread == delta + seq![0xFFu8, 0x2Fu8, 0x00u8] + rest,
    ensures
        s.step() == (ParserState {
            pushback: None,
            running_status: 0xFF,
            terminated: false,
            unread: rest,
            position: s.position + delta.len() + 3,
            track_number: s.track_number,
        }).step(),
        rest.len() == 0 ==> s.next_item() is None,
{
    lemma_end_of_track_bytes(delta, rest, s.running_status);
    let behind = ParserState {
        pushback: None,
        running_status: 0xFF,
        terminated: false,
        unread: rest,
        position: s.position + delta.len() + 3,
        track_number: s.track_number,
    };
    assert(s.advanced().unread =~= rest);
    assert(s.advanced() == behind);
    assert(s.step() == behind.step());
    if rest.len() == 0 {
        assert(behind.step().0 is None);
    }
}

} // verus!
