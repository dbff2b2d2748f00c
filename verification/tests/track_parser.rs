use midi_toolkit::events::{Event, TextEventKind};
use midi_toolkit::io::errors::MIDIParseError;
use midi_toolkit::io::readers::{FullRamTrackReader, TrackReader};
use midi_toolkit::io::track_parser::TrackParser;
use midi_toolkit::sequence::event::Delta;

type Item = Result<Delta<u64, Event>, MIDIParseError>;

fn parser(bytes: &[u8]) -> TrackParser<FullRamTrackReader> {
    TrackParser::new(FullRamTrackReader::new(0, 0, bytes.to_vec()))
}

fn decode_all(bytes: &[u8]) -> Vec<Item> {
    let mut p = parser(bytes);
    let mut out = Vec::new();
    while let Some(item) = p.next() {
        out.push(item);
    }
    assert_eq!(p.next(), None);
    out
}

fn event(delta: u64, event: Event) -> Item {
    Ok(Delta { delta, event })
}

fn encode_var_length(value: u64) -> Vec<u8> {
    let mut digits = vec![(value & 0x7F) as u8];
    let mut rest = value >> 7;
    while rest > 0 {
        digits.push((rest & 0x7F) as u8 | 0x80);
        rest >>= 7;
    }
    digits.reverse();
    digits
}

fn delta_of(encoded: &[u8]) -> u64 {
    let mut bytes = encoded.to_vec();
    bytes.push(0xF6);
    let items = decode_all(&bytes);
    assert_eq!(items.len(), 1);
    match &items[0] {
        Ok(d) => {
            assert_eq!(d.event, Event::TuneRequest);
            d.delta
        }
        Err(e) => panic!("unexpected error {:?}", e),
    }
}

#[test]
fn var_length_single_zero_byte_is_zero() {
    assert_eq!(delta_of(&[0x00]), 0);
}

#[test]
fn var_length_two_bytes() {
    assert_eq!(delta_of(&[0x81, 0x00]), 128);
    assert_eq!(delta_of(&[0xFF, 0x7F]), 16383);
}

#[test]
fn var_length_round_trip_one_to_four_bytes() {
    let values: [u64; 12] =
        [0, 1, 0x40, 0x7F, 0x80, 0x2000, 0x3FFF, 0x4000, 0x10_0000, 0x1F_FFFF, 0x20_0000, 0x0FFF_FFFF];
    let lengths: [usize; 12] = [1, 1, 1, 1, 2, 2, 2, 3, 3, 3, 4, 4];
    for (value, len) in values.iter().zip(lengths.iter()) {
        let encoded = encode_var_length(*value);
        assert_eq!(encoded.len(), *len);
        assert_eq!(delta_of(&encoded), *value);
    }
}

#[test]
fn var_length_round_trip_largest_value() {
    let encoded = encode_var_length(u64::MAX);
    assert_eq!(encoded.len(), 10);
    assert_eq!(delta_of(&encoded), u64::MAX);
}

#[test]
fn var_length_keeps_the_low_64_bits() {
    // eleven digits: the first one is shifted out of the accumulator
    let encoded = [0xFF, 0x80, 0x80, 0x80, 0x80, 0x80, 0x80, 0x80, 0x80, 0x80, 0x05];
    assert_eq!(delta_of(&encoded), 5);
    let encoded = [0x82, 0x80, 0x80, 0x80, 0x80, 0x80, 0x80, 0x80, 0x80, 0x00];
    assert_eq!(delta_of(&encoded), 0);
    let encoded = [0x81, 0x80, 0x80, 0x80, 0x80, 0x80, 0x80, 0x80, 0x80, 0x00];
    assert_eq!(delta_of(&encoded), 1u64 << 63);
}

#[test]
fn var_length_with_leading_zero_digits() {
    assert_eq!(delta_of(&[0x80, 0x80, 0x01]), 1);
}

#[test]
fn var_length_cut_short_is_an_error() {
    let mut p = parser(&[0x81, 0x80]);
    assert_eq!(p.next(), Some(Err(MIDIParseError::UnexpectedTrackEnd { track_number: 0, position: 2 })));
    assert_eq!(p.next(), None);
}

#[test]
fn running_status_uses_the_status_before() {
    let items = decode_all(&[0x00, 0x90, 0x3C, 0x40, 0x00, 0x3E, 0x40]);
    assert_eq!(
        items,
        vec![
            event(0, Event::NoteOn { channel: 0, key: 0x3C, velocity: 0x40 }),
            event(0, Event::NoteOn { channel: 0, key: 0x3E, velocity: 0x40 }),
        ]
    );
}

#[test]
fn running_status_lasts_over_several_events() {
    let items = decode_all(&[0x00, 0xB3, 0x07, 0x64, 0x10, 0x0A, 0x40, 0x81, 0x00, 0x0B, 0x7F]);
    assert_eq!(
        items,
        vec![
            event(0, Event::ControlChange { channel: 3, controller: 0x07, value: 0x64 }),
            event(16, Event::ControlChange { channel: 3, controller: 0x0A, value: 0x40 }),
            event(128, Event::ControlChange { channel: 3, controller: 0x0B, value: 0x7F }),
        ]
    );
}

#[test]
fn running_status_after_a_meta_event_reads_a_meta_event() {
    // the byte 0x21 stands where a status is looked for, and is the meta type
    let items = decode_all(&[0x00, 0xFF, 0x20, 0x01, 0x05, 0x00, 0x21, 0x01, 0x02]);
    assert_eq!(
        items,
        vec![event(0, Event::ChannelPrefix { channel_prefix: 5 }), event(0, Event::MIDIPort { port: 2 })]
    );
}

#[test]
fn data_byte_behind_an_event_without_data_is_the_next_delta() {
    // the second Tune Request has no status byte; 0x10, found in its place,
    // is kept and read as the delta time of the third event
    let items = decode_all(&[0x00, 0xF6, 0x00, 0x10, 0x90, 0x3C, 0x40]);
    assert_eq!(
        items,
        vec![
            event(0, Event::TuneRequest),
            event(0, Event::TuneRequest),
            event(0x10, Event::NoteOn { channel: 0, key: 0x3C, velocity: 0x40 }),
        ]
    );
}

#[test]
fn no_status_at_the_start_is_undefined_zero() {
    let items = decode_all(&[0x00, 0x3C]);
    assert_eq!(items, vec![event(0, Event::Undefined { event: 0 })]);
}

#[test]
fn note_on_with_velocity_zero_is_note_off() {
    let items = decode_all(&[0x00, 0x90, 0x3C, 0x00]);
    assert_eq!(items, vec![event(0, Event::NoteOff { channel: 0, key: 0x3C })]);
}

#[test]
fn note_on_with_velocity_zero_under_running_status_is_note_off() {
    let items = decode_all(&[0x00, 0x95, 0x3C, 0x40, 0x20, 0x3C, 0x00]);
    assert_eq!(
        items,
        vec![
            event(0, Event::NoteOn { channel: 5, key: 0x3C, velocity: 0x40 }),
            event(0x20, Event::NoteOff { channel: 5, key: 0x3C }),
        ]
    );
}

#[test]
fn note_off_drops_its_velocity() {
    let items = decode_all(&[0x05, 0x8F, 0x40, 0x7F]);
    assert_eq!(items, vec![event(5, Event::NoteOff { channel: 15, key: 0x40 })]);
}

#[test]
fn channel_voice_events() {
    let items = decode_all(&[
        0x00, 0xA1, 0x3C, 0x22, 0x01, 0xB2, 0x07, 0x7F, 0x02, 0xC3, 0x19, 0x03, 0xD4, 0x55, 0x04, 0xE5, 0x00,
        0x40,
    ]);
    assert_eq!(
        items,
        vec![
            event(0, Event::PolyphonicKeyPressure { channel: 1, key: 0x3C, velocity: 0x22 }),
            event(1, Event::ControlChange { channel: 2, controller: 7, value: 0x7F }),
            event(2, Event::ProgramChange { channel: 3, program: 0x19 }),
            event(3, Event::ChannelPressure { channel: 4, pressure: 0x55 }),
            event(4, Event::PitchWheelChange { channel: 5, pitch: 0 }),
        ]
    );
}

#[test]
fn pitch_wheel_range() {
    let items = decode_all(&[0x00, 0xE0, 0x00, 0x00, 0x00, 0xE0, 0x7F, 0x7F, 0x00, 0xE0, 0x01, 0x40]);
    assert_eq!(
        items,
        vec![
            event(0, Event::PitchWheelChange { channel: 0, pitch: -8192 }),
            event(0, Event::PitchWheelChange { channel: 0, pitch: 8191 }),
            event(0, Event::PitchWheelChange { channel: 0, pitch: 1 }),
        ]
    );
}

#[test]
fn system_exclusive_takes_its_payload() {
    let items = decode_all(&[0x00, 0xF0, 0x03, 0x7E, 0x7F, 0xF7, 0x00, 0xF0, 0x00]);
    assert_eq!(
        items,
        vec![
            event(0, Event::SystemExclusiveMessage { data: vec![0x7E, 0x7F, 0xF7] }),
            event(0, Event::SystemExclusiveMessage { data: vec![] }),
        ]
    );
}

#[test]
fn system_exclusive_with_a_two_byte_length() {
    let mut bytes = vec![0x00, 0xF0, 0x81, 0x00];
    let payload: Vec<u8> = (0..128u32).map(|i| (i % 251) as u8).collect();
    bytes.extend_from_slice(&payload);
    bytes.extend_from_slice(&[0x00, 0xF6]);
    let items = decode_all(&bytes);
    assert_eq!(
        items,
        vec![event(0, Event::SystemExclusiveMessage { data: payload }), event(0, Event::TuneRequest)]
    );
}

#[test]
fn system_exclusive_cut_short_is_an_error() {
    let mut p = parser(&[0x00, 0xF0, 0x05, 0x01, 0x02]);
    assert_eq!(p.next(), Some(Err(MIDIParseError::UnexpectedTrackEnd { track_number: 0, position: 5 })));
    assert_eq!(p.next(), None);
}

#[test]
fn system_common_events() {
    let items = decode_all(&[0x00, 0xF2, 0x01, 0x02, 0x00, 0xF3, 0x09, 0x00, 0xF6, 0x00, 0xF7, 0x00, 0xF8]);
    assert_eq!(
        items,
        vec![
            event(0, Event::SongPositionPointer { position: 0x0101 }),
            event(0, Event::SongSelect { song: 9 }),
            event(0, Event::TuneRequest),
            event(0, Event::EndOfExclusive),
            event(0, Event::Undefined { event: 0xF8 }),
        ]
    );
}

#[test]
fn status_f8_is_undefined() {
    assert_eq!(decode_all(&[0x00, 0xF8]), vec![event(0, Event::Undefined { event: 0xF8 })]);
}

#[test]
fn song_position_pointer_is_fourteen_bits() {
    let items = decode_all(&[0x00, 0xF2, 0x7F, 0x7F, 0x00, 0xF2, 0x00, 0x01]);
    assert_eq!(
        items,
        vec![
            event(0, Event::SongPositionPointer { position: 16383 }),
            event(0, Event::SongPositionPointer { position: 128 }),
        ]
    );
}

#[test]
fn unknown_statuses_are_undefined_events() {
    let items = decode_all(&[0x00, 0xF1, 0x00, 0xF4, 0x00, 0xF5, 0x00, 0xF9, 0x00, 0xFE]);
    for status in [0xF1u8, 0xF4, 0xF5, 0xF8, 0xF9, 0xFA, 0xFB, 0xFC, 0xFD, 0xFE] {
        assert_eq!(decode_all(&[0x03, status]), vec![event(3, Event::Undefined { event: status })]);
    }
    assert_eq!(
        items,
        vec![
            event(0, Event::Undefined { event: 0xF1 }),
            event(0, Event::Undefined { event: 0xF4 }),
            event(0, Event::Undefined { event: 0xF5 }),
            event(0, Event::Undefined { event: 0xF9 }),
            event(0, Event::Undefined { event: 0xFE }),
        ]
    );
}

#[test]
fn track_start_takes_and_drops_two_bytes() {
    let items = decode_all(&[0x00, 0xFF, 0x00, 0x02, 0x12, 0x34, 0x00, 0xF6]);
    assert_eq!(items, vec![event(0, Event::TrackStart), event(0, Event::TuneRequest)]);
}

#[test]
fn text_events_of_every_kind() {
    let kinds = [
        (0x01u8, TextEventKind::Text),
        (0x02, TextEventKind::Copyright),
        (0x03, TextEventKind::TrackName),
        (0x04, TextEventKind::InstrumentName),
        (0x05, TextEventKind::Lyric),
        (0x06, TextEventKind::Marker),
        (0x07, TextEventKind::CuePoint),
        (0x08, TextEventKind::Other(0x08)),
        (0x09, TextEventKind::Other(0x09)),
        (0x0A, TextEventKind::Other(0x0A)),
        (0xF7, TextEventKind::Other(0xF7)),
    ];
    for (meta_type, kind) in kinds.iter() {
        let items = decode_all(&[0x07, 0xFF, *meta_type, 0x02, b'h', b'i']);
        assert_eq!(items, vec![event(7, Event::Text { kind: *kind, bytes: vec![b'h', b'i'] })]);
    }
}

#[test]
fn text_event_kind_from_val() {
    assert_eq!(TextEventKind::from_val(1), TextEventKind::Text);
    assert_eq!(TextEventKind::from_val(3), TextEventKind::TrackName);
    assert_eq!(TextEventKind::from_val(7), TextEventKind::CuePoint);
    assert_eq!(TextEventKind::from_val(0), TextEventKind::Other(0));
    assert_eq!(TextEventKind::from_val(0xF7), TextEventKind::Other(0xF7));
}

#[test]
fn fixed_size_meta_events() {
    let items = decode_all(&[
        0x00, 0xFF, 0x20, 0x01, 0x0F, 0x00, 0xFF, 0x21, 0x01, 0x03, 0x00, 0xFF, 0x51, 0x03, 0x07, 0xA1, 0x20,
        0x00, 0xFF, 0x54, 0x05, 0x01, 0x02, 0x03, 0x04, 0x05, 0x00, 0xFF, 0x58, 0x04, 0x06, 0x03, 0x18, 0x08,
        0x00, 0xFF, 0x59, 0x02, 0xFD, 0x01,
    ]);
    assert_eq!(
        items,
        vec![
            event(0, Event::ChannelPrefix { channel_prefix: 15 }),
            event(0, Event::MIDIPort { port: 3 }),
            event(0, Event::Tempo { tempo: 500_000 }),
            event(0, Event::SMPTEOffset { hours: 1, minutes: 2, seconds: 3, frames: 4, fractional_frames: 5 }),
            event(0, Event::TimeSignature { numerator: 6, denominator: 3, ticks_per_click: 24, bb: 8 }),
            event(0, Event::KeySignature { sf: -3, mi: 1 }),
        ]
    );
}

#[test]
fn tempo_is_twenty_four_bits_big_endian() {
    let items = decode_all(&[0x00, 0xFF, 0x51, 0x03, 0xFF, 0xFF, 0xFF, 0x00, 0xFF, 0x51, 0x03, 0x00, 0x01, 0x02]);
    assert_eq!(
        items,
        vec![event(0, Event::Tempo { tempo: 0x00FF_FFFF }), event(0, Event::Tempo { tempo: 258 })]
    );
}

#[test]
fn key_signature_sharps_and_flats() {
    let items = decode_all(&[0x00, 0xFF, 0x59, 0x02, 0x07, 0x00, 0x00, 0xFF, 0x59, 0x02, 0xF9, 0x01, 0x00, 0xFF, 0x59, 0x02, 0x80, 0x00]);
    assert_eq!(
        items,
        vec![
            event(0, Event::KeySignature { sf: 7, mi: 0 }),
            event(0, Event::KeySignature { sf: -7, mi: 1 }),
            event(0, Event::KeySignature { sf: -128, mi: 0 }),
        ]
    );
}

#[test]
fn unknown_meta_keeps_type_and_payload() {
    let items = decode_all(&[0x00, 0xFF, 0x7F, 0x03, 0x01, 0x02, 0x03, 0x00, 0xFF, 0x0B, 0x00]);
    assert_eq!(
        items,
        vec![
            event(0, Event::UnknownMeta { meta_type: 0x7F, bytes: vec![1, 2, 3] }),
            event(0, Event::UnknownMeta { meta_type: 0x0B, bytes: vec![] }),
        ]
    );
}

#[test]
fn tempo_with_wrong_length_is_corrupt() {
    let mut p = TrackParser::new(FullRamTrackReader::new(7, 0, vec![0x00, 0xFF, 0x51, 0x02, 0x07, 0xA1]));
    assert_eq!(p.next(), Some(Err(MIDIParseError::CorruptEvent { track_number: 7, position: 4 })));
    assert_eq!(p.next(), None);
    assert_eq!(p.next(), None);
}

#[test]
fn every_fixed_size_meta_checks_its_length() {
    let sized: [(u8, u8); 8] =
        [(0x00, 2), (0x20, 1), (0x21, 1), (0x2F, 0), (0x51, 3), (0x54, 5), (0x58, 4), (0x59, 2)];
    for (meta_type, size) in sized.iter() {
        let mut bytes = vec![0x00, 0xFF, *meta_type, size + 1];
        bytes.extend_from_slice(&[0u8; 8]);
        let mut p = TrackParser::new(FullRamTrackReader::new(2, 0, bytes));
        assert_eq!(p.next(), Some(Err(MIDIParseError::CorruptEvent { track_number: 2, position: 4 })));
        assert_eq!(p.next(), None);
    }
}

#[test]
fn corrupt_event_after_good_events_reports_its_offset() {
    let mut p = parser(&[0x00, 0x90, 0x3C, 0x40, 0x10, 0xFF, 0x58, 0x03, 0x01, 0x02, 0x03]);
    assert_eq!(p.next(), Some(event(0, Event::NoteOn { channel: 0, key: 0x3C, velocity: 0x40 })));
    assert_eq!(p.next(), Some(Err(MIDIParseError::CorruptEvent { track_number: 0, position: 8 })));
    assert_eq!(p.next(), None);
}

#[test]
fn end_of_track_yields_nothing() {
    assert_eq!(decode_all(&[0x00, 0xFF, 0x2F, 0x00]), vec![]);
}

#[test]
fn end_of_track_does_not_end_the_iteration() {
    let items = decode_all(&[0x00, 0x90, 0x3C, 0x40, 0x00, 0xFF, 0x2F, 0x00, 0x05, 0x80, 0x3C, 0x00]);
    assert_eq!(
        items,
        vec![
            event(0, Event::NoteOn { channel: 0, key: 0x3C, velocity: 0x40 }),
            event(5, Event::NoteOff { channel: 0, key: 0x3C }),
        ]
    );
}

#[test]
fn several_end_of_track_markers_are_stepped_over() {
    let items = decode_all(&[0x00, 0xFF, 0x2F, 0x00, 0x01, 0xFF, 0x2F, 0x00, 0x02, 0xF6, 0x00, 0xFF, 0x2F, 0x00]);
    assert_eq!(items, vec![event(2, Event::TuneRequest)]);
}

#[test]
fn end_of_track_leaves_its_status_to_the_next_event() {
    // after FF 2F 00 the status is 0xFF: 0x21 is read as a meta type
    let items = decode_all(&[0x00, 0xFF, 0x2F, 0x00, 0x00, 0x21, 0x01, 0x09]);
    assert_eq!(items, vec![event(0, Event::MIDIPort { port: 9 })]);
}

#[test]
fn empty_track_yields_nothing() {
    assert_eq!(decode_all(&[]), vec![]);
}

#[test]
fn track_cut_inside_an_event_is_an_error_once() {
    let mut p = TrackParser::new(FullRamTrackReader::new(3, 0, vec![0x00, 0x90, 0x3C]));
    assert_eq!(p.next(), Some(Err(MIDIParseError::UnexpectedTrackEnd { track_number: 3, position: 3 })));
    assert_eq!(p.next(), None);
    assert_eq!(p.next(), None);
}

#[test]
fn track_cut_behind_the_delta_is_an_error() {
    let mut p = parser(&[0x00, 0xF6, 0x40]);
    assert_eq!(p.next(), Some(event(0, Event::TuneRequest)));
    assert_eq!(p.next(), Some(Err(MIDIParseError::UnexpectedTrackEnd { track_number: 0, position: 3 })));
    assert_eq!(p.next(), None);
}

#[test]
fn track_cut_inside_a_meta_event_is_an_error() {
    let mut p = parser(&[0x00, 0xFF, 0x51, 0x03, 0x07]);
    assert_eq!(p.next(), Some(Err(MIDIParseError::UnexpectedTrackEnd { track_number: 0, position: 5 })));
    assert_eq!(p.next(), None);
    let mut p = parser(&[0x00, 0xFF]);
    assert_eq!(p.next(), Some(Err(MIDIParseError::UnexpectedTrackEnd { track_number: 0, position: 2 })));
    let mut p = parser(&[0x00, 0xFF, 0x2F]);
    assert_eq!(p.next(), Some(Err(MIDIParseError::UnexpectedTrackEnd { track_number: 0, position: 3 })));
}

#[test]
fn nothing_follows_an_error_even_if_bytes_are_left() {
    let mut p = parser(&[0x00, 0xFF, 0x59, 0x03, 0x00, 0x00, 0x00, 0x00, 0x90, 0x3C, 0x40]);
    assert_eq!(p.next(), Some(Err(MIDIParseError::CorruptEvent { track_number: 0, position: 4 })));
    assert_eq!(p.next(), None);
    assert_eq!(p.next(), None);
}

fn sample_track() -> Vec<u8> {
    vec![
        0x00, 0xFF, 0x03, 0x03, b'a', b'b', b'c', // track name
        0x00, 0x90, 0x3C, 0x40, // note on
        0x10, 0x3E, 0x40, // running status
        0x00, 0xF6, // tune request
        0x00, 0x20, // tune request without status; 0x20 is kept
        0x92, 0x40, 0x00, // delta 0x20, note on with velocity 0
        0x81, 0x00, 0xFF, 0x51, 0x03, 0x07, 0xA1, 0x20, // tempo
        0x00, 0xFF, 0x2F, 0x00, // end of track
        0x00, 0xE0, 0x00, 0x40, // pitch wheel
        0x00, 0xFF, 0x58, 0x02, 0x00, 0x00, // corrupt
        0x00, 0xF6,
    ]
}

#[test]
fn checkpoint_and_restore_give_the_same_remaining_events() {
    let bytes = sample_track();
    let all = decode_all(&bytes);
    assert_eq!(all.len(), 9);
    assert_eq!(all[8], Err(MIDIParseError::CorruptEvent { track_number: 0, position: 41 }));
    for n in 0..=all.len() {
        let mut first = parser(&bytes);
        for _ in 0..n {
            first.next();
        }
        let checkpoint = first.checkpoint();
        let pos = checkpoint.reader_pos();
        let reader = FullRamTrackReader::new_at(0, 0, bytes.clone(), pos);
        assert_eq!(reader.pos(), pos);
        let mut second = TrackParser::from_checkpoint(reader, checkpoint);
        let mut rest = Vec::new();
        while let Some(item) = second.next() {
            rest.push(item);
        }
        assert_eq!(rest, all[n..].to_vec());
        let mut continued = Vec::new();
        while let Some(item) = first.next() {
            continued.push(item);
        }
        assert_eq!(continued, rest);
    }
}

#[test]
fn checkpoint_keeps_a_byte_that_was_pushed_back() {
    let bytes = [0x00, 0xF6, 0x00, 0x10, 0x90, 0x3C, 0x40];
    let mut first = parser(&bytes);
    first.next();
    first.next();
    let checkpoint = first.checkpoint();
    assert_eq!(checkpoint.reader_pos(), 4);
    let mut second =
        TrackParser::from_checkpoint(FullRamTrackReader::new_at(0, 0, bytes.to_vec(), 4), checkpoint);
    assert_eq!(second.next(), Some(event(0x10, Event::NoteOn { channel: 0, key: 0x3C, velocity: 0x40 })));
    assert_eq!(second.next(), None);
}

#[test]
fn checkpoint_after_an_error_restores_an_ended_decoder() {
    let bytes = [0x00, 0xFF, 0x51, 0x02, 0x00, 0x00, 0x00, 0xF6];
    let mut first = parser(&bytes);
    assert_eq!(first.next(), Some(Err(MIDIParseError::CorruptEvent { track_number: 0, position: 4 })));
    let checkpoint = first.checkpoint();
    assert_eq!(checkpoint.reader_pos(), 4);
    let mut second =
        TrackParser::from_checkpoint(FullRamTrackReader::new_at(0, 0, bytes.to_vec(), 4), checkpoint);
    assert_eq!(second.next(), None);
}

#[test]
fn checkpoint_of_a_new_decoder_is_at_the_readers_offset() {
    let p = TrackParser::new(FullRamTrackReader::new_at(1, 0, vec![0x00, 0xF6, 0x00, 0xF6], 2));
    let checkpoint = p.checkpoint();
    assert_eq!(checkpoint.reader_pos(), 2);
    let copy = checkpoint;
    assert_eq!(copy, checkpoint);
}

#[test]
fn decoder_starts_at_the_readers_offset() {
    let mut p = TrackParser::new(FullRamTrackReader::new_at(1, 0, vec![0x00, 0xF6, 0x05, 0xF3, 0x01], 2));
    assert_eq!(p.next(), Some(event(5, Event::SongSelect { song: 1 })));
    assert_eq!(p.next(), None);
}

#[test]
fn reader_hands_out_bytes_in_order() {
    let mut r = FullRamTrackReader::new(9, 0, vec![1, 2, 3]);
    assert_eq!(r.track_number(), 9);
    assert_eq!(r.pos(), 0);
    assert!(!r.is_at_end());
    assert_eq!(r.read(), Ok(1));
    assert_eq!(r.read(), Ok(2));
    assert_eq!(r.pos(), 2);
    assert_eq!(r.read(), Ok(3));
    assert!(r.is_at_end());
    assert_eq!(r.read(), Err(MIDIParseError::UnexpectedTrackEnd { track_number: 9, position: 3 }));
    assert_eq!(r.pos(), 3);
    assert_eq!(r.read(), Err(MIDIParseError::UnexpectedTrackEnd { track_number: 9, position: 3 }));
}

#[test]
fn reader_at_an_offset() {
    let mut r = FullRamTrackReader::new_at(0, 10, vec![1, 2, 3], 15);
    assert!(r.is_at_end());
    assert_eq!(r.pos(), 13);
    assert_eq!(r.read(), Err(MIDIParseError::UnexpectedTrackEnd { track_number: 0, position: 13 }));
    let mut r = FullRamTrackReader::new_at(0, 10, vec![1, 2, 3], 13);
    assert!(r.is_at_end());
    assert_eq!(r.read(), Err(MIDIParseError::UnexpectedTrackEnd { track_number: 0, position: 13 }));
    let mut q = FullRamTrackReader::new_at(0, 10, vec![1, 2, 3], 12);
    assert_eq!(q.pos(), 12);
    assert_eq!(q.read(), Ok(3));
    assert!(q.is_at_end());
    let mut early = FullRamTrackReader::new_at(0, 10, vec![1, 2, 3], 4);
    assert_eq!(early.pos(), 10);
    assert_eq!(early.read(), Ok(1));
}

#[test]
fn errors_carry_the_absolute_offset() {
    let reader = FullRamTrackReader::new(4, 1000, vec![0x00, 0xF6, 0x00, 0xFF, 0x20, 0x02, 0x00]);
    let mut p = TrackParser::new(reader);
    assert_eq!(p.next(), Some(event(0, Event::TuneRequest)));
    assert_eq!(p.checkpoint().reader_pos(), 1002);
    assert_eq!(p.next(), Some(Err(MIDIParseError::CorruptEvent { track_number: 4, position: 1006 })));
    assert_eq!(p.next(), None);
}

#[test]
fn restore_at_an_absolute_offset() {
    let bytes = vec![0x00, 0x90, 0x3C, 0x40, 0x10, 0x3E, 0x00, 0x00, 0x40];
    let mut first = TrackParser::new(FullRamTrackReader::new(1, 500, bytes.clone()));
    assert_eq!(first.next(), Some(event(0, Event::NoteOn { channel: 0, key: 0x3C, velocity: 0x40 })));
    let checkpoint = first.checkpoint();
    assert_eq!(checkpoint.reader_pos(), 504);
    let mut second =
        TrackParser::from_checkpoint(FullRamTrackReader::new_at(1, 500, bytes, 504), checkpoint);
    assert_eq!(second.next(), Some(event(0x10, Event::NoteOff { channel: 0, key: 0x3E })));
    assert_eq!(
        second.next(),
        Some(Err(MIDIParseError::UnexpectedTrackEnd { track_number: 1, position: 509 }))
    );
    assert_eq!(first.next(), Some(event(0x10, Event::NoteOff { channel: 0, key: 0x3E })));
    assert_eq!(first.next(), Some(Err(MIDIParseError::UnexpectedTrackEnd { track_number: 1, position: 509 })));
}

#[test]
fn read_var_length_round_trip_with_bytes_behind() {
    let values: [u64; 10] = [0, 1, 0x7F, 0x80, 0x3FFF, 0x4000, 0x1F_FFFF, 0x20_0000, 0x0FFF_FFFF, u64::MAX];
    for value in values.iter() {
        let mut bytes = encode_var_length(*value);
        let len = bytes.len() as u64;
        bytes.extend_from_slice(&[0x81, 0x23]);
        let mut p = TrackParser::new(FullRamTrackReader::new(0, 40, bytes));
        assert_eq!(p.read_var_length(), Ok(*value));
        assert_eq!(p.checkpoint().reader_pos(), 40 + len);
        assert_eq!(p.read(), Ok(0x81));
        assert_eq!(p.read_fast(), Ok(0x23));
        assert_eq!(p.read(), Err(MIDIParseError::UnexpectedTrackEnd { track_number: 0, position: 42 + len }));
        assert_eq!(
            p.read_var_length(),
            Err(MIDIParseError::UnexpectedTrackEnd { track_number: 0, position: 42 + len })
        );
    }
}

#[test]
fn try_parse_next_event_steps_over_one_event() {
    let mut p = parser(&[0x00, 0x90, 0x3C, 0x40, 0x00, 0xFF, 0x2F, 0x00, 0x10, 0x3E, 0x00, 0x00, 0xFF, 0x51, 0x01]);
    assert_eq!(
        p.try_parse_next_event(),
        Ok(Some(Delta { delta: 0, event: Event::NoteOn { channel: 0, key: 0x3C, velocity: 0x40 } }))
    );
    assert_eq!(p.checkpoint().reader_pos(), 4);
    assert_eq!(p.try_parse_next_event(), Ok(None));
    assert_eq!(p.checkpoint().reader_pos(), 8);
    // the status is now 0xFF: 0x3E is read as a meta type, with length 0
    assert_eq!(
        p.try_parse_next_event(),
        Ok(Some(Delta { delta: 0x10, event: Event::UnknownMeta { meta_type: 0x3E, bytes: vec![] } }))
    );
    assert_eq!(p.try_parse_next_event(), Err(MIDIParseError::CorruptEvent { track_number: 0, position: 15 }));
    // the error is not kept by this function, and the reader is at its end
    assert_eq!(p.try_parse_next_event(), Err(MIDIParseError::UnexpectedTrackEnd { track_number: 0, position: 15 }));
    assert_eq!(p.next(), None);
}

#[test]
fn read_takes_the_byte_pushed_back_and_read_fast_does_not() {
    let mut p = parser(&[0x00, 0xF6, 0x00, 0x11, 0x22, 0x33]);
    assert_eq!(p.next(), Some(event(0, Event::TuneRequest)));
    assert_eq!(p.next(), Some(event(0, Event::TuneRequest)));
    // 0x11 stood in the place of a status byte and is pushed back
    assert_eq!(p.checkpoint().reader_pos(), 4);
    assert_eq!(p.read_fast(), Ok(0x22));
    assert_eq!(p.read(), Ok(0x11));
    assert_eq!(p.read(), Ok(0x33));
    assert_eq!(p.checkpoint().reader_pos(), 6);
}
