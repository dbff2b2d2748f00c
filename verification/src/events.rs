use vstd::prelude::*;

verus! {

/// The kind of a text meta event, told by the meta type byte that announced
/// it.
#[derive(Debug, Clone, Copy, PartialEq, Eq, Structural)]
pub enum TextEventKind {
    Text,
    Copyright,
    TrackName,
    InstrumentName,
    Lyric,
    Marker,
    CuePoint,
    /// Any other numbered text kind, with its meta type byte.
    Other(u8),
}

impl TextEventKind {
    /// The kind that the meta type byte `val` announces.
    pub open spec fn of_val(val: u8) -> TextEventKind {
        if val == 1 {
            TextEventKind::Text
        } else if val == 2 {
            TextEventKind::Copyright
        } else if val == 3 {
            TextEventKind::TrackName
        } else if val == 4 {
            TextEventKind::InstrumentName
        } else if val == 5 {
            TextEventKind::Lyric
        } else if val == 6 {
            TextEventKind::Marker
        } else if val == 7 {
            TextEventKind::CuePoint
        } else {
            TextEventKind::Other(val)
        }
    }

    /// The kind that the meta type byte `val` announces.
    pub fn from_val(val: u8) -> (kind: TextEventKind)
        ensures
            kind == Self::of_val(val),
    {
        match val {
            1 => TextEventKind::Text,
            2 => TextEventKind::Copyright,
            3 => TextEventKind::TrackName,
            4 => TextEventKind::InstrumentName,
            5 => TextEventKind::Lyric,
            6 => TextEventKind::Marker,
            7 => TextEventKind::CuePoint,
            _ => TextEventKind::Other(val),
        }
    }
}

/// One message of a track.
#[derive(Debug, Clone, PartialEq, Eq)]
pub enum Event {
    NoteOff { channel: u8, key: u8 },
    NoteOn { channel: u8, key: u8, velocity: u8 },
    PolyphonicKeyPressure { channel: u8, key: u8, velocity: u8 },
    ControlChange { channel: u8, controller: u8, value: u8 },
    ProgramChange { channel: u8, program: u8 },
    ChannelPressure { channel: u8, pressure: u8 },
    /// `pitch` is centred at 0; two data bytes below 128 give -8192..=8191.
    PitchWheelChange { channel: u8, pitch: i16 },
    SystemExclusiveMessage { data: Vec<u8> },
    SongPositionPointer { position: u16 },
    SongSelect { song: u8 },
    TuneRequest,
    EndOfExclusive,
    TrackStart,
    Text { kind: TextEventKind, bytes: Vec<u8> },
    ChannelPrefix { channel_prefix: u8 },
    MIDIPort { port: u8 },
    /// Microseconds per quarter note, 24 bits.
    Tempo { tempo: u32 },
    SMPTEOffset { hours: u8, minutes: u8, seconds: u8, frames: u8, fractional_frames: u8 },
    /// `denominator` is the exponent of a power of two.
    TimeSignature { numerator: u8, denominator: u8, ticks_per_click: u8, bb: u8 },
    /// `sf` counts sharps (positive) or flats (negative); `mi` is the
    /// major/minor flag byte.
    KeySignature { sf: i8, mi: u8 },
    /// A meta event of a type that has no variant of its own.
    UnknownMeta { meta_type: u8, bytes: Vec<u8> },
    /// A status byte that starts no known message.
    Undefined { event: u8 },
}

/// What an [`Event`] holds, with byte payloads as sequences.
pub enum EventView {
    NoteOff { channel: u8, key: u8 },
    NoteOn { channel: u8, key: u8, velocity: u8 },
    PolyphonicKeyPressure { channel: u8, key: u8, velocity: u8 },
    ControlChange { channel: u8, controller: u8, value: u8 },
    ProgramChange { channel: u8, program: u8 },
    ChannelPressure { channel: u8, pressure: u8 },
    PitchWheelChange { channel: u8, pitch: i16 },
    SystemExclusiveMessage { data: Seq<u8> },
    SongPositionPointer { position: u16 },
    SongSelect { song: u8 },
    TuneRequest,
    EndOfExclusive,
    TrackStart,
    Text { kind: TextEventKind, bytes: Seq<u8> },
    ChannelPrefix { channel_prefix: u8 },
    MIDIPort { port: u8 },
    Tempo { tempo: u32 },
    SMPTEOffset { hours: u8, minutes: u8, seconds: u8, frames: u8, fractional_frames: u8 },
    TimeSignature { numerator: u8, denominator: u8, ticks_per_click: u8, bb: u8 },
    KeySignature { sf: i8, mi: u8 },
    UnknownMeta { meta_type: u8, bytes: Seq<u8> },
    Undefined { event: u8 },
}

impl View for Event {
    type V = EventView;

    open spec fn view(&self) -> EventView {
        match *self {
            Event::NoteOff { channel, key } => EventView::NoteOff { channel, key },
            Event::NoteOn { channel, key, velocity } => EventView::NoteOn { channel, key, velocity },
            Event::PolyphonicKeyPressure { channel, key, velocity } => EventView::PolyphonicKeyPressure {
                channel,
                key,
                velocity,
            },
            Event::ControlChange { channel, controller, value } => EventView::ControlChange {
                channel,
                controller,
                value,
            },
            Event::ProgramChange { channel, program } => EventView::ProgramChange { channel, program },
            Event::ChannelPressure { channel, pressure } => EventView::ChannelPressure { channel, pressure },
            Event::PitchWheelChange { channel, pitch } => EventView::PitchWheelChange { channel, pitch },
            Event::SystemExclusiveMessage { data } => EventView::SystemExclusiveMessage { data: data@ },
            Event::SongPositionPointer { position } => EventView::SongPositionPointer { position },
            Event::SongSelect { song } => EventView::SongSelect { song },
            Event::TuneRequest => EventView::TuneRequest,
            Event::EndOfExclusive => EventView::EndOfExclusive,
            Event::TrackStart => EventView::TrackStart,
            Event::Text { kind, bytes } => EventView::Text { kind, bytes: bytes@ },
            Event::ChannelPrefix { channel_prefix } => EventView::ChannelPrefix { channel_prefix },
            Event::MIDIPort { port } => EventView::MIDIPort { port },
            Event::Tempo { tempo } => EventView::Tempo { tempo },
            Event::SMPTEOffset { hours, minutes, seconds, frames, fractional_frames } => EventView::SMPTEOffset {
                hours,
                minutes,
                seconds,
                frames,
                fractional_frames,
            },
            Event::TimeSignature { numerator, denominator, ticks_per_click, bb } => EventView::TimeSignature {
                numerator,
                denominator,
                ticks_per_click,
                bb,
            },
            Event::KeySignature { sf, mi } => EventView::KeySignature { sf, mi },
            Event::UnknownMeta { meta_type, bytes } => EventView::UnknownMeta { meta_type, bytes: bytes@ },
            Event::Undefined { event } => EventView::Undefined { event },
        }
    }
}

} // verus!
