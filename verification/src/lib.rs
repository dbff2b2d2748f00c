//! Streaming decoding of MIDI track data and merging of time-ordered note
//! streams.
//!
//! [`io::track_parser::TrackParser`] turns the bytes of one track into timed
//! events; what it returns is stated against the byte grammar in
//! [`io::track_format`]. [`sequence::merge_notes::merge_notes_array`] combines
//! note streams that are each ordered by start time into one ordered stream;
//! what it returns is stated against the model in [`sequence::merge_model`].
pub mod events;
pub mod io;
pub mod notes;
pub mod sequence;
