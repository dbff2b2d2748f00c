//! Sequences of timed values.
pub mod event;
pub mod merge_laws;
pub mod merge_model;
pub mod merge_notes;
