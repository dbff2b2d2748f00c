//! Reading track bytes: the byte source, the byte grammar and the decoder.
pub mod errors;
pub mod readers;
pub mod track_format;
pub mod track_laws;
pub mod track_parser;
pub mod track_state;
pub mod var_length;
