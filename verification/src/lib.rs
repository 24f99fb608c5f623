//! Decoder for the EVT 3.0 event-camera raw stream format.
//!
//! The stream is a sequence of little-endian 16-bit words. Each word carries a
//! 4-bit type tag and a 12-bit payload. The decoder reconstructs change-detection
//! events and external-trigger events from that wire format.
//!
//! - [`parser`] reads the fields of single words.
//! - [`decoder`] holds the state machine and says, as a step function folded
//!   over the words, what it computes.
//! - [`stream`] proves what holds of decoding over whole word sequences.
//! - [`header`] reads the text preamble of a file; [`file`] decodes the bytes
//!   of a whole file.
//! - [`output`] builds CSV and binary files; [`columns`] splits events into
//!   one vector for each field.

pub mod columns;
pub mod decoder;
pub mod file;
pub mod header;
pub mod output;
pub mod parser;
pub mod stream;
pub mod text;
pub mod types;

pub use decoder::{DecodeError, Evt3Decoder};
pub use output::{FieldOrder, OutputError};
pub use types::{CdEvent, DecodeResult, SensorMetadata, TriggerEvent};
