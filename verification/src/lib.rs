//! Conversion core of a bridge from a shared-memory ring buffer of radio
//! telescope samples to a filterbank time-series file.
//!
//! The crate holds the decisions of that bridge as verified functions on plain
//! values: reading the ring buffer's key, reading the typed fields out of the
//! textual observation header, cutting pulled blocks into sample frames, and
//! the state machine that orders the header and the frames in the output.
//! Samples and real-valued header fields are carried as the bytes and the text
//! that the transport delivers; giving them a numeric meaning is left to the
//! caller.

pub mod digits;
pub mod epoch;
pub mod frame;
pub mod header;
pub mod key;
pub mod pump;
