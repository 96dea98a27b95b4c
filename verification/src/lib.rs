//! A point-to-point framing protocol for exchanging length- and ID-tagged
//! binary packets over an unreliable byte stream (for example a serial link).
//!
//! A frame is a fixed 6-byte header followed by the payload and a trailing
//! CRC-16 checksum, packed together into base64 characters. The receiver is a
//! resynchronizing state machine that recovers byte alignment after stream
//! corruption by discarding one byte at a time.

pub mod b64;
pub mod checksum;
pub mod error;
pub mod frame;
pub mod queue;
pub mod receiver;
pub mod transmitter;
