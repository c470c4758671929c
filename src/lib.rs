//! Recovers data stored as audio on cassette tape, and renders data as such
//! audio: a pulse classifier and bit framer turn PCM samples into bursts of
//! bytes, a modulator turns payloads into samples, and a container parser
//! reads the bursts as a named text file of checksummed records.

pub mod args;
pub mod bits;
pub mod capture;
pub mod cassette;
pub mod error;
pub mod formats;
pub mod frame;
pub mod inverse;
pub mod misc;
pub mod modulate;
pub mod parser;
pub mod pulse;
pub mod text;
