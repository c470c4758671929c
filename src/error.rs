use vstd::prelude::*;

verus! {

/// Everything that can stop a decode or an encode.
#[derive(Debug, Clone, Copy, PartialEq, Eq, Structural)]
pub enum Error {
    /// The time between two crossings fits no pulse window; the duration is
    /// `samples / sample_rate` seconds.
    InvalidPulseLength { samples: usize, sample_rate: u32 },
    /// A start pulse arrived in the middle of a byte after the marker was found.
    InvalidStartPulse,
    /// A group of pulses ended without ever holding the marker byte.
    StartSequenceNotFound,
    /// A record is missing or has the wrong size.
    InvalidBufferLength,
    /// The record at this index (0 is the header) does not sum to zero.
    InvalidChecksum(usize),
    /// The header names a file type that is not a text file.
    InvalidFileType,
    /// A data record does not start with the expected marker byte.
    MissingStartByte(u8),
}

} // verus!
