use vstd::prelude::*;

verus! {

/// The closed set of failures the library reports.
///
/// Every decode or transform step either fully succeeds or returns one of
/// these; nothing is retried and nothing is silently truncated.
#[derive(Debug, Clone, Copy, PartialEq, Eq, Structural)]
pub enum CscError {
    /// The byte stream ended before a full header frame was available.
    ShortHeader,
    /// A record frame was not exactly the fixed record size.
    ShortRecord,
    /// Bytes were left over after the last complete record frame.
    TrailingBytes,
    /// The byte stream ended before all declared packet fields were read.
    ShortPacket,
    /// A packet declared an element count smaller than its fixed share.
    BadPacketSize,
    /// A record's valid-sample count differed from the first record's.
    SampleCountMismatch { record_index: usize, found: u32, expected: u32 },
}

} // verus!
