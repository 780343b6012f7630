use vstd::prelude::*;

verus! {

/// Why reading or writing a settings file or a mod pack failed.
#[derive(Debug, Clone, Copy, PartialEq, Eq, Structural)]
pub enum SettingsError {
    /// The stored size in an envelope header disagrees with the file size.
    CorruptHeader { declared: u64, actual: u64 },
    /// The input ended before a field was complete.
    ShortRead,
    /// A compressed payload did not decompress to the recorded size.
    DecompressionFailed,
    /// The number of parsed entries differs from the declared count.
    EntryCountMismatch { expected: u64, found: u64 },
    /// A value type tag outside 0..=3.
    InvalidTypeId(u32),
    /// A boolean payload other than 0 or 1.
    InvalidBoolEncoding(u32),
    /// A string field that is not valid UTF-8.
    Utf8DecodeError,
    /// A mod pack whose schema version is not 0.
    UnsupportedSchemaVersion(u64),
    /// A length that does not fit its length prefix.
    LengthOverflow,
}

} // verus!
