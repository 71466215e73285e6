use vstd::prelude::*;

verus! {

/// Why bytes could not be read as a segment or as one of its parts.
#[derive(Debug, Clone, Copy, PartialEq, Eq, Structural)]
pub enum SegmentError {
    /// The input ended inside a value.
    UnexpectedEof,
    /// A varint ran on for more than ten bytes.
    VarintTooLarge,
    /// A varint held a value too large for 32 bits.
    DoesNotFitU32,
    /// A varint held a value too large for 16 bits.
    DoesNotFitU16,
    /// The file is smaller than a header and a footer.
    TooSmall,
    /// The file does not start with the segment magic.
    BadMagic,
    /// The file was written with another format version.
    UnsupportedVersion,
    /// The dictionary's end does not fit in an address.
    DictionaryOffsetOverflow,
    /// The dictionary starts inside the header.
    DictionaryBeforeBody,
    /// The dictionary reaches past the end of the segment body.
    DictionaryOutOfBounds,
    /// A dictionary without terms has the wrong length.
    EmptyDictionaryLength,
    /// The dictionary holds another number of terms than the footer says.
    TermCountMismatch,
    /// A term's bytes are not UTF-8.
    InvalidUtf8Term,
}

} // verus!
