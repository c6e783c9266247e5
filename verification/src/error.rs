//! The failures that reading or writing an archive can end in.

use vstd::prelude::*;

verus! {

/// Why a byte store refused a read or a write.
#[derive(Clone, Copy, Debug, PartialEq, Eq, Structural)]
pub enum IoCause {
    /// The store ended before the bytes that were asked for.
    UnexpectedEof,
    /// A count, a position or a length that no store can hold.
    InvalidInput,
    /// The place written to was full before all bytes were taken.
    WriteZero,
}

/// Every way in which opening, decoding or writing an archive fails.
#[derive(Debug)]
pub enum WadError {
    /// The header could not be read.
    CouldntReadHeader(IoCause),
    /// The header could not be written.
    CouldntWriteHeader(IoCause),
    /// A directory entry could not be read.
    CouldntReadEntry(IoCause),
    /// A directory entry could not be written.
    CouldntWriteEntry(IoCause),
    /// The bytes of a lump could not be read.
    CouldntReadLump(IoCause),
    /// The bytes of a lump could not be written.
    CouldntWriteLump(IoCause),
    /// The first four bytes are neither `IWAD` nor `PWAD`; they are kept.
    InvalidMagicNumber([u8; 4]),
    /// The name field of an entry, kept here as it was read, holds no valid text.
    InvalidLumpName([u8; 8]),
    /// A decode that has to use up its buffer left bytes behind.
    TrailingBytes,
    /// A value needed more bytes than were left.
    UnexpectedEof,
    /// Any other breach of the decoding protocol.
    Other(String),
}

/// A failure as mathematics: the same kinds, with what they carry as
/// sequences.
pub enum ErrorView {
    CouldntReadHeader(IoCause),
    CouldntWriteHeader(IoCause),
    CouldntReadEntry(IoCause),
    CouldntWriteEntry(IoCause),
    CouldntReadLump(IoCause),
    CouldntWriteLump(IoCause),
    InvalidMagicNumber(Seq<u8>),
    InvalidLumpName(Seq<u8>),
    TrailingBytes,
    UnexpectedEof,
    Other(Seq<char>),
}

impl View for WadError {
    type V = ErrorView;

    open spec fn view(&self) -> ErrorView {
        match *self {
            WadError::CouldntReadHeader(c) => ErrorView::CouldntReadHeader(c),
            WadError::CouldntWriteHeader(c) => ErrorView::CouldntWriteHeader(c),
            WadError::CouldntReadEntry(c) => ErrorView::CouldntReadEntry(c),
            WadError::CouldntWriteEntry(c) => ErrorView::CouldntWriteEntry(c),
            WadError::CouldntReadLump(c) => ErrorView::CouldntReadLump(c),
            WadError::CouldntWriteLump(c) => ErrorView::CouldntWriteLump(c),
            WadError::InvalidMagicNumber(m) => ErrorView::InvalidMagicNumber(m@),
            WadError::InvalidLumpName(f) => ErrorView::InvalidLumpName(f@),
            WadError::TrailingBytes => ErrorView::TrailingBytes,
            WadError::UnexpectedEof => ErrorView::UnexpectedEof,
            WadError::Other(m) => ErrorView::Other(m@),
        }
    }
}

} // verus!
