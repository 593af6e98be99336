//! What can go wrong while an archive is written or read.

use vstd::prelude::*;

verus! {

/// The four families of failure.
#[derive(Clone, Copy, Debug, PartialEq, Eq)]
pub enum ErrorKind {
    /// The bytes are not a well-formed archive.
    Format,
    /// A declared size and the bytes actually present disagree.
    Integrity,
    /// A seek aimed outside the entry.
    Range,
    /// The caller broke a rule of the interface.
    Usage,
}

/// The column of a member record in which a number was expected.
#[derive(Clone, Copy, Debug, PartialEq, Eq)]
pub enum Column {
    /// The modification time.
    Mtime,
    /// The owner id.
    Uid,
    /// The group id.
    Gid,
    /// The permission bits.
    Mode,
    /// The payload size.
    Size,
    /// The length behind `#1/` in a BSD name column.
    NameLength,
    /// The offset behind `/` in a GNU name column.
    NameOffset,
}

/// A failure of this library.
#[derive(Clone, Copy, Debug, PartialEq, Eq)]
pub enum ArError {
    /// The stream does not begin with `!<arch>\n`.
    BadMagic,
    /// A member record does not end in a backquote and a newline.
    BadTerminator,
    /// A column that must hold a number holds something else.
    BadNumber { column: Column },
    /// A GNU name column points outside the name table.
    BadNameOffset { offset: u64, table_len: u64 },
    /// A BSD record announces a name longer than the whole member.
    NameExceedsMember { name_len: u64, size: u64 },
    /// A name column uses the GNU convention in a BSD archive, or the BSD
    /// convention in a GNU archive.
    MixedDialects,
    /// The byte after an odd-sized payload is not a newline.
    BadPadding { found: u8 },
    /// The symbol table is shorter than its own counts announce.
    BadSymbolTable,
    /// The stream ends inside a member: `needed` bytes were expected where
    /// `available` are left.
    Truncated { needed: u64, available: u64 },
    /// A header declared `declared` payload bytes and `actual` were supplied.
    SizeMismatch { declared: u64, actual: u64 },
    /// A seek aimed before the first byte of the entry.
    SeekBeforeStart { target: i128 },
    /// A seek aimed behind the last byte of the entry.
    SeekPastEnd { target: i128, length: u64 },
    /// A header names an identifier that the builder was not told about.
    UnknownIdentifier,
    /// A number of a header has more digits than its column is wide.
    TooWide { column: Column },
    /// The GNU name table is larger than the size column of its record can
    /// say.
    NameTableTooLarge { size: u64 },
    /// A source handed out `given` bytes where `asked` were asked for, or
    /// more than the entry has left.
    Overrun { asked: u64, given: u64 },
}

impl ArError {
    /// The family that an error belongs to.
    pub open spec fn spec_kind(self) -> ErrorKind {
        match self {
            ArError::BadMagic => ErrorKind::Format,
            ArError::BadTerminator => ErrorKind::Format,
            ArError::BadNumber { .. } => ErrorKind::Format,
            ArError::BadNameOffset { .. } => ErrorKind::Format,
            ArError::NameExceedsMember { .. } => ErrorKind::Format,
            ArError::MixedDialects => ErrorKind::Format,
            ArError::BadPadding { .. } => ErrorKind::Format,
            ArError::BadSymbolTable => ErrorKind::Format,
            ArError::Truncated { .. } => ErrorKind::Integrity,
            ArError::SizeMismatch { .. } => ErrorKind::Integrity,
            ArError::SeekBeforeStart { .. } => ErrorKind::Range,
            ArError::SeekPastEnd { .. } => ErrorKind::Range,
            ArError::UnknownIdentifier => ErrorKind::Usage,
            ArError::TooWide { .. } => ErrorKind::Usage,
            ArError::NameTableTooLarge { .. } => ErrorKind::Usage,
            ArError::Overrun { .. } => ErrorKind::Integrity,
        }
    }

    /// The family that this error belongs to.
    #[verifier::when_used_as_spec(spec_kind)]
    pub fn kind(self) -> (k: ErrorKind)
        ensures
            k == self.spec_kind(),
    {
        match self {
            ArError::BadMagic => ErrorKind::Format,
            ArError::BadTerminator => ErrorKind::Format,
            ArError::BadNumber { .. } => ErrorKind::Format,
            ArError::BadNameOffset { .. } => ErrorKind::Format,
            ArError::NameExceedsMember { .. } => ErrorKind::Format,
            ArError::MixedDialects => ErrorKind::Format,
            ArError::BadPadding { .. } => ErrorKind::Format,
            ArError::BadSymbolTable => ErrorKind::Format,
            ArError::Truncated { .. } => ErrorKind::Integrity,
            ArError::SizeMismatch { .. } => ErrorKind::Integrity,
            ArError::SeekBeforeStart { .. } => ErrorKind::Range,
            ArError::SeekPastEnd { .. } => ErrorKind::Range,
            ArError::UnknownIdentifier => ErrorKind::Usage,
            ArError::TooWide { .. } => ErrorKind::Usage,
            ArError::NameTableTooLarge { .. } => ErrorKind::Usage,
            ArError::Overrun { .. } => ErrorKind::Integrity,
        }
    }
}

} // verus!
