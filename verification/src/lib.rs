//! Encoding and decoding of Unix archive (`ar`) files.
//!
//! An archive is the eight-byte magic `!<arch>\n` followed by members. Each
//! member is a sixty-byte record of fixed-width text columns, the payload,
//! and one newline of padding when the payload has odd length. Three
//! dialects differ only in how the sixteen-byte name column is used:
//!
//! * the *common* dialect stores the name itself, padded with spaces;
//! * the *BSD* dialect additionally stores names that are long or contain a
//!   space in front of the payload, announced by `#1/<length>`;
//! * the *GNU* dialect ends short names with `/` and refers to long names by
//!   `/<offset>` into a name table kept in a member called `//`.
//!
//! [`Builder`] and [`GnuBuilder`] write archives into a byte buffer,
//! [`Archive`] reads one back member by member, and [`Entry`] is the bounded
//! view of one member's payload. Every function carries a contract over the
//! byte sequences involved, and the module [`laws`] proves that what the
//! writers produce is what the reader recovers.
//!
//! The library itself touches no file and no socket. A caller that streams
//! an archive uses the pieces that the in-memory types are made of:
//! [`Builder::write_header`] and [`Builder::finish_member`] around the copy of
//! a payload, a [`scanner::Scanner`] that is handed each piece of the archive
//! as it arrives, and [`entry::read_limit`], [`entry::after_read`],
//! [`entry::plan_seek`] and [`entry::drain_len`] for the cursor of an entry
//! over a source of its own.
//!
//! A record is always sixty bytes long. A header with a number that has
//! more digits than its column is wide is refused by the writers before
//! they write anything.
//!
//! # Modules
//!
//! * [`field`]: numbers in fixed-width text columns.
//! * [`header`]: the descriptor of a member and the records of the writers.
//! * [`record`]: what the reader makes of a record.
//! * [`builder`]: the writers.
//! * [`scanner`]: the decisions of the reader, as a state machine.
//! * [`archive`]: the reader over bytes in memory, and what each of its
//!   steps yields.
//! * [`entry`]: the cursor over a payload.
//! * [`symbols`]: the symbol tables of static libraries.
//! * [`layout`]: lemmas on the columns of written records.
//! * [`laws`]: round trip, parity, long names, seek bounds.
//! * [`error`] and [`bytes`]: errors and small helpers.

pub mod archive;
pub mod builder;
pub mod bytes;
pub mod entry;
pub mod error;
pub mod field;
pub mod header;
pub mod laws;
pub mod layout;
pub mod record;
pub mod scanner;
pub mod symbols;

pub use crate::archive::{Archive, Variant};
pub use crate::builder::{Builder, GnuBuilder};
pub use crate::entry::{Entry, SeekFrom};
pub use crate::error::{ArError, Column, ErrorKind};
pub use crate::header::Header;
pub use crate::symbols::{Symbol, Symbols};
