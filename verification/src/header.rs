//! The descriptor of one archive member and its sixty-byte record.

use vstd::prelude::*;
use crate::bytes::{contains_byte, push_all, push_repeat};
use crate::error::{ArError, Column};
use crate::field::{number_field, pad_to, push_number, repeat, SPACE};
use crate::layout::{lemma_gnu_record_len, lemma_record_len};

verus! {

/// The width of the name column.
pub const NAME_WIDTH: usize = 16;

/// The length of a member record.
pub const RECORD_LEN: usize = 60;

/// The longest name that the GNU dialect stores in the name column, where
/// one byte is taken by the closing `/`.
pub const GNU_SHORT_MAX: usize = 15;

/// The byte `/`.
pub const SLASH: u8 = 0x2f;

/// The byte that ends a line.
pub const NEWLINE: u8 = 0x0a;

/// The byte `` ` ``, which with a newline ends every record.
pub const BACKQUOTE: u8 = 0x60;

/// What a [`Header`] holds, as mathematical values.
pub struct HeaderView {
    pub identifier: Seq<u8>,
    pub mtime: u64,
    pub uid: u32,
    pub gid: u32,
    pub mode: u32,
    pub size: u64,
}

/// The descriptor of one archive member: its name, its metadata and the
/// number of payload bytes.
#[derive(Clone, Debug, PartialEq, Eq)]
pub struct Header {
    identifier: Vec<u8>,
    mtime: u64,
    uid: u32,
    gid: u32,
    mode: u32,
    size: u64,
}

impl View for Header {
    type V = HeaderView;

    closed spec fn view(&self) -> HeaderView {
        HeaderView {
            identifier: self.identifier@,
            mtime: self.mtime,
            uid: self.uid,
            gid: self.gid,
            mode: self.mode,
            size: self.size,
        }
    }
}

/// The two bytes that end a record.
pub open spec fn terminator() -> Seq<u8> {
    seq![BACKQUOTE, NEWLINE]
}

/// The three bytes `#1/` that announce a name stored in front of the payload.
pub open spec fn inline_marker() -> Seq<u8> {
    seq![0x23u8, 0x31u8, SLASH]
}

/// The columns behind the name: modification time, owner, group, mode in
/// octal and the size as it is declared on disk, then the terminator.
pub open spec fn trailer(h: HeaderView, declared_size: nat) -> Seq<u8> {
    number_field(h.mtime as nat, 10, 12) + number_field(h.uid as nat, 10, 6) + number_field(
        h.gid as nat,
        10,
        6,
    ) + number_field(h.mode as nat, 8, 8) + number_field(declared_size, 10, 10) + terminator()
}

/// Whether the common and BSD writers must store a name in front of the
/// payload: it is wider than the name column or holds a space, which would
/// be taken for padding.
pub open spec fn needs_inline_name(identifier: Seq<u8>) -> bool {
    identifier.len() > NAME_WIDTH || identifier.contains(SPACE)
}

/// The number of NUL bytes that bring a name of `len` bytes to a multiple of
/// four.
pub open spec fn inline_padding(len: nat) -> nat {
    ((4 - len % 4) % 4) as nat
}

/// The bytes that a name stored in front of the payload takes, padding
/// included.
pub open spec fn inline_len(identifier: Seq<u8>) -> nat {
    identifier.len() + inline_padding(identifier.len())
}

/// What the common and BSD writers emit for a header: the record, and behind
/// it the name where it had to be stored in front of the payload.
pub open spec fn record(h: HeaderView) -> Seq<u8> {
    if needs_inline_name(h.identifier) {
        inline_marker() + number_field(inline_len(h.identifier), 10, 13) + trailer(
            h,
            (h.size + inline_len(h.identifier)) as nat,
        ) + h.identifier + repeat(0u8, inline_padding(h.identifier.len()))
    } else {
        pad_to(h.identifier, NAME_WIDTH as nat, SPACE) + trailer(h, h.size as nat)
    }
}

/// Whether the numbers of a header fit in their columns when `declared` is
/// written in the size column: twelve decimal digits for the modification
/// time, six each for owner and group, eight octal digits for the mode, ten
/// decimal digits for the size.
pub open spec fn columns_fit(h: HeaderView, declared: nat) -> bool {
    &&& h.mtime < 1_000_000_000_000
    &&& h.uid < 1_000_000
    &&& h.gid < 1_000_000
    &&& h.mode < 0o100_000_000
    &&& declared < 10_000_000_000
}

/// The first of the columns behind the name that is too narrow for its
/// number, when `declared` is to be written in the size column.
pub open spec fn trailer_overflow(h: HeaderView, declared: nat) -> Option<Column> {
    if h.mtime >= 1_000_000_000_000 {
        Some(Column::Mtime)
    } else if h.uid >= 1_000_000 {
        Some(Column::Uid)
    } else if h.gid >= 1_000_000 {
        Some(Column::Gid)
    } else if h.mode >= 0o100_000_000 {
        Some(Column::Mode)
    } else if declared >= 10_000_000_000 {
        Some(Column::Size)
    } else {
        None
    }
}

/// The first column of the record of the common and BSD writers that is too
/// narrow for its number: the length of an inline name has thirteen digits
/// at most, and the size column counts an inline name with the payload.
pub open spec fn record_overflow(h: HeaderView) -> Option<Column> {
    if needs_inline_name(h.identifier) {
        if inline_len(h.identifier) >= 10_000_000_000_000 {
            Some(Column::NameLength)
        } else {
            trailer_overflow(h, (h.size + inline_len(h.identifier)) as nat)
        }
    } else {
        trailer_overflow(h, h.size as nat)
    }
}

/// The first column of the record of the GNU writer that is too narrow for
/// its number: the offset of a long name has fifteen digits at most.
pub open spec fn gnu_record_overflow(h: HeaderView, offset: nat) -> Option<Column> {
    if is_gnu_long(h.identifier) && offset >= 1_000_000_000_000_000 {
        Some(Column::NameOffset)
    } else {
        trailer_overflow(h, h.size as nat)
    }
}

/// What a writer answers to a header: the refusal that names the column
/// that is too narrow, or success.
pub open spec fn fit_outcome(overflow: Option<Column>) -> Result<(), ArError> {
    match overflow {
        Some(column) => Err(ArError::TooWide { column }),
        None => Ok(()),
    }
}

/// The length of what the common and BSD writers emit for a header whose
/// numbers fit: the sixty bytes of the record, and the bytes of an inline
/// name.
pub open spec fn record_len(h: HeaderView) -> nat {
    if needs_inline_name(h.identifier) {
        60 + inline_len(h.identifier)
    } else {
        60
    }
}

/// Whether the GNU writer refers to a name through the name table.
pub open spec fn is_gnu_long(identifier: Seq<u8>) -> bool {
    identifier.len() > GNU_SHORT_MAX
}

/// What the GNU writer emits for a header whose name, if it is long, stands
/// at `offset` in the name table.
pub open spec fn gnu_record(h: HeaderView, offset: nat) -> Seq<u8> {
    if is_gnu_long(h.identifier) {
        seq![SLASH] + number_field(offset, 10, 15) + trailer(h, h.size as nat)
    } else {
        pad_to(h.identifier.push(SLASH), NAME_WIDTH as nat, SPACE) + trailer(h, h.size as nat)
    }
}

impl Header {
    /// A header with the given name and size, and all other fields zero.
    pub fn new(identifier: Vec<u8>, size: u64) -> (h: Header)
        ensures
            h@ == (HeaderView { identifier: identifier@, mtime: 0, uid: 0, gid: 0, mode: 0, size }),
    {
        Header { identifier, mtime: 0, uid: 0, gid: 0, mode: 0, size }
    }

    /// A header with every field given.
    pub fn with_fields(
        identifier: Vec<u8>,
        mtime: u64,
        uid: u32,
        gid: u32,
        mode: u32,
        size: u64,
    ) -> (h: Header)
        ensures
            h@ == (HeaderView { identifier: identifier@, mtime, uid, gid, mode, size }),
    {
        Header { identifier, mtime, uid, gid, mode, size }
    }

    /// The name of the member.
    pub fn identifier(&self) -> (id: &[u8])
        ensures
            id@ == self@.identifier,
    {
        self.identifier.as_slice()
    }

    /// Replaces the name of the member.
    pub fn set_identifier(&mut self, identifier: Vec<u8>)
        ensures
            final(self)@ == (HeaderView { identifier: identifier@, ..old(self)@ }),
    {
        self.identifier = identifier;
    }

    /// The modification time, in seconds since the epoch.
    pub fn mtime(&self) -> (t: u64)
        ensures
            t == self@.mtime,
    {
        self.mtime
    }

    /// Replaces the modification time.
    pub fn set_mtime(&mut self, mtime: u64)
        ensures
            final(self)@ == (HeaderView { mtime, ..old(self)@ }),
    {
        self.mtime = mtime;
    }

    /// The owner id.
    pub fn uid(&self) -> (id: u32)
        ensures
            id == self@.uid,
    {
        self.uid
    }

    /// Replaces the owner id.
    pub fn set_uid(&mut self, uid: u32)
        ensures
            final(self)@ == (HeaderView { uid, ..old(self)@ }),
    {
        self.uid = uid;
    }

    /// The group id.
    pub fn gid(&self) -> (id: u32)
        ensures
            id == self@.gid,
    {
        self.gid
    }

    /// Replaces the group id.
    pub fn set_gid(&mut self, gid: u32)
        ensures
            final(self)@ == (HeaderView { gid, ..old(self)@ }),
    {
        self.gid = gid;
    }

    /// The permission bits.
    pub fn mode(&self) -> (m: u32)
        ensures
            m == self@.mode,
    {
        self.mode
    }

    /// Replaces the permission bits.
    pub fn set_mode(&mut self, mode: u32)
        ensures
            final(self)@ == (HeaderView { mode, ..old(self)@ }),
    {
        self.mode = mode;
    }

    /// The number of payload bytes.
    pub fn size(&self) -> (n: u64)
        ensures
            n == self@.size,
    {
        self.size
    }

    /// Replaces the number of payload bytes.
    pub fn set_size(&mut self, size: u64)
        ensures
            final(self)@ == (HeaderView { size, ..old(self)@ }),
    {
        self.size = size;
    }

    /// Appends the columns behind the name, with `declared_size` in the size
    /// column.
    fn write_trailer(&self, writer: &mut Vec<u8>, declared_size: u128)
        ensures
            final(writer)@ == old(writer)@ + trailer(self@, declared_size as nat),
    {
        let ghost before = writer@;
        push_number(writer, self.mtime as u128, 10, 12);
        push_number(writer, self.uid as u128, 10, 6);
        push_number(writer, self.gid as u128, 10, 6);
        push_number(writer, self.mode as u128, 8, 8);
        push_number(writer, declared_size, 10, 10);
        writer.push(BACKQUOTE);
        writer.push(NEWLINE);
        proof {
            let t = number_field(self.mtime as nat, 10, 12) + number_field(self.uid as nat, 10, 6)
                + number_field(self.gid as nat, 10, 6) + number_field(self.mode as nat, 8, 8)
                + number_field(declared_size as nat, 10, 10);
            assert(writer@ == before + (t + terminator()));
        }
    }

    /// The first column behind the name that is too narrow for its number.
    fn trailer_overflow(&self, declared: u128) -> (c: Option<Column>)
        ensures
            c == trailer_overflow(self@, declared as nat),
    {
        if self.mtime >= 1_000_000_000_000 {
            Some(Column::Mtime)
        } else if self.uid >= 1_000_000 {
            Some(Column::Uid)
        } else if self.gid >= 1_000_000 {
            Some(Column::Gid)
        } else if self.mode >= 0o100_000_000 {
            Some(Column::Mode)
        } else if declared >= 10_000_000_000 {
            Some(Column::Size)
        } else {
            None
        }
    }

    /// The first column of the common and BSD record that is too narrow for
    /// its number, or `None` where the header can be written.
    pub fn overflow(&self) -> (c: Option<Column>)
        ensures
            c == record_overflow(self@),
    {
        let len: usize = self.identifier.len();
        if len > NAME_WIDTH || contains_byte(self.identifier.as_slice(), SPACE) {
            let padding: usize = (4 - len % 4) % 4;
            let padded: u128 = len as u128 + padding as u128;
            if padded >= 10_000_000_000_000 {
                Some(Column::NameLength)
            } else {
                self.trailer_overflow(self.size as u128 + padded)
            }
        } else {
            self.trailer_overflow(self.size as u128)
        }
    }

    /// The first column of the GNU record that is too narrow for its
    /// number, or `None` where the header can be written with its name at
    /// `offset` in the name table.
    pub fn gnu_overflow(&self, offset: u64) -> (c: Option<Column>)
        ensures
            c == gnu_record_overflow(self@, offset as nat),
    {
        if self.identifier.len() > GNU_SHORT_MAX && offset >= 1_000_000_000_000_000 {
            Some(Column::NameOffset)
        } else {
            self.trailer_overflow(self.size as u128)
        }
    }

    /// Appends the record of this header to `writer` as the common and BSD
    /// dialects have it: sixty bytes, and behind them a name of more than
    /// sixteen bytes or with a space in it, padded with NUL bytes to a
    /// multiple of four; the size column then counts the name with the
    /// payload. A header with a number that does not fit its column is
    /// refused, and nothing is written.
    pub fn write(&self, writer: &mut Vec<u8>) -> (r: Result<(), ArError>)
        ensures
            r == fit_outcome(record_overflow(self@)),
            r is Ok ==> final(writer)@ == old(writer)@ + record(self@),
            r is Ok ==> record(self@).len() == record_len(self@),
            r is Err ==> final(writer)@ == old(writer)@,
    {
        match self.overflow() {
            Some(column) => Err(ArError::TooWide { column }),
            None => {
                proof {
                    lemma_record_len(self@);
                }
                self.emit(writer);
                Ok(())
            },
        }
    }

    /// Appends the record of this header to `writer` as the GNU dialect has
    /// it: sixty bytes, in which a name of up to fifteen bytes is closed
    /// with `/`, and a longer one is given by `/` and `offset`, the place of
    /// the name in the name table. A header with a number that does not fit
    /// its column is refused, and nothing is written.
    pub fn write_gnu(&self, writer: &mut Vec<u8>, offset: u64) -> (r: Result<(), ArError>)
        ensures
            r == fit_outcome(gnu_record_overflow(self@, offset as nat)),
            r is Ok ==> final(writer)@ == old(writer)@ + gnu_record(self@, offset as nat),
            r is Ok ==> gnu_record(self@, offset as nat).len() == 60,
            r is Err ==> final(writer)@ == old(writer)@,
    {
        match self.gnu_overflow(offset) {
            Some(column) => Err(ArError::TooWide { column }),
            None => {
                proof {
                    lemma_gnu_record_len(self@, offset as nat);
                }
                self.emit_gnu(writer, offset);
                Ok(())
            },
        }
    }

    /// Appends the record of the common and BSD dialects, whatever the
    /// width of its numbers.
    fn emit(&self, writer: &mut Vec<u8>)
        ensures
            final(writer)@ == old(writer)@ + record(self@),
    {
        let ghost before = writer@;
        let len: usize = self.identifier.len();
        if len > NAME_WIDTH || contains_byte(self.identifier.as_slice(), SPACE) {
            let padding: usize = (4 - len % 4) % 4;
            let padded: u128 = len as u128 + padding as u128;
            writer.push(0x23u8);
            writer.push(0x31u8);
            writer.push(SLASH);
            push_number(writer, padded, 10, 13);
            self.write_trailer(writer, self.size as u128 + padded);
            push_all(writer, self.identifier.as_slice());
            push_repeat(writer, 0u8, padding);
            proof {
                assert(before.push(0x23u8).push(0x31u8).push(SLASH) == before + inline_marker());
                assert(writer@ == before + record(self@));
            }
        } else {
            push_all(writer, self.identifier.as_slice());
            push_repeat(writer, SPACE, NAME_WIDTH - len);
            self.write_trailer(writer, self.size as u128);
            proof {
                if len == NAME_WIDTH {
                    assert(self@.identifier + repeat(SPACE, 0) == self@.identifier);
                }
                assert(writer@ == before + record(self@));
            }
        }
    }

    /// Appends the record of the GNU dialect, whatever the width of its
    /// numbers.
    fn emit_gnu(&self, writer: &mut Vec<u8>, offset: u64)
        ensures
            final(writer)@ == old(writer)@ + gnu_record(self@, offset as nat),
    {
        let ghost before = writer@;
        let len: usize = self.identifier.len();
        if len > GNU_SHORT_MAX {
            writer.push(SLASH);
            push_number(writer, offset as u128, 10, 15);
            self.write_trailer(writer, self.size as u128);
            proof {
                assert(before.push(SLASH) == before + seq![SLASH]);
                assert(writer@ == before + gnu_record(self@, offset as nat));
            }
        } else {
            push_all(writer, self.identifier.as_slice());
            writer.push(SLASH);
            push_repeat(writer, SPACE, GNU_SHORT_MAX - len);
            self.write_trailer(writer, self.size as u128);
            proof {
                let name = self@.identifier.push(SLASH);
                assert(before + self@.identifier == before + self@.identifier);
                assert((before + self@.identifier).push(SLASH) == before + name);
                if len == GNU_SHORT_MAX {
                    assert(name + repeat(SPACE, 0) == name);
                }
                assert(writer@ == before + gnu_record(self@, offset as nat));
            }
        }
    }
}

} // verus!
