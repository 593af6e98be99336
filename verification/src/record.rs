//! Reading a member record: the name column in its three dialects, the
//! number columns and the terminator.

use vstd::prelude::*;
use vstd::slice::slice_subrange;
use crate::archive::Variant;
use crate::bytes::{copy_range, starts_with};
use crate::error::{ArError, Column};
use crate::field::{field_value, parse_number, trim_end, trimmed_len, SPACE};
use crate::header::{
    inline_marker, terminator, Header, HeaderView, BACKQUOTE, NEWLINE, RECORD_LEN, SLASH,
};

verus! {

/// What a record announces.
#[derive(Clone, Copy, Debug, PartialEq, Eq)]
pub enum Shape {
    /// An ordinary member whose payload follows the record.
    Member,
    /// A member whose name stands in the first `name_len` bytes behind the
    /// record, in front of the payload.
    InlineName { name_len: u64 },
    /// The GNU table of long names.
    NameTable,
    /// A table of symbols.
    SymbolTable,
}

/// A record that has been read, as mathematical values.
pub struct RecordView {
    /// The header, with the size of the payload proper.
    pub header: HeaderView,
    /// What the record announces.
    pub shape: Shape,
    /// The dialect of the archive as it is known after this record.
    pub variant: Variant,
}

/// A record that has been read.
#[derive(Debug)]
pub struct Record {
    /// The header, with the size of the payload proper.
    pub header: Header,
    /// What the record announces.
    pub shape: Shape,
    /// The dialect of the archive as it is known after this record.
    pub variant: Variant,
}

impl View for Record {
    type V = RecordView;

    open spec fn view(&self) -> RecordView {
        RecordView { header: self.header@, shape: self.shape, variant: self.variant }
    }
}

/// The bytes of a column within a record.
pub open spec fn column(raw: Seq<u8>, c: Column) -> Seq<u8> {
    match c {
        Column::NameOffset => raw.subrange(1, 16),
        Column::NameLength => raw.subrange(3, 16),
        Column::Mtime => raw.subrange(16, 28),
        Column::Uid => raw.subrange(28, 34),
        Column::Gid => raw.subrange(34, 40),
        Column::Mode => raw.subrange(40, 48),
        Column::Size => raw.subrange(48, 58),
    }
}

/// The base in which a column is written: eight for the mode, ten for all
/// others.
pub open spec fn column_radix(c: Column) -> nat {
    match c {
        Column::Mode => 8,
        _ => 10,
    }
}

/// The number in a column, or the error that names the column.
pub open spec fn column_value(raw: Seq<u8>, c: Column) -> Result<u64, ArError> {
    match field_value(column(raw, c), column_radix(c)) {
        Some(v) => Ok(v),
        None => Err(ArError::BadNumber { column: c }),
    }
}

/// The number in a column that a header keeps in 32 bits.
pub open spec fn column_value_32(raw: Seq<u8>, c: Column) -> Result<u32, ArError> {
    match field_value(column(raw, c), column_radix(c)) {
        Some(v) => if v <= u32::MAX {
            Ok(v as u32)
        } else {
            Err(ArError::BadNumber { column: c })
        },
        None => Err(ArError::BadNumber { column: c }),
    }
}

/// The name column without its padding.
pub open spec fn name_column(raw: Seq<u8>) -> Seq<u8> {
    trim_end(raw.subrange(0, 16), SPACE)
}

/// The conventions that a name column can follow.
#[derive(Clone, Copy, Debug, PartialEq, Eq)]
pub enum NameForm {
    /// The name itself.
    Literal,
    /// A name closed by `/`.
    GnuShort,
    /// `/` and the offset of the name in the name table.
    GnuReference,
    /// `/` alone: the GNU symbol table.
    GnuSymbols,
    /// `//`: the GNU name table.
    GnuTable,
    /// `#1/` and the length of the name stored behind the record.
    BsdInline,
}

/// The convention that a name column follows, given the dialect known so
/// far. A GNU form in a BSD archive and a BSD form in a GNU archive are
/// errors. A column that both begins with `#1/` and ends in `/` is GNU.
pub open spec fn classify(name: Seq<u8>, variant: Variant) -> Result<NameForm, ArError> {
    if name.len() > 0 && name[0] == SLASH {
        if variant is BSD {
            Err(ArError::MixedDialects)
        } else if name.len() == 1 {
            Ok(NameForm::GnuSymbols)
        } else if name.len() == 2 && name[1] == SLASH {
            Ok(NameForm::GnuTable)
        } else {
            Ok(NameForm::GnuReference)
        }
    } else if name.len() > 0 && name.last() == SLASH {
        if variant is BSD {
            Err(ArError::MixedDialects)
        } else {
            Ok(NameForm::GnuShort)
        }
    } else if starts_with(name, inline_marker()) {
        if variant is GNU {
            Err(ArError::MixedDialects)
        } else {
            Ok(NameForm::BsdInline)
        }
    } else {
        Ok(NameForm::Literal)
    }
}

/// Whether a byte ends a name in the GNU name table.
pub open spec fn ends_table_name(b: u8) -> bool {
    b == SLASH || b == NEWLINE
}

/// The end of the name that begins at `from` in the GNU name table: the
/// place of the first `/` or newline, or the end of the table.
pub open spec fn table_name_end(table: Seq<u8>, from: int) -> int
    decreases table.len() - from,
{
    if from < 0 || from >= table.len() {
        table.len() as int
    } else if ends_table_name(table[from]) {
        from
    } else {
        table_name_end(table, from + 1)
    }
}

/// The name that begins at `offset` in the GNU name table.
pub open spec fn table_name(table: Seq<u8>, offset: int) -> Seq<u8> {
    table.subrange(offset, table_name_end(table, offset))
}

/// The name `__.SYMDEF` of the BSD symbol table.
pub open spec fn symdef() -> Seq<u8> {
    seq![0x5fu8, 0x5fu8, 0x2eu8, 0x53u8, 0x59u8, 0x4du8, 0x44u8, 0x45u8, 0x46u8]
}

/// The name `__.SYMDEF SORTED` of the sorted BSD symbol table.
pub open spec fn symdef_sorted() -> Seq<u8> {
    symdef() + seq![0x20u8, 0x53u8, 0x4fu8, 0x52u8, 0x54u8, 0x45u8, 0x44u8]
}

/// Whether a name is one of the two that BSD archives give their symbol
/// table.
pub open spec fn is_bsd_symbols_name(name: Seq<u8>) -> bool {
    name == symdef() || name == symdef_sorted()
}

/// A header with the given name and size and all metadata zero, as the
/// special GNU members get it.
pub open spec fn blank_header(identifier: Seq<u8>, size: u64) -> HeaderView {
    HeaderView { identifier, mtime: 0, uid: 0, gid: 0, mode: 0, size }
}

/// Completes a record with the metadata columns, or fails with the first of
/// them that does not hold a number.
pub open spec fn with_metadata(
    raw: Seq<u8>,
    identifier: Seq<u8>,
    size: u64,
    shape: Shape,
    variant: Variant,
) -> Result<RecordView, ArError> {
    match column_value(raw, Column::Mtime) {
        Err(e) => Err(e),
        Ok(mtime) => match column_value_32(raw, Column::Uid) {
            Err(e) => Err(e),
            Ok(uid) => match column_value_32(raw, Column::Gid) {
                Err(e) => Err(e),
                Ok(gid) => match column_value_32(raw, Column::Mode) {
                    Err(e) => Err(e),
                    Ok(mode) => Ok(
                        RecordView {
                            header: HeaderView { identifier, mtime, uid, gid, mode, size },
                            shape,
                            variant,
                        },
                    ),
                },
            },
        },
    }
}

/// What a record of sixty bytes says, given the dialect known so far and the
/// GNU name table read so far.
///
/// The checks come in this order: the length, the terminator, the size
/// column, the name column, the metadata columns. The two special GNU
/// members are recognised before their metadata is looked at, which may be
/// blank.
#[verifier::opaque]
pub open spec fn parse_record(raw: Seq<u8>, variant: Variant, table: Seq<u8>) -> Result<
    RecordView,
    ArError,
> {
    if raw.len() != RECORD_LEN {
        Err(ArError::Truncated { needed: RECORD_LEN as u64, available: raw.len() as u64 })
    } else if raw.subrange(58, 60) != terminator() {
        Err(ArError::BadTerminator)
    } else {
        match column_value(raw, Column::Size) {
            Err(e) => Err(e),
            Ok(size) => {
                let name = name_column(raw);
                match classify(name, variant) {
                    Err(e) => Err(e),
                    Ok(NameForm::GnuSymbols) => Ok(
                        RecordView {
                            header: blank_header(name, size),
                            shape: Shape::SymbolTable,
                            variant: Variant::GNU,
                        },
                    ),
                    Ok(NameForm::GnuTable) => Ok(
                        RecordView {
                            header: blank_header(name, size),
                            shape: Shape::NameTable,
                            variant: Variant::GNU,
                        },
                    ),
                    Ok(NameForm::GnuReference) => match column_value(raw, Column::NameOffset) {
                        Err(e) => Err(e),
                        Ok(offset) => if offset >= table.len() {
                            Err(
                                ArError::BadNameOffset { offset, table_len: table.len() as u64 },
                            )
                        } else {
                            with_metadata(
                                raw,
                                table_name(table, offset as int),
                                size,
                                Shape::Member,
                                Variant::GNU,
                            )
                        },
                    },
                    Ok(NameForm::GnuShort) => with_metadata(
                        raw,
                        name.drop_last(),
                        size,
                        Shape::Member,
                        Variant::GNU,
                    ),
                    Ok(NameForm::BsdInline) => match column_value(raw, Column::NameLength) {
                        Err(e) => Err(e),
                        Ok(name_len) => if name_len > size {
                            Err(ArError::NameExceedsMember { name_len, size })
                        } else {
                            with_metadata(
                                raw,
                                Seq::empty(),
                                (size - name_len) as u64,
                                Shape::InlineName { name_len },
                                Variant::BSD,
                            )
                        },
                    },
                    Ok(NameForm::Literal) => if !(variant is GNU) && name == symdef() {
                        with_metadata(raw, name, size, Shape::SymbolTable, Variant::BSD)
                    } else {
                        with_metadata(raw, name, size, Shape::Member, variant)
                    },
                }
            },
        }
    }
}

/// What a record with an inline name becomes once the bytes of the name
/// have been read: the padding of NUL bytes is dropped, and the member is
/// the symbol table where the name says so.
pub open spec fn with_inline_name(record: RecordView, bytes: Seq<u8>) -> RecordView {
    let name = trim_end(bytes, 0u8);
    RecordView {
        header: HeaderView { identifier: name, ..record.header },
        shape: if is_bsd_symbols_name(name) {
            Shape::SymbolTable
        } else {
            Shape::Member
        },
        variant: record.variant,
    }
}

/// Reads the number in a column of a record.
fn read_column(raw: &[u8], c: Column) -> (r: Result<u64, ArError>)
    requires
        raw@.len() == RECORD_LEN,
    ensures
        r == column_value(raw@, c),
{
    let (from, to, radix): (usize, usize, u8) = match c {
        Column::NameOffset => (1, 16, 10),
        Column::NameLength => (3, 16, 10),
        Column::Mtime => (16, 28, 10),
        Column::Uid => (28, 34, 10),
        Column::Gid => (34, 40, 10),
        Column::Mode => (40, 48, 8),
        Column::Size => (48, 58, 10),
    };
    match parse_number(slice_subrange(raw, from, to), radix) {
        Some(v) => Ok(v),
        None => Err(ArError::BadNumber { column: c }),
    }
}

/// Reads the number in a column that a header keeps in 32 bits.
fn read_column_32(raw: &[u8], c: Column) -> (r: Result<u32, ArError>)
    requires
        raw@.len() == RECORD_LEN,
    ensures
        r == column_value_32(raw@, c),
{
    match read_column(raw, c) {
        Ok(v) => if v <= u32::MAX as u64 {
            Ok(v as u32)
        } else {
            Err(ArError::BadNumber { column: c })
        },
        Err(e) => Err(e),
    }
}

/// Finds the convention that a name column follows.
fn classify_name(name: &[u8], variant: Variant) -> (r: Result<NameForm, ArError>)
    ensures
        r == classify(name@, variant),
{
    let len: usize = name.len();
    if len > 0 && name[0] == SLASH {
        match variant {
            Variant::BSD => Err(ArError::MixedDialects),
            _ => if len == 1 {
                Ok(NameForm::GnuSymbols)
            } else if len == 2 && name[1] == SLASH {
                Ok(NameForm::GnuTable)
            } else {
                Ok(NameForm::GnuReference)
            },
        }
    } else if len > 0 && name[len - 1] == SLASH {
        match variant {
            Variant::BSD => Err(ArError::MixedDialects),
            _ => Ok(NameForm::GnuShort),
        }
    } else if len >= 3 && name[0] == 0x23u8 && name[1] == 0x31u8 && name[2] == SLASH {
        proof {
            assert(name@.subrange(0, 3) =~= inline_marker());
        }
        match variant {
            Variant::GNU => Err(ArError::MixedDialects),
            _ => Ok(NameForm::BsdInline),
        }
    } else {
        proof {
            if starts_with(name@, inline_marker()) {
                let front = name@.subrange(0, 3);
                assert(front[0] == 0x23u8 && front[1] == 0x31u8 && front[2] == SLASH);
            }
        }
        Ok(NameForm::Literal)
    }
}

/// Whether a name is `__.SYMDEF`.
fn is_symdef(name: &[u8]) -> (r: bool)
    ensures
        r == (name@ == symdef()),
{
    let r = name.len() == 9 && name[0] == 0x5fu8 && name[1] == 0x5fu8 && name[2] == 0x2eu8
        && name[3] == 0x53u8 && name[4] == 0x59u8 && name[5] == 0x4du8 && name[6] == 0x44u8
        && name[7] == 0x45u8 && name[8] == 0x46u8;
    proof {
        if r {
            assert(name@ =~= symdef());
        } else if name@ == symdef() {
            assert(symdef().len() == 9);
            assert(symdef()[0] == 0x5fu8 && symdef()[1] == 0x5fu8 && symdef()[2] == 0x2eu8);
            assert(symdef()[3] == 0x53u8 && symdef()[4] == 0x59u8 && symdef()[5] == 0x4du8);
            assert(symdef()[6] == 0x44u8 && symdef()[7] == 0x45u8 && symdef()[8] == 0x46u8);
        }
    }
    r
}

/// Whether a name is `__.SYMDEF SORTED`.
fn is_symdef_sorted(name: &[u8]) -> (r: bool)
    ensures
        r == (name@ == symdef_sorted()),
{
    if name.len() != 16 {
        proof {
            assert(symdef_sorted().len() == 16);
        }
        return false;
    }
    let front: bool = is_symdef(slice_subrange(name, 0, 9));
    let r = front && name[9] == 0x20u8 && name[10] == 0x53u8 && name[11] == 0x4fu8 && name[12]
        == 0x52u8 && name[13] == 0x54u8 && name[14] == 0x45u8 && name[15] == 0x44u8;
    proof {
        let s = symdef_sorted();
        assert(s.len() == 16);
        assert(s.subrange(0, 9) =~= symdef());
        assert(s[9] == 0x20u8 && s[10] == 0x53u8 && s[11] == 0x4fu8 && s[12] == 0x52u8);
        assert(s[13] == 0x54u8 && s[14] == 0x45u8 && s[15] == 0x44u8);
        if r {
            assert(name@ =~= s) by {
                assert forall|i: int| 0 <= i < 16 implies name@[i] == s[i] by {
                    if i < 9 {
                        assert(name@.subrange(0, 9)[i] == symdef()[i]);
                    }
                }
            }
        }
    }
    r
}

/// Copies the name that begins at `offset` out of the GNU name table.
fn read_table_name(table: &[u8], offset: usize) -> (name: Vec<u8>)
    requires
        offset < table@.len(),
    ensures
        name@ == table_name(table@, offset as int),
{
    let mut end: usize = offset;
    while end < table.len() && table[end] != SLASH && table[end] != NEWLINE
        invariant
            offset <= end <= table@.len(),
            table_name_end(table@, offset as int) == table_name_end(table@, end as int),
        decreases table@.len() - end,
    {
        end = end + 1;
    }
    copy_range(table, offset, end)
}

/// Reads the metadata columns and completes a record.
fn read_metadata(raw: &[u8], identifier: Vec<u8>, size: u64, shape: Shape, variant: Variant) -> (r:
    Result<Record, ArError>)
    requires
        raw@.len() == RECORD_LEN,
    ensures
        same_record(r, with_metadata(raw@, identifier@, size, shape, variant)),
{
    let mtime: u64 = match read_column(raw, Column::Mtime) {
        Ok(v) => v,
        Err(e) => {
            return Err(e);
        },
    };
    let uid: u32 = match read_column_32(raw, Column::Uid) {
        Ok(v) => v,
        Err(e) => {
            return Err(e);
        },
    };
    let gid: u32 = match read_column_32(raw, Column::Gid) {
        Ok(v) => v,
        Err(e) => {
            return Err(e);
        },
    };
    let mode: u32 = match read_column_32(raw, Column::Mode) {
        Ok(v) => v,
        Err(e) => {
            return Err(e);
        },
    };
    Ok(Record { header: Header::with_fields(identifier, mtime, uid, gid, mode, size), shape, variant })
}

/// Whether an outcome of reading a record is the one that the format
/// prescribes.
pub open spec fn same_record(got: Result<Record, ArError>, expected: Result<RecordView, ArError>) -> bool {
    match (got, expected) {
        (Ok(r), Ok(v)) => r@ == v,
        (Err(a), Err(b)) => a == b,
        _ => false,
    }
}

/// Reads one member record. `variant` is the dialect known so far and
/// `table` the GNU name table read so far, empty where there was none.
pub fn parse(raw: &[u8], variant: Variant, table: &[u8]) -> (r: Result<Record, ArError>)
    ensures
        same_record(r, parse_record(raw@, variant, table@)),
{
    proof {
        reveal(parse_record);
    }
    if raw.len() != RECORD_LEN {
        return Err(ArError::Truncated { needed: RECORD_LEN as u64, available: raw.len() as u64 });
    }
    if raw[58] != BACKQUOTE || raw[59] != NEWLINE {
        proof {
            let t = raw@.subrange(58, 60);
            assert(t[0] == raw@[58] && t[1] == raw@[59]);
            assert(terminator()[0] == BACKQUOTE && terminator()[1] == NEWLINE);
        }
        return Err(ArError::BadTerminator);
    }
    proof {
        assert(raw@.subrange(58, 60) =~= terminator());
    }
    let size: u64 = match read_column(raw, Column::Size) {
        Ok(v) => v,
        Err(e) => {
            return Err(e);
        },
    };
    let column: &[u8] = slice_subrange(raw, 0, 16);
    let name_len: usize = trimmed_len(column, SPACE);
    let name: &[u8] = slice_subrange(column, 0, name_len);
    proof {
        assert(name@ == name_column(raw@));
        assert(name@.subrange(0, name_len as int) == name@);
    }
    let form: NameForm = match classify_name(name, variant) {
        Ok(f) => f,
        Err(e) => {
            return Err(e);
        },
    };
    match form {
        NameForm::GnuSymbols => Ok(
            Record {
                header: Header::new(copy_range(name, 0, name_len), size),
                shape: Shape::SymbolTable,
                variant: Variant::GNU,
            },
        ),
        NameForm::GnuTable => Ok(
            Record {
                header: Header::new(copy_range(name, 0, name_len), size),
                shape: Shape::NameTable,
                variant: Variant::GNU,
            },
        ),
        NameForm::GnuReference => {
            let offset: u64 = match read_column(raw, Column::NameOffset) {
                Ok(v) => v,
                Err(e) => {
                    return Err(e);
                },
            };
            if offset >= table.len() as u64 {
                return Err(ArError::BadNameOffset { offset, table_len: table.len() as u64 });
            }
            let identifier: Vec<u8> = read_table_name(table, offset as usize);
            read_metadata(raw, identifier, size, Shape::Member, Variant::GNU)
        },
        NameForm::GnuShort => {
            let identifier: Vec<u8> = copy_range(name, 0, name_len - 1);
            read_metadata(raw, identifier, size, Shape::Member, Variant::GNU)
        },
        NameForm::BsdInline => {
            let inline: u64 = match read_column(raw, Column::NameLength) {
                Ok(v) => v,
                Err(e) => {
                    return Err(e);
                },
            };
            if inline > size {
                return Err(ArError::NameExceedsMember { name_len: inline, size });
            }
            read_metadata(
                raw,
                Vec::new(),
                size - inline,
                Shape::InlineName { name_len: inline },
                Variant::BSD,
            )
        },
        NameForm::Literal => {
            let identifier: Vec<u8> = copy_range(name, 0, name_len);
            proof {
                assert(name@.subrange(0, name_len as int) == name@);
            }
            let symbols: bool = match variant {
                Variant::GNU => false,
                _ => is_symdef(name),
            };
            if symbols {
                read_metadata(raw, identifier, size, Shape::SymbolTable, Variant::BSD)
            } else {
                read_metadata(raw, identifier, size, Shape::Member, variant)
            }
        },
    }
}

impl Record {
    /// Completes a record that announced an inline name with the bytes of
    /// that name.
    pub fn with_inline_name(self, bytes: &[u8]) -> (r: Record)
        ensures
            r@ == with_inline_name(self@, bytes@),
    {
        let len: usize = trimmed_len(bytes, 0u8);
        let name: &[u8] = slice_subrange(bytes, 0, len);
        let symbols: bool = is_symdef(name) || is_symdef_sorted(name);
        let mut header: Header = self.header;
        header.set_identifier(copy_range(bytes, 0, len));
        Record {
            header,
            shape: if symbols {
                Shape::SymbolTable
            } else {
                Shape::Member
            },
            variant: self.variant,
        }
    }
}

} // verus!
