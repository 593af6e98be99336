//! Where the columns of a written record lie, and what the reader makes of
//! each of them.

use vstd::prelude::*;
use crate::archive::Variant;
use crate::bytes::starts_with;
use crate::error::Column;
use crate::field::{
    digits, field_value, is_digit, lemma_digits, lemma_digits_len, lemma_number_field_value,
    lemma_trim_end_of_padded, limit, number_field, pad_to, repeat, trim_end, SPACE,
};
use crate::builder::{name_offset, name_table, table_entry, table_marker, table_member};
use crate::header::{
    columns_fit, gnu_record, gnu_record_overflow, inline_len, inline_marker, inline_padding,
    is_gnu_long, needs_inline_name, record, record_len, record_overflow, terminator, trailer,
    HeaderView, NAME_WIDTH, NEWLINE, SLASH,
};
use crate::error::ArError;
use crate::record::{
    blank_header, classify, column, column_value, column_value_32, ends_table_name,
    is_bsd_symbols_name, name_column, parse_record, symdef, table_name,
    table_name_end, with_inline_name, with_metadata, NameForm, RecordView, Shape,
};

verus! {

/// The values of `limit` for the widths of the columns.
pub proof fn lemma_limits()
    ensures
        limit(10, 6) == 1_000_000,
        limit(10, 10) == 10_000_000_000,
        limit(10, 12) == 1_000_000_000_000,
        limit(10, 13) == 10_000_000_000_000,
        limit(10, 15) == 1_000_000_000_000_000,
        limit(8, 8) == 0o100_000_000,
{
    reveal_with_fuel(limit, 16);
}

/// A number below the limit of its column fills the column exactly, ends
/// in no space, and reads back as itself.
pub proof fn lemma_number_column(n: nat, radix: nat, width: nat)
    requires
        2 <= radix <= 10,
        width >= 1,
        n < limit(radix, width),
        n <= u64::MAX,
    ensures
        number_field(n, radix, width).len() == width,
        field_value(number_field(n, radix, width), radix) == Some(n as u64),
        trim_end(number_field(n, radix, width), SPACE) == digits(n, radix),
{
    reveal(number_field);
    lemma_digits_len(n, radix, width);
    lemma_number_field_value(n, radix, width);
    lemma_digits(n, radix);
    let d = digits(n, radix);
    assert(is_digit(d[d.len() - 1], radix));
    if d.len() >= width {
        lemma_trim_end_of_padded(d, 0, SPACE);
        assert(d + repeat(SPACE, 0) == d);
    } else {
        lemma_trim_end_of_padded(d, (width - d.len()) as nat, SPACE);
    }
}

/// The columns behind the name take forty-four bytes when the numbers fit,
/// and each reads back as the number that was written.
pub proof fn lemma_trailer_columns(h: HeaderView, declared: nat, name: Seq<u8>)
    requires
        columns_fit(h, declared),
        name.len() == NAME_WIDTH,
    ensures
        trailer(h, declared).len() == 44,
        (name + trailer(h, declared)).len() == 60,
        (name + trailer(h, declared)).subrange(0, 16) == name,
        (name + trailer(h, declared)).subrange(58, 60) == terminator(),
        column_value(name + trailer(h, declared), Column::Size) == Ok::<u64, crate::error::ArError>(
            declared as u64,
        ),
        forall|id: Seq<u8>, size: u64, shape: Shape, variant: Variant|
            #[trigger] with_metadata(name + trailer(h, declared), id, size, shape, variant) == Ok::<
                RecordView,
                crate::error::ArError,
            >(
                RecordView {
                    header: HeaderView {
                        identifier: id,
                        mtime: h.mtime,
                        uid: h.uid,
                        gid: h.gid,
                        mode: h.mode,
                        size,
                    },
                    shape,
                    variant,
                },
            ),
{
    lemma_limits();
    let f1 = number_field(h.mtime as nat, 10, 12);
    let f2 = number_field(h.uid as nat, 10, 6);
    let f3 = number_field(h.gid as nat, 10, 6);
    let f4 = number_field(h.mode as nat, 8, 8);
    let f5 = number_field(declared, 10, 10);
    lemma_number_column(h.mtime as nat, 10, 12);
    lemma_number_column(h.uid as nat, 10, 6);
    lemma_number_column(h.gid as nat, 10, 6);
    lemma_number_column(h.mode as nat, 8, 8);
    lemma_number_column(declared, 10, 10);
    let raw = name + trailer(h, declared);
    assert(trailer(h, declared) == f1 + f2 + f3 + f4 + f5 + terminator());
    assert(raw.len() == 60);
    assert(raw.subrange(0, 16) == name);
    assert(raw.subrange(16, 28) == f1);
    assert(raw.subrange(28, 34) == f2);
    assert(raw.subrange(34, 40) == f3);
    assert(raw.subrange(40, 48) == f4);
    assert(raw.subrange(48, 58) == f5);
    assert(raw.subrange(58, 60) == terminator());
    assert(column(raw, Column::Mtime) == f1);
    assert(column(raw, Column::Uid) == f2);
    assert(column(raw, Column::Gid) == f3);
    assert(column(raw, Column::Mode) == f4);
    assert(column(raw, Column::Size) == f5);
    assert(column_value(raw, Column::Mtime) == Ok::<u64, crate::error::ArError>(h.mtime));
    assert(column_value_32(raw, Column::Uid) == Ok::<u32, crate::error::ArError>(h.uid));
    assert(column_value_32(raw, Column::Gid) == Ok::<u32, crate::error::ArError>(h.gid));
    assert(column_value_32(raw, Column::Mode) == Ok::<u32, crate::error::ArError>(h.mode));
}

/// Whether the common and BSD writers store a header in a form that the
/// reader gives back unchanged.
///
/// A name kept in the name column must not look like one of the other
/// dialects: it must not begin or end with `/` nor begin with `#1/`. A name
/// stored in front of the payload must not end in a NUL byte, which would be
/// taken for padding. Neither may be a name of the BSD symbol table. And
/// the numbers must fit in their columns.
pub open spec fn portable(h: HeaderView) -> bool {
    let id = h.identifier;
    if needs_inline_name(id) {
        &&& id.last() != 0
        &&& !is_bsd_symbols_name(id)
        &&& columns_fit(h, (h.size + inline_len(id)) as nat)
    } else {
        &&& !(id.len() > 0 && id[0] == SLASH)
        &&& !(id.len() > 0 && id.last() == SLASH)
        &&& !starts_with(id, inline_marker())
        &&& !is_bsd_symbols_name(id)
        &&& columns_fit(h, h.size as nat)
    }
}

/// Whether the GNU writer stores a header in a form that the reader gives
/// back unchanged, where `offset` is the place of its name in the name
/// table `table`.
///
/// A short name must not be empty nor begin with `/`. A long name must
/// stand in the table at `offset`, which must fit in fifteen digits. And the
/// numbers must fit in their columns.
pub open spec fn gnu_portable(h: HeaderView, offset: nat, table: Seq<u8>) -> bool {
    let id = h.identifier;
    &&& columns_fit(h, h.size as nat)
    &&& if is_gnu_long(id) {
        &&& offset < 1_000_000_000_000_000
        &&& offset < table.len()
        &&& table_name(table, offset as int) == id
    } else {
        id.len() > 0 && id[0] != SLASH
    }
}

/// The record that the common writer makes for a portable header with a
/// short name is sixty bytes long and reads back as that header.
pub proof fn lemma_parse_plain_record(h: HeaderView, variant: Variant, table: Seq<u8>)
    requires
        portable(h),
        !needs_inline_name(h.identifier),
        !(variant is GNU),
    ensures
        record(h).len() == 60,
        parse_record(record(h), variant, table) == Ok::<RecordView, ArError>(
            RecordView { header: h, shape: Shape::Member, variant },
        ),
{
    reveal(parse_record);
    let id = h.identifier;
    let name = pad_to(id, NAME_WIDTH as nat, SPACE);
    assert(name.len() == 16);
    lemma_trailer_columns(h, h.size as nat, name);
    let raw = record(h);
    assert(raw == name + trailer(h, h.size as nat));
    assert(name_column(raw) == id) by {
        if id.len() > 0 {
            assert(id.last() != SPACE) by {
                if id.last() == SPACE {
                    assert(id[id.len() - 1] == SPACE);
                    assert(id.contains(SPACE));
                }
            }
        }
        if id.len() >= 16 {
            lemma_trim_end_of_padded(id, 0, SPACE);
            assert(id + repeat(SPACE, 0) == id);
        } else {
            lemma_trim_end_of_padded(id, (16 - id.len()) as nat, SPACE);
        }
    }
    assert(classify(id, variant) == Ok::<NameForm, ArError>(NameForm::Literal));
    assert(id != symdef());
}

/// The name column that announces an inline name of `n` bytes is sixteen
/// bytes wide, follows the BSD convention and gives `n` back.
pub proof fn lemma_inline_name_column(n: nat, variant: Variant)
    requires
        n < 10_000_000_000_000,
        !(variant is GNU),
    ensures
        (inline_marker() + number_field(n, 10, 13)).len() == 16,
        classify(trim_end(inline_marker() + number_field(n, 10, 13), SPACE), variant) == Ok::<
            NameForm,
            ArError,
        >(NameForm::BsdInline),
        field_value((inline_marker() + number_field(n, 10, 13)).subrange(3, 16), 10) == Some(
            n as u64,
        ),
{
    reveal(number_field);
    lemma_limits();
    lemma_number_column(n, 10, 13);
    lemma_digits(n, 10);
    let d = digits(n, 10);
    let name = inline_marker() + number_field(n, 10, 13);
    let text = inline_marker() + d;
    assert(is_digit(d[d.len() - 1], 10));
    assert(text.last() == d.last());
    assert(trim_end(name, SPACE) == text) by {
        if d.len() >= 13 {
            assert(number_field(n, 10, 13) == d);
            lemma_trim_end_of_padded(text, 0, SPACE);
            assert(text + repeat(SPACE, 0) == text);
        } else {
            let k = (13 - d.len()) as nat;
            assert(name == text + repeat(SPACE, k));
            lemma_trim_end_of_padded(text, k, SPACE);
        }
    }
    assert(text[0] == 0x23u8);
    assert(text.subrange(0, 3) == inline_marker());
    assert(name.subrange(3, 16) == number_field(n, 10, 13));
}

/// The record that the BSD writer makes for a portable header with an
/// inline name: its first sixty bytes read as a member that announces the
/// name, the name follows with its padding, and with the name filled in the
/// record is that of the header.
pub proof fn lemma_parse_inline_record(h: HeaderView, variant: Variant, table: Seq<u8>)
    requires
        portable(h),
        needs_inline_name(h.identifier),
        !(variant is GNU),
    ensures
        inline_len(h.identifier) <= u64::MAX,
        record(h).len() == 60 + inline_len(h.identifier),
        parse_record(record(h).subrange(0, 60), variant, table) == Ok::<RecordView, ArError>(
            RecordView {
                header: HeaderView { identifier: Seq::empty(), ..h },
                shape: Shape::InlineName { name_len: inline_len(h.identifier) as u64 },
                variant: Variant::BSD,
            },
        ),
        with_inline_name(
            RecordView {
                header: HeaderView { identifier: Seq::empty(), ..h },
                shape: Shape::InlineName { name_len: inline_len(h.identifier) as u64 },
                variant: Variant::BSD,
            },
            record(h).subrange(60, 60 + inline_len(h.identifier) as int),
        ) == (RecordView { header: h, shape: Shape::Member, variant: Variant::BSD }),
{
    reveal(parse_record);
    let id = h.identifier;
    let n = inline_len(id);
    let declared = (h.size + n) as nat;
    let name = inline_marker() + number_field(n, 10, 13);
    let head = name + trailer(h, declared);
    let stored = id + repeat(0u8, inline_padding(id.len()));
    lemma_inline_name_column(n, variant);
    lemma_trailer_columns(h, declared, name);
    assert(record(h) == head + stored) by {
        assert(record(h) == head + id + repeat(0u8, inline_padding(id.len())));
    }
    assert(record(h).subrange(0, 60) == head);
    assert(record(h).subrange(60, 60 + n as int) == stored);
    assert(trim_end(stored, 0u8) == id) by {
        lemma_trim_end_of_padded(id, inline_padding(id.len()), 0u8);
    }
    assert(name_column(head) == trim_end(name, SPACE));
    assert(column(head, Column::NameLength) == name.subrange(3, 16)) by {
        assert(head.subrange(3, 16) == name.subrange(3, 16));
    }
    assert(column_value(head, Column::NameLength) == Ok::<u64, ArError>(n as u64));
    let first = RecordView {
        header: HeaderView { identifier: Seq::empty(), ..h },
        shape: Shape::InlineName { name_len: n as u64 },
        variant: Variant::BSD,
    };
    assert(with_metadata(
        head,
        Seq::empty(),
        h.size,
        Shape::InlineName { name_len: n as u64 },
        Variant::BSD,
    ) == Ok::<RecordView, ArError>(first));
    assert(parse_record(head, variant, table) == Ok::<RecordView, ArError>(first));
}

/// The record that the GNU writer makes for a portable header is sixty
/// bytes long and reads back as that header.
pub proof fn lemma_parse_gnu_record(h: HeaderView, offset: nat, variant: Variant, table: Seq<u8>)
    requires
        gnu_portable(h, offset, table),
        !(variant is BSD),
    ensures
        gnu_record(h, offset).len() == 60,
        parse_record(gnu_record(h, offset), variant, table) == Ok::<RecordView, ArError>(
            RecordView { header: h, shape: Shape::Member, variant: Variant::GNU },
        ),
{
    reveal(parse_record);
    reveal(number_field);
    let id = h.identifier;
    lemma_limits();
    if is_gnu_long(id) {
        lemma_number_column(offset, 10, 15);
        lemma_digits(offset, 10);
        let d = digits(offset, 10);
        let name = seq![SLASH] + number_field(offset, 10, 15);
        assert(name.len() == 16);
        lemma_trailer_columns(h, h.size as nat, name);
        let raw = gnu_record(h, offset);
        assert(raw == name + trailer(h, h.size as nat));
        let text = seq![SLASH] + d;
        assert(is_digit(d[d.len() - 1], 10));
        assert(is_digit(d[0], 10));
        assert(text.last() == d.last());
        assert(name_column(raw) == text) by {
            if d.len() >= 15 {
                assert(number_field(offset, 10, 15) == d);
                lemma_trim_end_of_padded(text, 0, SPACE);
                assert(text + repeat(SPACE, 0) == text);
            } else {
                let k = (15 - d.len()) as nat;
                assert(name == text + repeat(SPACE, k));
                lemma_trim_end_of_padded(text, k, SPACE);
            }
        }
        assert(text[0] == SLASH);
        assert(text[1] == d[0]);
        assert(classify(text, variant) == Ok::<NameForm, ArError>(NameForm::GnuReference));
        assert(column(raw, Column::NameOffset) == number_field(offset, 10, 15)) by {
            assert(raw.subrange(1, 16) == number_field(offset, 10, 15));
        }
        assert(column_value(raw, Column::NameOffset) == Ok::<u64, ArError>(offset as u64));
    } else {
        let text = id.push(SLASH);
        let name = pad_to(text, NAME_WIDTH as nat, SPACE);
        assert(name.len() == 16);
        lemma_trailer_columns(h, h.size as nat, name);
        let raw = gnu_record(h, offset);
        assert(raw == name + trailer(h, h.size as nat));
        assert(name_column(raw) == text) by {
            if text.len() >= 16 {
                lemma_trim_end_of_padded(text, 0, SPACE);
                assert(text + repeat(SPACE, 0) == text);
            } else {
                lemma_trim_end_of_padded(text, (16 - text.len()) as nat, SPACE);
            }
        }
        assert(text[0] == id[0]);
        assert(classify(text, variant) == Ok::<NameForm, ArError>(NameForm::GnuShort));
        assert(text.drop_last() == id);
    }
}

/// The record in front of a GNU name table.
pub open spec fn table_record(table_len: nat) -> Seq<u8> {
    pad_to(table_marker(), 48, SPACE) + number_field(table_len, 10, 10) + terminator()
}

/// The record that the GNU writer puts in front of the name table is sixty
/// bytes long and reads as the name table with the size that was written.
pub proof fn lemma_parse_table_record(table_len: nat, variant: Variant, table: Seq<u8>)
    requires
        table_len < 10_000_000_000,
        !(variant is BSD),
    ensures
        table_record(table_len).len() == 60,
        parse_record(table_record(table_len), variant, table) == Ok::<RecordView, ArError>(
            RecordView {
                header: blank_header(table_marker(), table_len as u64),
                shape: Shape::NameTable,
                variant: Variant::GNU,
            },
        ),
{
    reveal(parse_record);
    lemma_limits();
    lemma_number_column(table_len, 10, 10);
    let raw = table_record(table_len);
    let front = pad_to(table_marker(), 48, SPACE);
    assert(front == table_marker() + repeat(SPACE, 46));
    assert(raw.len() == 60);
    assert(raw.subrange(58, 60) == terminator());
    assert(raw.subrange(48, 58) == number_field(table_len, 10, 10));
    assert(raw.subrange(0, 16) == table_marker() + repeat(SPACE, 14));
    assert(name_column(raw) == table_marker()) by {
        lemma_trim_end_of_padded(table_marker(), 14, SPACE);
    }
    assert(classify(table_marker(), variant) == Ok::<NameForm, ArError>(NameForm::GnuTable));
}

/// The end of a name in the GNU name table is the first byte behind its
/// start that ends a name.
pub proof fn lemma_table_name_end(table: Seq<u8>, from: int, end: int)
    requires
        0 <= from <= end < table.len(),
        forall|j: int| from <= j < end ==> !ends_table_name(#[trigger] table[j]),
        ends_table_name(table[end]),
    ensures
        table_name_end(table, from) == end,
    decreases end - from,
{
    if from < end {
        assert(!ends_table_name(table[from]));
        lemma_table_name_end(table, from + 1, end);
    }
}

/// The name table of a list of identifiers holds every long identifier of
/// the list that has no `/` and no newline in it at the offset that the
/// writer puts in the record, and from there the reader takes it whole.
pub proof fn lemma_table_holds_name(identifiers: Seq<Seq<u8>>, id: Seq<u8>)
    requires
        identifiers.contains(id),
        is_gnu_long(id),
        forall|i: int| 0 <= i < id.len() ==> !ends_table_name(#[trigger] id[i]),
    ensures
        name_offset(identifiers, id) + id.len() + 2 <= name_table(identifiers).len(),
        table_name(name_table(identifiers), name_offset(identifiers, id) as int) == id,
    decreases identifiers.len(),
{
    let table = name_table(identifiers);
    let first = identifiers.first();
    let rest = identifiers.drop_first();
    let k = choose|k: int| 0 <= k < identifiers.len() && identifiers[k] == id;
    assert(identifiers.len() > 0);
    assert(table == table_entry(first) + name_table(rest));
    if first == id {
        let entry = id + seq![SLASH, NEWLINE];
        assert(table_entry(id) == entry);
        assert forall|j: int| 0 <= j < id.len() implies !ends_table_name(#[trigger] table[j]) by {
            assert(table[j] == id[j]);
        }
        assert(table[id.len() as int] == SLASH);
        lemma_table_name_end(table, 0, id.len() as int);
        assert(table.subrange(0, id.len() as int) == id);
    } else {
        assert(rest[k - 1] == id);
        lemma_table_holds_name(rest, id);
        let shift = table_entry(first).len() as int;
        let inner = name_table(rest);
        let at = name_offset(rest, id) as int;
        assert(name_offset(identifiers, id) == shift + at);
        lemma_table_name_end_is(inner, at, id);
        assert(inner.subrange(at, at + id.len()) == id);
        assert forall|j: int| shift + at <= j < shift + at + id.len() implies !ends_table_name(
            #[trigger] table[j],
        ) by {
            assert(table[j] == inner[j - shift]);
            assert(inner.subrange(at, at + id.len())[j - shift - at] == id[j - shift - at]);
        }
        assert(table[shift + at + id.len()] == inner[at + id.len()]);
        lemma_table_name_end(table, shift + at, shift + at + id.len());
        assert(table.subrange(shift + at, shift + at + id.len()) == inner.subrange(
            at,
            at + id.len(),
        ));
    }
}

/// Where the reader takes a name without `/` or newline from the name
/// table, the name ends where a byte ends it.
pub proof fn lemma_table_name_end_is(table: Seq<u8>, at: int, id: Seq<u8>)
    requires
        0 <= at,
        at + id.len() < table.len(),
        table_name(table, at) == id,
        forall|i: int| 0 <= i < id.len() ==> !ends_table_name(#[trigger] id[i]),
    ensures
        table_name_end(table, at) == at + id.len(),
        ends_table_name(table[at + id.len()]),
{
    lemma_table_name_end_bounds(table, at);
    let end = table_name_end(table, at);
    assert(table.subrange(at, end).len() == id.len());
}

/// The end of a name in the name table lies between its start and the end
/// of the table, and where it lies within the table a byte ends the name
/// there.
pub proof fn lemma_table_name_end_bounds(table: Seq<u8>, from: int)
    requires
        0 <= from <= table.len(),
    ensures
        from <= table_name_end(table, from) <= table.len(),
        table_name_end(table, from) < table.len() ==> ends_table_name(
            table[table_name_end(table, from)],
        ),
    decreases table.len() - from,
{
    if from < table.len() && !ends_table_name(table[from]) {
        lemma_table_name_end_bounds(table, from + 1);
    }
}

/// The columns behind the name take forty-four bytes when the numbers
/// fit.
pub proof fn lemma_trailer_len(h: HeaderView, declared: nat)
    requires
        columns_fit(h, declared),
    ensures
        trailer(h, declared).len() == 44,
{
    lemma_limits();
    lemma_number_column(h.mtime as nat, 10, 12);
    lemma_number_column(h.uid as nat, 10, 6);
    lemma_number_column(h.gid as nat, 10, 6);
    lemma_number_column(h.mode as nat, 8, 8);
    lemma_number_column(declared, 10, 10);
}

/// What the common and BSD writers emit for a header whose numbers fit is
/// sixty bytes long, and longer by the bytes of an inline name.
pub proof fn lemma_record_len(h: HeaderView)
    requires
        record_overflow(h) is None,
    ensures
        record(h).len() == record_len(h),
{
    if needs_inline_name(h.identifier) {
        let n = inline_len(h.identifier);
        lemma_limits();
        lemma_number_column(n, 10, 13);
        lemma_trailer_len(h, (h.size + n) as nat);
    } else {
        lemma_trailer_len(h, h.size as nat);
    }
}

/// What the GNU writer emits for a header whose numbers fit is sixty bytes
/// long.
pub proof fn lemma_gnu_record_len(h: HeaderView, offset: nat)
    requires
        gnu_record_overflow(h, offset) is None,
    ensures
        gnu_record(h, offset).len() == 60,
{
    lemma_trailer_len(h, h.size as nat);
    if is_gnu_long(h.identifier) {
        lemma_limits();
        lemma_number_column(offset, 10, 15);
    }
}

/// The member of a name table that fits the size column of its record
/// takes sixty bytes for the record, the table and its padding.
pub proof fn lemma_table_member_len(table: Seq<u8>)
    requires
        table.len() < 10_000_000_000,
    ensures
        table_member(table).len() == 60 + table.len() + table.len() % 2,
{
    lemma_limits();
    lemma_number_column(table.len(), 10, 10);
    assert(pad_to(table_marker(), 48, SPACE) == table_marker() + repeat(SPACE, 46));
}

} // verus!
