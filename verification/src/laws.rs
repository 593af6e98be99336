//! What holds of the writers and the reader together.

use vstd::prelude::*;
use crate::archive::{
    find_member, fresh, locate, moved_past, next, payload_of, record_start, ArchiveView, Located,
    Variant,
};
use crate::builder::{
    append_outcome, appended, global_header, gnu_append_outcome, gnu_appended, gnu_preamble,
    lemma_even_sum, lemma_gnu_preamble_even, lemma_record_len_even, name_offset, name_table,
    parity_pad, payload_and_pad, preamble, table_marker, table_member, Member,
};
use crate::bytes::starts_with;
use crate::entry::{read_len, seek_outcome, seek_target, EntryView, SeekFrom};
use crate::error::ArError;
use crate::field::SPACE;
use crate::header::{
    columns_fit, gnu_record, inline_len, inline_marker, is_gnu_long, needs_inline_name, record,
    record_len, HeaderView, NEWLINE, SLASH,
};
use crate::layout::{
    gnu_portable, lemma_gnu_record_len, lemma_record_len, lemma_parse_gnu_record, lemma_parse_inline_record,
    lemma_parse_plain_record, lemma_parse_table_record, lemma_table_holds_name, portable,
    table_record,
};
use crate::record::{
    blank_header, ends_table_name, parse_record, table_name, with_inline_name, RecordView, Shape,
};

verus! {

/// The entry that the reader yields for a member: header and payload as
/// they were handed to the writer, the cursor at the first byte.
pub open spec fn entry_of(m: Member) -> EntryView {
    EntryView { header: m.header, payload: m.payload, position: 0 }
}

/// Whether a member can be written by [`crate::Builder`] and read back
/// unchanged: the payload has the size that the header declares, and the
/// header is portable.
pub open spec fn round_trips(m: Member) -> bool {
    m.payload.len() == m.header.size && portable(m.header)
}

/// The bytes of one member in the common and BSD dialects: record, payload
/// and padding.
pub open spec fn member_bytes(m: Member) -> Seq<u8> {
    record(m.header) + m.payload + parity_pad(m.payload.len())
}

/// The bytes of a list of members, one behind the other.
pub open spec fn members_bytes(ms: Seq<Member>) -> Seq<u8>
    decreases ms.len(),
{
    if ms.len() == 0 {
        Seq::empty()
    } else {
        member_bytes(ms.first()) + members_bytes(ms.drop_first())
    }
}

/// What a [`crate::Builder`] made over an empty sink has written after the
/// members of the list have been appended in order.
pub open spec fn written(ms: Seq<Member>) -> Seq<u8>
    decreases ms.len(),
{
    if ms.len() == 0 {
        Seq::empty()
    } else {
        appended(written(ms.drop_last()), ms.len() > 1, ms.last())
    }
}

/// The state of a reader after `k` calls of `next_entry`.
pub open spec fn after(a: ArchiveView, k: nat) -> ArchiveView
    decreases k,
{
    if k == 0 {
        a
    } else {
        after(next(a).0, (k - 1) as nat)
    }
}

/// What call number `k` of `next_entry` yields, counting from zero.
pub open spec fn nth_yield(a: ArchiveView, k: nat) -> Option<Result<EntryView, ArError>> {
    next(after(a, k)).1
}

/// Whether a reader stands ready to read a record at `p`: it has not
/// failed, and either it has come to `p`, or it has come to the padding
/// byte in front of `p`, or it has yet to read the archive magic that ends
/// at `p`.
pub open spec fn poised(a: ArchiveView, p: int) -> bool {
    &&& !a.failed
    &&& 0 <= p <= a.data.len()
    &&& {
        ||| a.started && !a.pad_due && a.offset == p
        ||| a.started && a.pad_due && a.offset + 1 == p && a.data[a.offset as int] == NEWLINE
        ||| !a.started && !a.pad_due && a.offset + 8 == p && a.data.subrange(
            a.offset as int,
            p,
        ) == global_header()
    }
}

/// Appending a member to a list appends its bytes.
pub proof fn lemma_members_bytes_push(ms: Seq<Member>, m: Member)
    ensures
        members_bytes(ms.push(m)) == members_bytes(ms) + member_bytes(m),
    decreases ms.len(),
{
    let all = ms.push(m);
    if ms.len() == 0 {
        assert(all.first() == m);
        assert(all.drop_first() == Seq::<Member>::empty());
        assert(members_bytes(all.drop_first()) == Seq::<u8>::empty());
        assert(members_bytes(all) == member_bytes(m) + Seq::<u8>::empty());
        assert(members_bytes(ms) + member_bytes(m) == member_bytes(m));
        assert(member_bytes(m) + Seq::<u8>::empty() == member_bytes(m));
    } else {
        assert(all.first() == ms.first());
        assert(all.drop_first() == ms.drop_first().push(m));
        lemma_members_bytes_push(ms.drop_first(), m);
        assert(member_bytes(ms.first()) + (members_bytes(ms.drop_first()) + member_bytes(m)) == (
        member_bytes(ms.first()) + members_bytes(ms.drop_first())) + member_bytes(m));
    }
}

/// What a builder has written for a list of members whose payloads have the
/// declared sizes is the archive magic followed by the members.
pub proof fn lemma_written(ms: Seq<Member>)
    requires
        ms.len() > 0,
        forall|i: int| 0 <= i < ms.len() ==> (#[trigger] ms[i]).payload.len() == ms[i].header.size,
    ensures
        written(ms) == global_header() + members_bytes(ms),
    decreases ms.len(),
{
    let last = ms.last();
    let front = ms.drop_last();
    assert(ms == front.push(last));
    lemma_members_bytes_push(front, last);
    assert(payload_and_pad(last.header.size, last.payload) == last.payload + parity_pad(
        last.payload.len(),
    ));
    let tail = record(last.header) + last.payload + parity_pad(last.payload.len());
    if ms.len() == 1 {
        assert(written(front) == Seq::<u8>::empty());
        assert(members_bytes(front) == Seq::<u8>::empty());
        assert(written(ms) == Seq::<u8>::empty() + global_header() + record(last.header) + (
        last.payload + parity_pad(last.payload.len())));
        assert(written(ms) == global_header() + tail);
        assert(members_bytes(ms) == tail);
    } else {
        assert forall|i: int| 0 <= i < front.len() implies (#[trigger] front[i]).payload.len()
            == front[i].header.size by {
            assert(front[i] == ms[i]);
        }
        lemma_written(front);
        let before = global_header() + members_bytes(front);
        assert(written(ms) == before + Seq::<u8>::empty() + record(last.header) + (last.payload
            + parity_pad(last.payload.len())));
        assert(written(ms) == before + tail);
        assert(before + tail == global_header() + (members_bytes(front) + tail));
    }
}

/// A reader that has yet to read the archive magic does first that and
/// then what a reader does that has read it.
pub proof fn lemma_next_reads_magic(a: ArchiveView, p: int)
    requires
        poised(a, p),
        !a.started,
    ensures
        next(a) == next(ArchiveView { started: true, offset: p as nat, ..a }),
        poised(ArchiveView { started: true, offset: p as nat, ..a }, p),
{
    reveal(next);
}

/// At the end of the archive the reader yields nothing and stays there.
pub proof fn lemma_next_at_end(a: ArchiveView)
    requires
        poised(a, a.data.len() as int),
    ensures
        next(a).1 is None,
        poised(next(a).0, a.data.len() as int),
        next(a).0.data == a.data,
        next(a).0.variant == a.variant,
{
    reveal(next);
    if !a.started {
        lemma_next_reads_magic(a, a.data.len() as int);
        let b = ArchiveView { started: true, offset: a.data.len(), ..a };
        assert(record_start(b) == Ok::<nat, ArError>(a.data.len()));
    } else {
        assert(record_start(a) == Ok::<nat, ArError>(a.data.len()));
    }
}

/// The length of the bytes of a member that round-trips.
pub open spec fn member_len(m: Member) -> nat {
    let name = if needs_inline_name(m.header.identifier) {
        inline_len(m.header.identifier)
    } else {
        0
    };
    (60 + name + m.payload.len() + m.payload.len() % 2) as nat
}

/// What the reader finds where the bytes of a member that round-trips
/// begin at `p`.
pub open spec fn found_member(a: ArchiveView, p: int, m: Member) -> Located {
    Located {
        record: RecordView {
            header: m.header,
            shape: Shape::Member,
            variant: if needs_inline_name(m.header.identifier) {
                Variant::BSD
            } else {
                a.variant
            },
        },
        body: (p + member_len(m) - m.payload.len() - m.payload.len() % 2) as nat,
        odd: m.payload.len() % 2 == 1,
    }
}

/// The member with a name in the name column.
proof fn lemma_find_plain_member(a: ArchiveView, p: int, m: Member)
    requires
        0 <= p,
        !(a.variant is GNU),
        round_trips(m),
        !needs_inline_name(m.header.identifier),
        p + member_bytes(m).len() <= a.data.len(),
        a.data.subrange(p, p + member_bytes(m).len()) == member_bytes(m),
    ensures
        find_member(a, p as nat) == Ok::<Option<Located>, ArError>(Some(found_member(a, p, m))),
        a.data.subrange(p + 60, p + 60 + m.payload.len()) == m.payload,
        m.payload.len() % 2 == 1 ==> a.data[p + 60 + m.payload.len()] == NEWLINE,
        member_bytes(m).len() == 60 + m.payload.len() + m.payload.len() % 2,
{
    let h = m.header;
    let bytes = member_bytes(m);
    let size = m.payload.len() as int;
    lemma_parse_plain_record(h, a.variant, a.table);
    assert(bytes.len() == 60 + size + size % 2);
    let raw = a.data.subrange(p, p + 60);
    assert(raw == bytes.subrange(0, 60));
    assert(bytes.subrange(0, 60) == record(h));
    let done = RecordView { header: h, shape: Shape::Member, variant: a.variant };
    assert(parse_record(raw, a.variant, a.table) == Ok::<RecordView, ArError>(done));
    let odd = size % 2 == 1;
    let found = Located { record: done, body: (p + 60) as nat, odd };
    assert(locate(a.data, p as nat, done) == Ok::<Located, ArError>(found));
    let payload = a.data.subrange(p + 60, p + 60 + size);
    assert(payload == bytes.subrange(60, 60 + size));
    assert(bytes.subrange(60, 60 + size) == m.payload);
    if odd {
        assert(a.data[p + 60 + size] == bytes[60 + size]);
        assert(bytes[60 + size] == NEWLINE);
    }
    assert(found == found_member(a, p, m));
    assert(find_member(a, p as nat) == Ok::<Option<Located>, ArError>(Some(found)));
}

/// The member with a name in front of the payload.
proof fn lemma_find_inline_member(a: ArchiveView, p: int, m: Member)
    requires
        0 <= p,
        !(a.variant is GNU),
        round_trips(m),
        needs_inline_name(m.header.identifier),
        p + member_bytes(m).len() <= a.data.len(),
        a.data.subrange(p, p + member_bytes(m).len()) == member_bytes(m),
    ensures
        find_member(a, p as nat) == Ok::<Option<Located>, ArError>(Some(found_member(a, p, m))),
        a.data.subrange(
            p + 60 + inline_len(m.header.identifier),
            p + 60 + inline_len(m.header.identifier) + m.payload.len(),
        ) == m.payload,
        m.payload.len() % 2 == 1 ==> a.data[p + 60 + inline_len(m.header.identifier)
            + m.payload.len()] == NEWLINE,
        member_bytes(m).len() == 60 + inline_len(m.header.identifier) + m.payload.len()
            + m.payload.len() % 2,
{
    let h = m.header;
    let bytes = member_bytes(m);
    let size = m.payload.len() as int;
    let n = inline_len(h.identifier) as int;
    lemma_parse_inline_record(h, a.variant, a.table);
    assert(bytes.len() == 60 + n + size + size % 2);
    let raw = a.data.subrange(p, p + 60);
    assert(raw == bytes.subrange(0, 60));
    assert(bytes.subrange(0, 60) == record(h).subrange(0, 60));
    let first = RecordView {
        header: HeaderView { identifier: Seq::empty(), ..h },
        shape: Shape::InlineName { name_len: n as u64 },
        variant: Variant::BSD,
    };
    assert(parse_record(raw, a.variant, a.table) == Ok::<RecordView, ArError>(first));
    let named = a.data.subrange(p + 60, p + 60 + n);
    assert(named == bytes.subrange(60, 60 + n));
    assert(bytes.subrange(60, 60 + n) == record(h).subrange(60, 60 + n));
    let done = RecordView { header: h, shape: Shape::Member, variant: Variant::BSD };
    assert(with_inline_name(first, named) == done);
    let body = p + 60 + n;
    assert(n % 2 == 0);
    let odd = size % 2 == 1;
    let found = Located { record: done, body: body as nat, odd };
    assert(locate(a.data, p as nat, first) == Ok::<Located, ArError>(found));
    let payload = a.data.subrange(body, body + size);
    assert(payload == bytes.subrange(60 + n, 60 + n + size));
    assert(bytes.subrange(60 + n, 60 + n + size) == m.payload);
    if odd {
        assert(a.data[body + size] == bytes[60 + n + size]);
        assert(bytes[60 + n + size] == NEWLINE);
    }
    assert(found == found_member(a, p, m));
    assert(find_member(a, p as nat) == Ok::<Option<Located>, ArError>(Some(found)));
}

/// Where the bytes of a member that round-trips begin at `p`, the reader
/// finds the member there: the header as it was written, the payload behind
/// the record and the inline name, and the parity of the payload.
pub proof fn lemma_find_member(a: ArchiveView, p: int, m: Member)
    requires
        0 <= p,
        !(a.variant is GNU),
        round_trips(m),
        p + member_bytes(m).len() <= a.data.len(),
        a.data.subrange(p, p + member_bytes(m).len()) == member_bytes(m),
    ensures
        find_member(a, p as nat) == Ok::<Option<Located>, ArError>(Some(found_member(a, p, m))),
        a.data.subrange(
            p + member_len(m) - m.payload.len() - m.payload.len() % 2,
            p + member_len(m) - m.payload.len() % 2,
        ) == m.payload,
        m.payload.len() % 2 == 1 ==> a.data[p + member_len(m) - 1] == NEWLINE,
        member_bytes(m).len() == member_len(m),
{
    if needs_inline_name(m.header.identifier) {
        lemma_find_inline_member(a, p, m);
    } else {
        lemma_find_plain_member(a, p, m);
    }
}

/// A reader that has started and stands in front of the bytes of a member
/// yields that member and then stands behind it.
proof fn lemma_next_member_started(a: ArchiveView, p: int, m: Member)
    requires
        poised(a, p),
        a.started,
        !(a.variant is GNU),
        round_trips(m),
        p + member_bytes(m).len() <= a.data.len(),
        a.data.subrange(p, p + member_bytes(m).len()) == member_bytes(m),
    ensures
        next(a).1 == Some(Ok::<EntryView, ArError>(entry_of(m))),
        poised(next(a).0, p + member_bytes(m).len()),
        !(next(a).0.variant is GNU),
        next(a).0.data == a.data,
{
    lemma_find_member(a, p, m);
    assert(record_start(a) == Ok::<nat, ArError>(p as nat));
    reveal(next);
}

/// A reader that stands in front of the bytes of a member yields that
/// member and then stands behind it.
pub proof fn lemma_next_member(a: ArchiveView, p: int, m: Member)
    requires
        poised(a, p),
        !(a.variant is GNU),
        round_trips(m),
        p + member_bytes(m).len() <= a.data.len(),
        a.data.subrange(p, p + member_bytes(m).len()) == member_bytes(m),
    ensures
        next(a).1 == Some(Ok::<EntryView, ArError>(entry_of(m))),
        poised(next(a).0, p + member_bytes(m).len()),
        !(next(a).0.variant is GNU),
        next(a).0.data == a.data,
{
    if a.started {
        lemma_next_member_started(a, p, m);
    } else {
        lemma_next_reads_magic(a, p);
        let b = ArchiveView { started: true, offset: p as nat, ..a };
        lemma_next_member_started(b, p, m);
    }
}

/// A reader that stands in front of the bytes of a list of members, with
/// nothing behind them, yields the members in order and then nothing.
pub proof fn lemma_reads_members(a: ArchiveView, p: int, ms: Seq<Member>, k: nat)
    requires
        poised(a, p),
        !(a.variant is GNU),
        forall|i: int| 0 <= i < ms.len() ==> round_trips(#[trigger] ms[i]),
        a.data.subrange(p, a.data.len() as int) == members_bytes(ms),
        k <= ms.len(),
    ensures
        nth_yield(a, k) == if k < ms.len() {
            Some(Ok::<EntryView, ArError>(entry_of(ms[k as int])))
        } else {
            None
        },
    decreases ms.len(),
{
    if ms.len() == 0 {
        assert(a.data.subrange(p, a.data.len() as int).len() == 0);
        assert(p == a.data.len());
        lemma_next_at_end(a);
    } else {
        let m = ms.first();
        let rest = ms.drop_first();
        let total = member_bytes(m).len() as int;
        let tail = a.data.subrange(p, a.data.len() as int);
        assert(tail == member_bytes(m) + members_bytes(rest));
        assert(a.data.subrange(p, p + total) == tail.subrange(0, total));
        assert(tail.subrange(0, total) == member_bytes(m));
        lemma_next_member(a, p, m);
        if k > 0 {
            let b = next(a).0;
            assert(b.data.subrange(p + total, b.data.len() as int) == tail.subrange(
                total,
                tail.len() as int,
            ));
            assert(tail.subrange(total, tail.len() as int) == members_bytes(rest));
            assert forall|i: int| 0 <= i < rest.len() implies round_trips(#[trigger] rest[i]) by {
                assert(rest[i] == ms[i + 1]);
            }
            lemma_reads_members(b, p + total, rest, (k - 1) as nat);
            assert(after(a, k) == after(b, (k - 1) as nat));
            if k < ms.len() {
                assert(rest[k - 1] == ms[k as int]);
            }
        }
    }
}

/// Round trip. What a [`crate::Builder`] has written over an empty sink for
/// a list of at least one member, each with a portable header and a
/// payload of the declared size, a [`crate::Archive`] reads back member by
/// member: call number `k` of `next_entry` yields member `k` with the
/// header and the payload that were appended, and the call after the last
/// member yields nothing.
pub proof fn law_round_trip(ms: Seq<Member>, k: nat)
    requires
        ms.len() > 0,
        forall|i: int| 0 <= i < ms.len() ==> round_trips(#[trigger] ms[i]),
        k <= ms.len(),
    ensures
        nth_yield(fresh(written(ms)), k) == if k < ms.len() {
            Some(Ok::<EntryView, ArError>(entry_of(ms[k as int])))
        } else {
            None
        },
{
    lemma_written(ms);
    let data = written(ms);
    let a = fresh(data);
    assert(data.subrange(0, 8) == global_header());
    assert(data.subrange(8, data.len() as int) == members_bytes(ms));
    lemma_reads_members(a, 8, ms, k);
}

/// Whether a member can be written by a [`crate::GnuBuilder`] that accepts
/// `identifiers` and read back unchanged: the payload has the size that the
/// header declares, the builder accepts the identifier, the numbers fit in
/// their columns, a short name is not empty and does not begin with `/`,
/// and a long name holds neither `/` nor newline and lies at an offset of
/// at most fifteen digits.
pub open spec fn gnu_round_trips(identifiers: Seq<Seq<u8>>, m: Member) -> bool {
    let id = m.header.identifier;
    &&& m.payload.len() == m.header.size
    &&& identifiers.contains(id)
    &&& columns_fit(m.header, m.header.size as nat)
    &&& if is_gnu_long(id) {
        &&& forall|i: int| 0 <= i < id.len() ==> !ends_table_name(#[trigger] id[i])
        &&& name_offset(identifiers, id) < 1_000_000_000_000_000
    } else {
        id.len() > 0 && id[0] != SLASH
    }
}

/// The bytes of one member in the GNU dialect: record, payload and padding.
pub open spec fn gnu_member_bytes(identifiers: Seq<Seq<u8>>, m: Member) -> Seq<u8> {
    gnu_record(m.header, name_offset(identifiers, m.header.identifier)) + m.payload + parity_pad(
        m.payload.len(),
    )
}

/// The bytes of a list of members in the GNU dialect, one behind the other.
pub open spec fn gnu_members_bytes(identifiers: Seq<Seq<u8>>, ms: Seq<Member>) -> Seq<u8>
    decreases ms.len(),
{
    if ms.len() == 0 {
        Seq::empty()
    } else {
        gnu_member_bytes(identifiers, ms.first()) + gnu_members_bytes(identifiers, ms.drop_first())
    }
}

/// What a [`crate::GnuBuilder`] made over an empty sink for `identifiers`
/// has written after the members of the list have been appended in order.
pub open spec fn gnu_written(identifiers: Seq<Seq<u8>>, ms: Seq<Member>) -> Seq<u8>
    decreases ms.len(),
{
    if ms.len() == 0 {
        Seq::empty()
    } else {
        gnu_appended(
            gnu_written(identifiers, ms.drop_last()),
            ms.len() > 1,
            identifiers,
            ms.last(),
        )
    }
}

/// Appending a member to a list appends its bytes.
pub proof fn lemma_gnu_members_bytes_push(identifiers: Seq<Seq<u8>>, ms: Seq<Member>, m: Member)
    ensures
        gnu_members_bytes(identifiers, ms.push(m)) == gnu_members_bytes(identifiers, ms)
            + gnu_member_bytes(identifiers, m),
    decreases ms.len(),
{
    let all = ms.push(m);
    let one = gnu_member_bytes(identifiers, m);
    if ms.len() == 0 {
        assert(all.first() == m);
        assert(all.drop_first() == Seq::<Member>::empty());
        assert(gnu_members_bytes(identifiers, all.drop_first()) == Seq::<u8>::empty());
        assert(gnu_members_bytes(identifiers, all) == one + Seq::<u8>::empty());
        assert(gnu_members_bytes(identifiers, ms) + one == one);
        assert(one + Seq::<u8>::empty() == one);
    } else {
        assert(all.first() == ms.first());
        assert(all.drop_first() == ms.drop_first().push(m));
        lemma_gnu_members_bytes_push(identifiers, ms.drop_first(), m);
        let head = gnu_member_bytes(identifiers, ms.first());
        let mid = gnu_members_bytes(identifiers, ms.drop_first());
        assert(head + (mid + one) == (head + mid) + one);
    }
}

/// What a GNU builder has written for a list of members that it accepts and
/// whose payloads have the declared sizes is the archive magic, the member
/// of the name table where there are long names, and the members.
pub proof fn lemma_gnu_written(identifiers: Seq<Seq<u8>>, ms: Seq<Member>)
    requires
        ms.len() > 0,
        forall|i: int| 0 <= i < ms.len() ==> (#[trigger] ms[i]).payload.len() == ms[i].header.size,
    ensures
        gnu_written(identifiers, ms) == gnu_preamble(false, identifiers) + gnu_members_bytes(
            identifiers,
            ms,
        ),
    decreases ms.len(),
{
    let last = ms.last();
    let front = ms.drop_last();
    assert(ms == front.push(last));
    lemma_gnu_members_bytes_push(identifiers, front, last);
    assert(payload_and_pad(last.header.size, last.payload) == last.payload + parity_pad(
        last.payload.len(),
    ));
    let rec = gnu_record(last.header, name_offset(identifiers, last.header.identifier));
    let tail = rec + last.payload + parity_pad(last.payload.len());
    assert(tail == gnu_member_bytes(identifiers, last));
    let open = gnu_preamble(false, identifiers);
    if ms.len() == 1 {
        assert(gnu_written(identifiers, front) == Seq::<u8>::empty());
        assert(gnu_members_bytes(identifiers, front) == Seq::<u8>::empty());
        assert(gnu_written(identifiers, ms) == Seq::<u8>::empty() + open + rec + (last.payload
            + parity_pad(last.payload.len())));
        assert(gnu_written(identifiers, ms) == open + tail);
        assert(gnu_members_bytes(identifiers, ms) == tail);
    } else {
        assert forall|i: int| 0 <= i < front.len() implies (#[trigger] front[i]).payload.len()
            == front[i].header.size by {
            assert(front[i] == ms[i]);
        }
        lemma_gnu_written(identifiers, front);
        let before = open + gnu_members_bytes(identifiers, front);
        assert(gnu_preamble(true, identifiers) == Seq::<u8>::empty());
        assert(gnu_written(identifiers, ms) == before + Seq::<u8>::empty() + rec + (last.payload
            + parity_pad(last.payload.len())));
        assert(gnu_written(identifiers, ms) == before + tail);
        assert(before + tail == open + (gnu_members_bytes(identifiers, front) + tail));
    }
}

/// Two readers that make the same next step yield the same from then on.
pub proof fn lemma_same_step_same_yields(a: ArchiveView, b: ArchiveView, k: nat)
    requires
        next(a) == next(b),
    ensures
        nth_yield(a, k) == nth_yield(b, k),
{
    if k > 0 {
        assert(after(a, k) == after(next(a).0, (k - 1) as nat));
        assert(after(b, k) == after(next(b).0, (k - 1) as nat));
    }
}

/// A member that round-trips through a GNU builder has a header that is
/// portable at the offset and with the name table that the builder uses.
pub proof fn lemma_gnu_portable(identifiers: Seq<Seq<u8>>, m: Member)
    requires
        gnu_round_trips(identifiers, m),
    ensures
        gnu_portable(
            m.header,
            name_offset(identifiers, m.header.identifier),
            name_table(identifiers),
        ),
{
    if is_gnu_long(m.header.identifier) {
        lemma_table_holds_name(identifiers, m.header.identifier);
    }
}

/// Where the bytes of a member that round-trips through a GNU builder
/// begin at `p`, a reader that holds the name table finds the member there.
pub proof fn lemma_find_gnu_member(a: ArchiveView, p: int, identifiers: Seq<Seq<u8>>, m: Member)
    requires
        0 <= p,
        !(a.variant is BSD),
        a.table == name_table(identifiers),
        gnu_round_trips(identifiers, m),
        p + gnu_member_bytes(identifiers, m).len() <= a.data.len(),
        a.data.subrange(p, p + gnu_member_bytes(identifiers, m).len()) == gnu_member_bytes(
            identifiers,
            m,
        ),
    ensures
        find_member(a, p as nat) == Ok::<Option<Located>, ArError>(
            Some(
                Located {
                    record: RecordView {
                        header: m.header,
                        shape: Shape::Member,
                        variant: Variant::GNU,
                    },
                    body: (p + 60) as nat,
                    odd: m.payload.len() % 2 == 1,
                },
            ),
        ),
        a.data.subrange(p + 60, p + 60 + m.payload.len()) == m.payload,
        m.payload.len() % 2 == 1 ==> a.data[p + 60 + m.payload.len()] == NEWLINE,
        gnu_member_bytes(identifiers, m).len() == 60 + m.payload.len() + m.payload.len() % 2,
{
    let h = m.header;
    let offset = name_offset(identifiers, h.identifier);
    let bytes = gnu_member_bytes(identifiers, m);
    let size = m.payload.len() as int;
    lemma_gnu_portable(identifiers, m);
    lemma_parse_gnu_record(h, offset, a.variant, a.table);
    let raw = a.data.subrange(p, p + 60);
    assert(raw == bytes.subrange(0, 60));
    assert(bytes.subrange(0, 60) == gnu_record(h, offset));
    let done = RecordView { header: h, shape: Shape::Member, variant: Variant::GNU };
    assert(parse_record(raw, a.variant, a.table) == Ok::<RecordView, ArError>(done));
    let odd = size % 2 == 1;
    assert(locate(a.data, p as nat, done) == Ok::<Located, ArError>(
        Located { record: done, body: (p + 60) as nat, odd },
    ));
    let payload = a.data.subrange(p + 60, p + 60 + size);
    assert(payload == bytes.subrange(60, 60 + size));
    assert(bytes.subrange(60, 60 + size) == m.payload);
    if odd {
        assert(a.data[p + 60 + size] == bytes[60 + size]);
        assert(bytes[60 + size] == NEWLINE);
    }
}

/// A reader that holds the name table and stands in front of the bytes of
/// a member written by a GNU builder yields that member and then stands
/// behind it.
pub proof fn lemma_next_gnu_member(a: ArchiveView, p: int, identifiers: Seq<Seq<u8>>, m: Member)
    requires
        poised(a, p),
        !(a.variant is BSD),
        a.table == name_table(identifiers),
        gnu_round_trips(identifiers, m),
        p + gnu_member_bytes(identifiers, m).len() <= a.data.len(),
        a.data.subrange(p, p + gnu_member_bytes(identifiers, m).len()) == gnu_member_bytes(
            identifiers,
            m,
        ),
    ensures
        next(a).1 == Some(Ok::<EntryView, ArError>(entry_of(m))),
        poised(next(a).0, p + gnu_member_bytes(identifiers, m).len()),
        !(next(a).0.variant is BSD),
        next(a).0.table == a.table,
        next(a).0.data == a.data,
{
    if a.started {
        lemma_find_gnu_member(a, p, identifiers, m);
        assert(record_start(a) == Ok::<nat, ArError>(p as nat));
        reveal(next);
    } else {
        lemma_next_reads_magic(a, p);
        let b = ArchiveView { started: true, offset: p as nat, ..a };
        lemma_find_gnu_member(b, p, identifiers, m);
        assert(record_start(b) == Ok::<nat, ArError>(p as nat));
        reveal(next);
    }
}

/// Where the member of a name table begins at `p`, the reader finds it
/// there.
pub proof fn lemma_find_table(a: ArchiveView, p: int, table: Seq<u8>)
    requires
        0 <= p,
        !(a.variant is BSD),
        table.len() < 10_000_000_000,
        p + table_member(table).len() <= a.data.len(),
        a.data.subrange(p, p + table_member(table).len()) == table_member(table),
    ensures
        find_member(a, p as nat) == Ok::<Option<Located>, ArError>(
            Some(
                Located {
                    record: RecordView {
                        header: blank_header(table_marker(), table.len() as u64),
                        shape: Shape::NameTable,
                        variant: Variant::GNU,
                    },
                    body: (p + 60) as nat,
                    odd: table.len() % 2 == 1,
                },
            ),
        ),
        a.data.subrange(p + 60, p + 60 + table.len()) == table,
        table.len() % 2 == 1 ==> a.data[p + 60 + table.len()] == NEWLINE,
        table_member(table).len() == 60 + table.len() + table.len() % 2,
{
    let size = table.len() as int;
    let bytes = table_member(table);
    lemma_parse_table_record(table.len(), a.variant, a.table);
    assert(bytes == table_record(table.len()) + table + parity_pad(table.len()));
    let raw = a.data.subrange(p, p + 60);
    assert(raw == bytes.subrange(0, 60));
    assert(bytes.subrange(0, 60) == table_record(table.len()));
    let done = RecordView {
        header: blank_header(table_marker(), table.len() as u64),
        shape: Shape::NameTable,
        variant: Variant::GNU,
    };
    assert(parse_record(raw, a.variant, a.table) == Ok::<RecordView, ArError>(done));
    let odd = size % 2 == 1;
    let found = Located { record: done, body: (p + 60) as nat, odd };
    assert(locate(a.data, p as nat, done) == Ok::<Located, ArError>(found));
    let payload = a.data.subrange(p + 60, p + 60 + size);
    assert(payload == bytes.subrange(60, 60 + size));
    assert(bytes.subrange(60, 60 + size) == table);
    if odd {
        assert(a.data[p + 60 + size] == bytes[60 + size]);
        assert(bytes[60 + size] == NEWLINE);
    }
}

/// The state of a reader that has passed the member of a name table which
/// began at `p`.
pub open spec fn past_table(a: ArchiveView, p: int, table: Seq<u8>) -> ArchiveView {
    ArchiveView {
        started: true,
        offset: (p + 60 + table.len()) as nat,
        pad_due: table.len() % 2 == 1,
        variant: Variant::GNU,
        table,
        ..a
    }
}

/// A reader that stands in front of the member of a name table keeps the
/// table and goes on behind it.
pub proof fn lemma_next_passes_table(a: ArchiveView, p: int, table: Seq<u8>)
    requires
        poised(a, p),
        !(a.variant is BSD),
        table.len() < 10_000_000_000,
        p + table_member(table).len() <= a.data.len(),
        a.data.subrange(p, p + table_member(table).len()) == table_member(table),
    ensures
        next(a) == next(past_table(a, p, table)),
        poised(past_table(a, p, table), p + table_member(table).len()),
{
    if a.started {
        lemma_find_table(a, p, table);
        assert(record_start(a) == Ok::<nat, ArError>(p as nat));
        reveal(next);
    } else {
        lemma_next_reads_magic(a, p);
        let b = ArchiveView { started: true, offset: p as nat, ..a };
        lemma_find_table(b, p, table);
        assert(record_start(b) == Ok::<nat, ArError>(p as nat));
        reveal(next);
    }
}

/// A reader that holds the name table and stands in front of the bytes of a
/// list of members written by a GNU builder, with nothing behind them,
/// yields the members in order and then nothing.
pub proof fn lemma_reads_gnu_members(
    a: ArchiveView,
    p: int,
    identifiers: Seq<Seq<u8>>,
    ms: Seq<Member>,
    k: nat,
)
    requires
        poised(a, p),
        !(a.variant is BSD),
        a.table == name_table(identifiers),
        forall|i: int| 0 <= i < ms.len() ==> gnu_round_trips(identifiers, #[trigger] ms[i]),
        a.data.subrange(p, a.data.len() as int) == gnu_members_bytes(identifiers, ms),
        k <= ms.len(),
    ensures
        nth_yield(a, k) == if k < ms.len() {
            Some(Ok::<EntryView, ArError>(entry_of(ms[k as int])))
        } else {
            None
        },
    decreases ms.len(),
{
    if ms.len() == 0 {
        assert(a.data.subrange(p, a.data.len() as int).len() == 0);
        assert(p == a.data.len());
        lemma_next_at_end(a);
    } else {
        let m = ms.first();
        let rest = ms.drop_first();
        let total = gnu_member_bytes(identifiers, m).len() as int;
        let tail = a.data.subrange(p, a.data.len() as int);
        assert(tail == gnu_member_bytes(identifiers, m) + gnu_members_bytes(identifiers, rest));
        assert(a.data.subrange(p, p + total) == tail.subrange(0, total));
        assert(tail.subrange(0, total) == gnu_member_bytes(identifiers, m));
        lemma_next_gnu_member(a, p, identifiers, m);
        if k > 0 {
            let b = next(a).0;
            assert(b.data.subrange(p + total, b.data.len() as int) == tail.subrange(
                total,
                tail.len() as int,
            ));
            assert(tail.subrange(total, tail.len() as int) == gnu_members_bytes(identifiers, rest));
            assert forall|i: int| 0 <= i < rest.len() implies gnu_round_trips(
                identifiers,
                #[trigger] rest[i],
            ) by {
                assert(rest[i] == ms[i + 1]);
            }
            lemma_reads_gnu_members(b, p + total, identifiers, rest, (k - 1) as nat);
            assert(after(a, k) == after(b, (k - 1) as nat));
            if k < ms.len() {
                assert(rest[k - 1] == ms[k as int]);
            }
        }
    }
}

/// The three parts of a sequence that was put together from three.
pub proof fn lemma_three_parts(x: Seq<u8>, y: Seq<u8>, z: Seq<u8>)
    ensures
        (x + y + z).subrange(0, x.len() as int) == x,
        (x + y + z).subrange(x.len() as int, (x.len() + y.len()) as int) == y,
        (x + y + z).subrange((x.len() + y.len()) as int, (x + y + z).len() as int) == z,
{
}

/// Round trip in the GNU dialect. What a [`crate::GnuBuilder`] has written
/// over an empty sink for a list of at least one member, each of which
/// round-trips, with a name table of at most ten digits in size, a
/// [`crate::Archive`] reads back member by member: call number `k` of
/// `next_entry` yields member `k` with the header and the payload that were
/// appended, long names included, and the call after the last member yields
/// nothing.
pub proof fn law_gnu_round_trip(identifiers: Seq<Seq<u8>>, ms: Seq<Member>, k: nat)
    requires
        ms.len() > 0,
        forall|i: int| 0 <= i < ms.len() ==> gnu_round_trips(identifiers, #[trigger] ms[i]),
        name_table(identifiers).len() < 10_000_000_000,
        k <= ms.len(),
    ensures
        nth_yield(fresh(gnu_written(identifiers, ms)), k) == if k < ms.len() {
            Some(Ok::<EntryView, ArError>(entry_of(ms[k as int])))
        } else {
            None
        },
{
    lemma_gnu_written(identifiers, ms);
    let data = gnu_written(identifiers, ms);
    let table = name_table(identifiers);
    let a = fresh(data);
    let members = gnu_members_bytes(identifiers, ms);
    if table.len() == 0 {
        assert(data == global_header() + Seq::<u8>::empty() + members);
        lemma_three_parts(global_header(), Seq::<u8>::empty(), members);
        assert(table == Seq::<u8>::empty());
        assert(poised(a, 8));
        lemma_reads_gnu_members(a, 8, identifiers, ms, k);
    } else {
        let width = table_member(table).len() as int;
        assert(data == global_header() + table_member(table) + members);
        lemma_three_parts(global_header(), table_member(table), members);
        assert(poised(a, 8));
        lemma_next_passes_table(a, 8, table);
        let b = past_table(a, 8, table);
        lemma_reads_gnu_members(b, 8 + width, identifiers, ms, k);
        lemma_same_step_same_yields(a, b, k);
    }
}

/// Long names in the BSD dialect. A member whose name is longer than the
/// name column, or holds a space, is written with its name in front of the
/// payload and read back under exactly that name.
pub proof fn law_bsd_long_name(ms: Seq<Member>, k: nat)
    requires
        ms.len() > 0,
        forall|i: int| 0 <= i < ms.len() ==> round_trips(#[trigger] ms[i]),
        k < ms.len(),
        needs_inline_name(ms[k as int].header.identifier),
    ensures
        starts_with(record(ms[k as int].header), inline_marker()),
        nth_yield(fresh(written(ms)), k) matches Some(Ok(entry)) && entry.header.identifier
            == ms[k as int].header.identifier,
{
    law_round_trip(ms, k);
    assert(record(ms[k as int].header).subrange(0, 3) == inline_marker());
}

/// Spaces in names. A name with a space in it is stored in front of the
/// payload even where it would fit in the name column, and the record says
/// so with `#1/`.
pub proof fn law_space_forces_inline_name(h: HeaderView)
    requires
        h.identifier.contains(SPACE),
    ensures
        needs_inline_name(h.identifier),
        starts_with(record(h), inline_marker()),
{
    assert(record(h).subrange(0, 3) == inline_marker());
}

/// Long names in the GNU dialect. A member whose name is longer than
/// fifteen bytes is written with the offset of the name in the name table
/// and read back under exactly that name.
pub proof fn law_gnu_long_name(identifiers: Seq<Seq<u8>>, ms: Seq<Member>, k: nat)
    requires
        ms.len() > 0,
        forall|i: int| 0 <= i < ms.len() ==> gnu_round_trips(identifiers, #[trigger] ms[i]),
        name_table(identifiers).len() < 10_000_000_000,
        k < ms.len(),
        is_gnu_long(ms[k as int].header.identifier),
    ensures
        table_name(
            name_table(identifiers),
            name_offset(identifiers, ms[k as int].header.identifier) as int,
        ) == ms[k as int].header.identifier,
        nth_yield(fresh(gnu_written(identifiers, ms)), k) matches Some(Ok(entry))
            && entry.header.identifier == ms[k as int].header.identifier,
{
    law_gnu_round_trip(identifiers, ms, k);
    lemma_table_holds_name(identifiers, ms[k as int].header.identifier);
}

/// Parity. An append that succeeds writes the archive magic where it is
/// due, a record of sixty bytes, the inline name where there is one, the
/// payload, and one byte of padding exactly where the payload is odd. That
/// is an even number of bytes: the sink is as even or odd afterwards as it
/// was before.
pub proof fn law_append_parity(sink: Seq<u8>, started: bool, m: Member)
    requires
        append_outcome(m.header, m.payload.len()) is Ok,
    ensures
        record(m.header).len() == record_len(m.header),
        appended(sink, started, m).len() == sink.len() + preamble(started).len() + record_len(
            m.header,
        ) + m.payload.len() + m.payload.len() % 2,
        appended(sink, started, m).len() % 2 == sink.len() % 2,
{
    let size = m.payload.len();
    let lead = preamble(started);
    let rec = record(m.header);
    let tail = payload_and_pad(m.header.size, m.payload);
    lemma_record_len(m.header);
    lemma_record_len_even(m.header);
    assert(tail == m.payload + parity_pad(size));
    assert(parity_pad(size).len() == size % 2);
    assert(lead.len() == 0 || lead.len() == 8);
    assert(appended(sink, started, m).len() == sink.len() + lead.len() + rec.len() + tail.len());
    lemma_even_sum(sink.len() as int, lead.len() as int, rec.len() as int, size as int);
}

/// Parity of whole archives. An append that succeeds on an even sink
/// begins its record at an even offset and leaves an even sink, so that
/// every record of an archive begins at an even offset.
pub proof fn law_records_at_even_offsets(sink: Seq<u8>, started: bool, m: Member)
    requires
        sink.len() % 2 == 0,
        append_outcome(m.header, m.payload.len()) is Ok,
    ensures
        (sink + preamble(started)).len() % 2 == 0,
        appended(sink, started, m).len() % 2 == 0,
{
    law_append_parity(sink, started, m);
    let lead = preamble(started).len() as int;
    assert(lead == 0 || lead == 8);
    assert((sink + preamble(started)).len() == sink.len() + lead);
}

/// Parity in the GNU dialect. An append that succeeds writes what stands
/// in front of the first member where it is due, a record of sixty bytes,
/// the payload and its padding: an even number of bytes.
pub proof fn law_gnu_append_parity(
    sink: Seq<u8>,
    started: bool,
    identifiers: Seq<Seq<u8>>,
    m: Member,
)
    requires
        gnu_append_outcome(identifiers, started, m.header, m.payload.len()) is Ok,
    ensures
        gnu_record(m.header, name_offset(identifiers, m.header.identifier)).len() == 60,
        gnu_appended(sink, started, identifiers, m).len() % 2 == sink.len() % 2,
{
    let size = m.payload.len();
    let lead = gnu_preamble(started, identifiers);
    let rec = gnu_record(m.header, name_offset(identifiers, m.header.identifier));
    let tail = payload_and_pad(m.header.size, m.payload);
    lemma_gnu_record_len(m.header, name_offset(identifiers, m.header.identifier));
    lemma_gnu_preamble_even(started, identifiers);
    assert(tail == m.payload + parity_pad(size));
    assert(parity_pad(size).len() == size % 2);
    assert(gnu_appended(sink, started, identifiers, m).len() == sink.len() + lead.len()
        + rec.len() + tail.len());
    lemma_even_sum(sink.len() as int, lead.len() as int, rec.len() as int, size as int);
}

/// Seek bounds. In an entry of `length` bytes a seek succeeds exactly when
/// its target lies between zero and `length`, both included, and then
/// yields the target. From a position within the entry a read with room
/// for the rest hands out exactly the rest, a read with any room at all
/// makes progress, no read hands out more than the rest, and at the end a
/// read hands out nothing.
pub proof fn law_seek_bounds(length: u64, position: u64, pos: SeekFrom, room: nat)
    requires
        position <= length,
    ensures
        0 <= seek_target(length, position, pos) <= length <==> seek_outcome(
            length,
            position,
            pos,
        ) is Ok,
        seek_outcome(length, position, pos) matches Ok(target) ==> {
            &&& target == seek_target(length, position, pos)
            &&& read_len(length, target, room) <= length - target
            &&& room >= length - target ==> read_len(length, target, room) == length - target
            &&& room > 0 && target < length ==> read_len(length, target, room) > 0
        },
        seek_target(length, position, pos) < 0 ==> seek_outcome(length, position, pos) == Err::<
            u64,
            ArError,
        >(ArError::SeekBeforeStart { target: seek_target(length, position, pos) as i128 }),
        seek_target(length, position, pos) > length ==> seek_outcome(length, position, pos) == Err::<
            u64,
            ArError,
        >(ArError::SeekPastEnd { target: seek_target(length, position, pos) as i128, length }),
        read_len(length, length, room) == 0,
{
}

/// Where the cursor of an entry stands after reads into buffers with the
/// given rooms, one after the other.
pub open spec fn position_after(length: u64, position: u64, rooms: Seq<nat>) -> u64
    decreases rooms.len(),
{
    if rooms.len() == 0 {
        position
    } else {
        position_after(
            length,
            (position + read_len(length, position, rooms.first())) as u64,
            rooms.drop_first(),
        )
    }
}

/// The bytes that reads into buffers with the given rooms hand out, those
/// of each read behind those of the read before.
pub open spec fn handed_out(payload: Seq<u8>, position: u64, rooms: Seq<nat>) -> Seq<u8>
    decreases rooms.len(),
{
    if rooms.len() == 0 {
        Seq::empty()
    } else {
        let count = read_len(payload.len() as u64, position, rooms.first());
        payload.subrange(position as int, position + count) + handed_out(
            payload,
            (position + count) as u64,
            rooms.drop_first(),
        )
    }
}

/// Reading on. Reads that follow one another hand out the payload from the
/// cursor onwards without a gap and without a byte twice, and never go
/// behind its end. A read that hands out nothing though its buffer has
/// room finds the cursor at the end: so reads from position `t` until one
/// of them hands out nothing hand out exactly the `length - t` bytes
/// behind `t`.
pub proof fn law_reads_reach_the_end(payload: Seq<u8>, position: u64, rooms: Seq<nat>, last: nat)
    requires
        position <= payload.len() <= u64::MAX,
    ensures
        position <= position_after(payload.len() as u64, position, rooms) <= payload.len(),
        handed_out(payload, position, rooms) == payload.subrange(
            position as int,
            position_after(payload.len() as u64, position, rooms) as int,
        ),
        handed_out(payload, position, rooms).len() == position_after(
            payload.len() as u64,
            position,
            rooms,
        ) - position,
        last > 0 && read_len(
            payload.len() as u64,
            position_after(payload.len() as u64, position, rooms),
            last,
        ) == 0 ==> {
            &&& position_after(payload.len() as u64, position, rooms) == payload.len()
            &&& handed_out(payload, position, rooms) == payload.subrange(
                position as int,
                payload.len() as int,
            )
        },
    decreases rooms.len(),
{
    let length = payload.len() as u64;
    if rooms.len() == 0 {
        assert(payload.subrange(position as int, position as int) == Seq::<u8>::empty());
    } else {
        let count = read_len(length, position, rooms.first());
        let then = (position + count) as u64;
        law_reads_reach_the_end(payload, then, rooms.drop_first(), last);
        let end = position_after(length, then, rooms.drop_first());
        assert(position_after(length, position, rooms) == end);
        assert(payload.subrange(position as int, then as int) + payload.subrange(
            then as int,
            end as int,
        ) == payload.subrange(position as int, end as int));
    }
}

/// Ends are final. Once a reader has yielded nothing, it yields nothing
/// ever after and stays as it is; and a reader that has yielded an error is
/// marked as failed, which makes it yield nothing from then on. A step
/// never changes the bytes of the archive nor leads behind their end.
pub proof fn law_ends_are_final(a: ArchiveView)
    requires
        a.offset <= a.data.len(),
    ensures
        next(a).0.data == a.data,
        next(a).0.offset <= a.data.len(),
        next(a).1 is None ==> next(next(a).0) == (next(a).0, None::<Result<EntryView, ArError>>),
        next(a).1 matches Some(Err(_)) ==> next(a).0.failed && next(next(a).0) == (
            next(a).0,
            None::<Result<EntryView, ArError>>,
        ),
    decreases a.data.len() - a.offset,
{
    reveal(next);
    if a.failed {
    } else if !a.started {
        if a.data.len() - a.offset >= 8 && a.data.subrange(
            a.offset as int,
            (a.offset + 8) as int,
        ) == global_header() {
            law_ends_are_final(ArchiveView { started: true, offset: a.offset + 8 as nat, ..a });
        }
    } else {
        match record_start(a) {
            Err(_) => {},
            Ok(start) => match find_member(a, start) {
                Err(_) => {},
                Ok(None) => {
                    let b = ArchiveView { offset: start, pad_due: false, ..a };
                    assert(record_start(b) == Ok::<nat, ArError>(start));
                    assert(find_member(b, start) == find_member(a, start));
                },
                Ok(Some(found)) => match found.record.shape {
                    Shape::NameTable => {
                        law_ends_are_final(
                            ArchiveView { table: payload_of(a, found), ..moved_past(a, found) },
                        );
                    },
                    Shape::SymbolTable => {
                        law_ends_are_final(
                            ArchiveView {
                                symbol_table: Some(payload_of(a, found)),
                                ..moved_past(a, found)
                            },
                        );
                    },
                    _ => {},
                },
            },
        }
    }
}

/// Progress. Every member that a reader yields lies in the archive behind
/// the place where the reader stood: the reader moves on by at least the
/// sixty bytes of the record and the bytes of the payload. So an archive of
/// `n` bytes yields at most `n / 60` members, in the order in which they
/// lie in it.
pub proof fn law_steps_advance(a: ArchiveView)
    requires
        a.offset <= a.data.len(),
    ensures
        next(a).1 matches Some(Ok(entry)) ==> {
            &&& !next(a).0.failed
            &&& a.offset + 60 + entry.payload.len() <= next(a).0.offset <= a.data.len()
            &&& entry.payload == a.data.subrange(
                next(a).0.offset - entry.payload.len(),
                next(a).0.offset as int,
            )
            &&& entry.position == 0
            &&& entry.header.size == entry.payload.len()
        },
    decreases a.data.len() - a.offset,
{
    reveal(next);
    if a.failed {
    } else if !a.started {
        if a.data.len() - a.offset >= 8 && a.data.subrange(
            a.offset as int,
            (a.offset + 8) as int,
        ) == global_header() {
            law_steps_advance(ArchiveView { started: true, offset: a.offset + 8 as nat, ..a });
        }
    } else {
        match record_start(a) {
            Err(_) => {},
            Ok(start) => match find_member(a, start) {
                Err(_) => {},
                Ok(None) => {},
                Ok(Some(found)) => match found.record.shape {
                    Shape::NameTable => {
                        law_steps_advance(
                            ArchiveView { table: payload_of(a, found), ..moved_past(a, found) },
                        );
                    },
                    Shape::SymbolTable => {
                        law_steps_advance(
                            ArchiveView {
                                symbol_table: Some(payload_of(a, found)),
                                ..moved_past(a, found)
                            },
                        );
                    },
                    _ => {},
                },
            },
        }
    }
}

} // verus!
