//! Writers: [`Builder`] for the common and BSD dialects, [`GnuBuilder`] for
//! the GNU dialect.

use vstd::prelude::*;
use crate::bytes::{push_all, push_repeat, same_bytes};
use crate::error::ArError;
use crate::field::{number_field, pad_to, push_number, repeat, SPACE};
use crate::header::{
    fit_outcome, gnu_record, gnu_record_overflow, is_gnu_long, record, record_len,
    record_overflow, terminator, Header, HeaderView, BACKQUOTE, GNU_SHORT_MAX, NEWLINE, SLASH,
};
use crate::layout::lemma_table_member_len;

verus! {

/// The eight bytes `!<arch>\n` that open every archive.
pub open spec fn global_header() -> Seq<u8> {
    seq![0x21u8, 0x3cu8, 0x61u8, 0x72u8, 0x63u8, 0x68u8, 0x3eu8, 0x0au8]
}

/// Appends the archive magic to `out`.
pub fn push_global_header(out: &mut Vec<u8>)
    ensures
        final(out)@ == old(out)@ + global_header(),
{
    let ghost before = out@;
    out.push(0x21u8);
    out.push(0x3cu8);
    out.push(0x61u8);
    out.push(0x72u8);
    out.push(0x63u8);
    out.push(0x68u8);
    out.push(0x3eu8);
    out.push(0x0au8);
    proof {
        assert(out@ == before + global_header());
    }
}

/// The padding behind a payload of `len` bytes: one newline where `len` is
/// odd, nothing where it is even.
pub open spec fn parity_pad(len: nat) -> Seq<u8> {
    if len % 2 == 1 {
        seq![NEWLINE]
    } else {
        Seq::empty()
    }
}

/// Appends the padding that follows a payload of `len` bytes.
pub fn push_parity_pad(out: &mut Vec<u8>, len: u64)
    ensures
        final(out)@ == old(out)@ + parity_pad(len as nat),
{
    if len % 2 != 0 {
        out.push(NEWLINE);
        proof {
            assert(old(out)@.push(NEWLINE) == old(out)@ + seq![NEWLINE]);
        }
    } else {
        proof {
            assert(old(out)@ + Seq::<u8>::empty() == old(out)@);
        }
    }
}

/// The outcome of comparing the size a header declares with the number of
/// bytes that were copied.
pub open spec fn size_check(declared: u64, actual: nat) -> Result<(), ArError> {
    if actual == declared {
        Ok(())
    } else {
        Err(ArError::SizeMismatch { declared, actual: actual as u64 })
    }
}

/// Compares the size a header declares with the number of bytes that were
/// copied for it.
pub fn check_size(declared: u64, actual: u64) -> (r: Result<(), ArError>)
    ensures
        r == size_check(declared, actual as nat),
{
    if actual == declared {
        Ok(())
    } else {
        Err(ArError::SizeMismatch { declared, actual })
    }
}

/// What stands in front of the first member written by [`Builder`], and
/// nothing once the builder has started.
pub open spec fn preamble(started: bool) -> Seq<u8> {
    if started {
        Seq::empty()
    } else {
        global_header()
    }
}

/// What an append leaves behind the record: the payload, and the padding
/// where the payload has the declared size.
pub open spec fn payload_and_pad(declared: u64, data: Seq<u8>) -> Seq<u8> {
    if data.len() == declared {
        data + parity_pad(data.len())
    } else {
        data
    }
}

/// What closes a member for which `actual` bytes were copied: the padding
/// where that is the declared size, and nothing where it is not.
pub open spec fn closing(declared: u64, actual: nat) -> Seq<u8> {
    if actual == declared {
        parity_pad(actual)
    } else {
        Seq::empty()
    }
}

/// One member as the caller hands it to a writer: a header and the bytes of
/// the payload.
pub struct Member {
    pub header: HeaderView,
    pub payload: Seq<u8>,
}

/// What the sink of a [`Builder`] holds after a member has been appended to
/// a sink that held `sink`.
pub open spec fn appended(sink: Seq<u8>, started: bool, m: Member) -> Seq<u8> {
    sink + preamble(started) + record(m.header) + payload_and_pad(m.header.size, m.payload)
}

/// What an append answers: the refusal of a header with a number that does
/// not fit its column, and otherwise the outcome of comparing the declared
/// size with the bytes that were copied.
pub open spec fn append_outcome(h: HeaderView, actual: nat) -> Result<(), ArError> {
    match record_overflow(h) {
        Some(column) => Err(ArError::TooWide { column }),
        None => size_check(h.size, actual),
    }
}

/// A payload with its padding, behind an even number of bytes, leaves the
/// total as even or odd as what stood before.
pub proof fn lemma_even_sum(before: int, lead: int, rec: int, size: int)
    requires
        lead % 2 == 0,
        rec % 2 == 0,
        size >= 0,
    ensures
        (before + lead + rec + size + size % 2) % 2 == before % 2,
{
}

/// The record of a header, with its inline name, has even length.
pub proof fn lemma_record_len_even(h: HeaderView)
    ensures
        record_len(h) % 2 == 0,
{
    let k = h.identifier.len() as int;
    assert((k + (4 - k % 4) % 4) % 4 == 0);
}

/// Writes archives in the common dialect, falling back on the BSD convention
/// for names that the name column cannot hold.
#[derive(Debug)]
pub struct Builder {
    writer: Vec<u8>,
    started: bool,
}

impl Builder {
    /// The bytes written so far, together with what the sink held before.
    pub closed spec fn sink(&self) -> Seq<u8> {
        self.writer@
    }

    /// Whether the archive magic has been written.
    pub closed spec fn started(&self) -> bool {
        self.started
    }

    /// A builder that appends to `writer`.
    pub fn new(writer: Vec<u8>) -> (b: Builder)
        ensures
            b.sink() == writer@,
            !b.started(),
    {
        Builder { writer, started: false }
    }

    /// Gives the sink back.
    pub fn into_inner(self) -> (r: Result<Vec<u8>, ArError>)
        ensures
            r is Ok,
            r->Ok_0@ == self.sink(),
    {
        Ok(self.writer)
    }

    /// Hands out what the sink holds and leaves the sink empty. The builder
    /// stays started if it was.
    pub fn take_output(&mut self) -> (out: Vec<u8>)
        ensures
            out@ == old(self).sink(),
            final(self).sink() == Seq::<u8>::empty(),
            final(self).started() == old(self).started(),
    {
        let mut out: Vec<u8> = Vec::new();
        std::mem::swap(&mut self.writer, &mut out);
        out
    }

    /// Writes what stands in front of a payload: the archive magic on the
    /// first call, and the record of `header`, which is sixty bytes long and
    /// is followed by the name where the name is stored inline. A header
    /// with a number that does not fit its column is refused before
    /// anything is written.
    pub fn write_header(&mut self, header: &Header) -> (r: Result<(), ArError>)
        ensures
            r == fit_outcome(record_overflow(header@)),
            r is Err ==> {
                &&& final(self).sink() == old(self).sink()
                &&& final(self).started() == old(self).started()
            },
            r is Ok ==> {
                &&& final(self).started()
                &&& final(self).sink() == old(self).sink() + preamble(old(self).started())
                    + record(header@)
                &&& record(header@).len() == record_len(header@)
            },
    {
        match header.overflow() {
            Some(column) => {
                return Err(ArError::TooWide { column });
            },
            None => {},
        }
        if !self.started {
            push_global_header(&mut self.writer);
            self.started = true;
        } else {
            proof {
                assert(self.writer@ + Seq::<u8>::empty() == self.writer@);
            }
        }
        header.write(&mut self.writer)
    }

    /// Closes a member after `actual` bytes of payload have been written
    /// behind its record: where that is the size that `header` declares, the
    /// padding follows; where it is not, nothing is written and the call
    /// fails.
    pub fn finish_member(&mut self, header: &Header, actual: u64) -> (r: Result<(), ArError>)
        ensures
            r == size_check(header@.size, actual as nat),
            final(self).sink() == old(self).sink() + closing(header@.size, actual as nat),
            final(self).started() == old(self).started(),
    {
        match check_size(header.size(), actual) {
            Ok(()) => {
                push_parity_pad(&mut self.writer, actual);
                Ok(())
            },
            Err(e) => {
                proof {
                    assert(self.writer@ + Seq::<u8>::empty() == self.writer@);
                }
                Err(e)
            },
        }
    }

    /// Adds a member. A header with a number that does not fit its column
    /// is refused before anything is written. Otherwise the first call
    /// writes the archive magic; then come the record of `header`, the bytes
    /// of `data`, and a newline where their number is odd. Where `data` has
    /// not the length that `header` declares, the record and the data are
    /// written all the same, the padding is not, and the call fails. An
    /// append that succeeds adds an even number of bytes.
    pub fn append(&mut self, header: &Header, data: &[u8]) -> (r: Result<(), ArError>)
        ensures
            r == append_outcome(header@, data@.len()),
            record_overflow(header@) is Some ==> {
                &&& final(self).sink() == old(self).sink()
                &&& final(self).started() == old(self).started()
            },
            record_overflow(header@) is None ==> {
                &&& final(self).started()
                &&& final(self).sink() == appended(
                    old(self).sink(),
                    old(self).started(),
                    Member { header: header@, payload: data@ },
                )
                &&& record(header@).len() == record_len(header@)
            },
            r is Ok ==> final(self).sink().len() % 2 == old(self).sink().len() % 2,
    {
        match self.write_header(header) {
            Ok(()) => {},
            Err(e) => {
                return Err(e);
            },
        }
        push_all(&mut self.writer, data);
        let r = self.finish_member(header, data.len() as u64);
        proof {
            let lead = preamble(old(self).started());
            let head = old(self).sink() + lead + record(header@);
            let tail = closing(header@.size, data@.len());
            assert(head + data@ + tail == head + (data@ + tail));
            assert(data@ + Seq::<u8>::empty() == data@);
            if r is Ok {
                assert(lead.len() == 0 || lead.len() == 8);
                assert(tail.len() == data@.len() % 2);
                assert(self.writer@.len() == old(self).sink().len() + lead.len() + record_len(
                    header@,
                ) + data@.len() + tail.len());
                lemma_record_len_even(header@);
                lemma_even_sum(
                    old(self).sink().len() as int,
                    lead.len() as int,
                    record_len(header@) as int,
                    data@.len() as int,
                );
            }
        }
        r
    }
}

/// The views of a list of names.
pub open spec fn names_of(list: Seq<Vec<u8>>) -> Seq<Seq<u8>> {
    Seq::new(list.len(), |i: int| list[i]@)
}

/// What one identifier adds to the GNU name table: nothing where it is
/// short, and the name followed by `/` and a newline where it is long.
pub open spec fn table_entry(identifier: Seq<u8>) -> Seq<u8> {
    if is_gnu_long(identifier) {
        identifier + seq![SLASH, NEWLINE]
    } else {
        Seq::empty()
    }
}

/// The GNU name table for a list of identifiers: the entries of the long
/// ones, in the order of the list.
pub open spec fn name_table(identifiers: Seq<Seq<u8>>) -> Seq<u8>
    decreases identifiers.len(),
{
    if identifiers.len() == 0 {
        Seq::empty()
    } else {
        table_entry(identifiers.first()) + name_table(identifiers.drop_first())
    }
}

/// The place in the name table of the entry that the first occurrence of
/// `identifier` in the list made.
pub open spec fn name_offset(identifiers: Seq<Seq<u8>>, identifier: Seq<u8>) -> nat
    decreases identifiers.len(),
{
    if identifiers.len() == 0 || identifiers.first() == identifier {
        0
    } else {
        table_entry(identifiers.first()).len() + name_offset(identifiers.drop_first(), identifier)
    }
}

/// The two bytes `//` that name the member holding the name table.
pub open spec fn table_marker() -> Seq<u8> {
    seq![SLASH, SLASH]
}

/// The member that holds a name table: a record with the marker `//`, blank
/// metadata columns and the size of the table, then the table and its
/// padding.
pub open spec fn table_member(table: Seq<u8>) -> Seq<u8> {
    pad_to(table_marker(), 48, SPACE) + number_field(table.len(), 10, 10) + terminator() + table
        + parity_pad(table.len())
}

/// What stands in front of the first member written by [`GnuBuilder`]: the
/// archive magic, and the name table where it is not empty.
pub open spec fn gnu_preamble(started: bool, identifiers: Seq<Seq<u8>>) -> Seq<u8> {
    if started {
        Seq::empty()
    } else if name_table(identifiers).len() == 0 {
        global_header()
    } else {
        global_header() + table_member(name_table(identifiers))
    }
}

/// What the sink of a [`GnuBuilder`] that accepts `identifiers` holds after
/// a member with one of these identifiers has been appended to a sink that
/// held `sink`.
pub open spec fn gnu_appended(
    sink: Seq<u8>,
    started: bool,
    identifiers: Seq<Seq<u8>>,
    m: Member,
) -> Seq<u8> {
    sink + gnu_preamble(started, identifiers) + gnu_record(
        m.header,
        name_offset(identifiers, m.header.identifier),
    ) + payload_and_pad(m.header.size, m.payload)
}

/// Why a [`GnuBuilder`] refuses a header, if it does: the identifier is
/// none of those given at construction; or the name table, which the first
/// member drags along, is too large for the size column of its record; or a
/// number of the header does not fit its column.
pub open spec fn gnu_refusal(identifiers: Seq<Seq<u8>>, started: bool, h: HeaderView) -> Option<
    ArError,
> {
    if !identifiers.contains(h.identifier) {
        Some(ArError::UnknownIdentifier)
    } else if !started && name_table(identifiers).len() >= 10_000_000_000 {
        Some(ArError::NameTableTooLarge { size: name_table(identifiers).len() as u64 })
    } else {
        match gnu_record_overflow(h, name_offset(identifiers, h.identifier)) {
            Some(column) => Some(ArError::TooWide { column }),
            None => None,
        }
    }
}

/// What an append to a [`GnuBuilder`] answers: the refusal of the header,
/// and otherwise the outcome of comparing the declared size with the bytes
/// that were copied.
pub open spec fn gnu_append_outcome(
    identifiers: Seq<Seq<u8>>,
    started: bool,
    h: HeaderView,
    actual: nat,
) -> Result<(), ArError> {
    match gnu_refusal(identifiers, started, h) {
        Some(e) => Err(e),
        None => size_check(h.size, actual),
    }
}

/// What stands in front of the first member of a GNU archive has even
/// length, where the name table fits its record.
pub proof fn lemma_gnu_preamble_even(started: bool, identifiers: Seq<Seq<u8>>)
    requires
        started || name_table(identifiers).len() < 10_000_000_000,
    ensures
        gnu_preamble(started, identifiers).len() % 2 == 0,
{
    let table = name_table(identifiers);
    if !started && table.len() > 0 {
        lemma_table_member_len(table);
        let t = table.len() as int;
        assert((60 + t + t % 2) % 2 == 0);
    }
}

/// The name table of a list is that of any prefix followed by that of the
/// rest.
pub proof fn lemma_name_table_split(identifiers: Seq<Seq<u8>>, k: int)
    requires
        0 <= k <= identifiers.len(),
    ensures
        name_table(identifiers) == name_table(identifiers.take(k)) + name_table(
            identifiers.skip(k),
        ),
    decreases k,
{
    if k == 0 {
        assert(identifiers.take(0) == Seq::<Seq<u8>>::empty());
        assert(identifiers.skip(0) == identifiers);
        assert(name_table(identifiers.take(0)) == Seq::<u8>::empty());
        assert(Seq::<u8>::empty() + name_table(identifiers) == name_table(identifiers));
    } else {
        let rest = identifiers.drop_first();
        lemma_name_table_split(rest, k - 1);
        assert(rest.take(k - 1) == identifiers.take(k).drop_first());
        assert(rest.skip(k - 1) == identifiers.skip(k));
        assert(identifiers.take(k).first() == identifiers.first());
        assert(name_table(identifiers.take(k)) == table_entry(identifiers.first()) + name_table(
            rest.take(k - 1),
        ));
        assert(name_table(identifiers) == table_entry(identifiers.first()) + (name_table(
            rest.take(k - 1),
        ) + name_table(rest.skip(k - 1))));
        assert(table_entry(identifiers.first()) + (name_table(rest.take(k - 1)) + name_table(
            rest.skip(k - 1),
        )) == (table_entry(identifiers.first()) + name_table(rest.take(k - 1))) + name_table(
            rest.skip(k - 1),
        ));
    }
}

/// The name table of the first `k + 1` identifiers is that of the first
/// `k` followed by the entry of identifier `k`.
pub proof fn lemma_name_table_next(identifiers: Seq<Seq<u8>>, k: int)
    requires
        0 <= k < identifiers.len(),
    ensures
        name_table(identifiers.take(k + 1)) == name_table(identifiers.take(k)) + table_entry(
            identifiers[k],
        ),
{
    let next = identifiers.take(k + 1);
    lemma_name_table_split(next, k);
    assert(next.take(k) == identifiers.take(k));
    let last = next.skip(k);
    assert(last.len() == 1 && last.first() == identifiers[k]);
    assert(last.drop_first() == Seq::<Seq<u8>>::empty());
    assert(name_table(last.drop_first()) == Seq::<u8>::empty());
    assert(name_table(last) == table_entry(identifiers[k]) + Seq::<u8>::empty());
    assert(table_entry(identifiers[k]) + Seq::<u8>::empty() == table_entry(identifiers[k]));
}

/// Where no identifier before index `k` equals `identifier`, its offset is
/// the length of the table of the first `k` identifiers plus its offset in
/// the rest.
pub proof fn lemma_name_offset_skip(identifiers: Seq<Seq<u8>>, identifier: Seq<u8>, k: int)
    requires
        0 <= k <= identifiers.len(),
        forall|j: int| 0 <= j < k ==> identifiers[j] != identifier,
    ensures
        name_offset(identifiers, identifier) == name_table(identifiers.take(k)).len() + name_offset(
            identifiers.skip(k),
            identifier,
        ),
    decreases k,
{
    if k == 0 {
        assert(identifiers.take(0) == Seq::<Seq<u8>>::empty());
        assert(identifiers.skip(0) == identifiers);
    } else {
        let rest = identifiers.drop_first();
        assert(identifiers[0] != identifier);
        assert forall|j: int| 0 <= j < k - 1 implies rest[j] != identifier by {
            assert(rest[j] == identifiers[j + 1]);
        }
        lemma_name_offset_skip(rest, identifier, k - 1);
        assert(rest.take(k - 1) == identifiers.take(k).drop_first());
        assert(rest.skip(k - 1) == identifiers.skip(k));
        assert(identifiers.take(k).first() == identifiers.first());
    }
}

/// Writes archives in the GNU dialect. The identifiers of all members must
/// be known when the builder is made, because the table of long names is the
/// first thing in the archive.
#[derive(Debug)]
pub struct GnuBuilder {
    writer: Vec<u8>,
    identifiers: Vec<Vec<u8>>,
    table: Vec<u8>,
    started: bool,
}

impl GnuBuilder {
    /// Whether the builder is in order: it holds the name table of its
    /// identifiers.
    pub closed spec fn wf(&self) -> bool {
        self.table@ == name_table(names_of(self.identifiers@))
    }

    /// The bytes written so far, together with what the sink held before.
    pub closed spec fn sink(&self) -> Seq<u8> {
        self.writer@
    }

    /// Whether the archive magic and the name table have been written.
    pub closed spec fn started(&self) -> bool {
        self.started
    }

    /// The identifiers that the builder accepts.
    pub closed spec fn universe(&self) -> Seq<Seq<u8>> {
        names_of(self.identifiers@)
    }

    /// A builder that appends to `writer` and accepts members named by
    /// `identifiers`.
    pub fn new(writer: Vec<u8>, identifiers: Vec<Vec<u8>>) -> (b: GnuBuilder)
        ensures
            b.wf(),
            b.sink() == writer@,
            !b.started(),
            b.universe() == names_of(identifiers@),
    {
        let ghost all = names_of(identifiers@);
        let mut table: Vec<u8> = Vec::new();
        let mut i: usize = 0;
        proof {
            assert(all.take(0) == Seq::<Seq<u8>>::empty());
        }
        while i < identifiers.len()
            invariant
                i <= identifiers@.len(),
                all == names_of(identifiers@),
                table@ == name_table(all.take(i as int)),
            decreases identifiers@.len() - i,
        {
            let ghost before = table@;
            let name: &[u8] = identifiers[i].as_slice();
            if name.len() > GNU_SHORT_MAX {
                push_all(&mut table, name);
                table.push(SLASH);
                table.push(NEWLINE);
                proof {
                    assert(table@ == before + (name@ + seq![SLASH, NEWLINE]));
                }
            } else {
                proof {
                    assert(before + Seq::<u8>::empty() == before);
                }
            }
            proof {
                assert(all[i as int] == name@);
                lemma_name_table_next(all, i as int);
            }
            i = i + 1;
        }
        proof {
            assert(all.take(identifiers@.len() as int) == all);
        }
        GnuBuilder { writer, identifiers, table, started: false }
    }

    /// Gives the sink back.
    pub fn into_inner(self) -> (r: Result<Vec<u8>, ArError>)
        ensures
            r is Ok,
            r->Ok_0@ == self.sink(),
    {
        Ok(self.writer)
    }

    /// Looks `identifier` up among the identifiers given at construction.
    /// Returns the offset of its name-table entry, or `None` where the
    /// builder was not told about it.
    fn find(&self, identifier: &[u8]) -> (r: Option<u64>)
        requires
            self.wf(),
        ensures
            r is Some <==> self.universe().contains(identifier@),
            r is Some ==> r->Some_0 == name_offset(self.universe(), identifier@),
    {
        let ghost all = self.universe();
        let mut offset: usize = 0;
        let mut i: usize = 0;
        proof {
            assert(all.take(0) == Seq::<Seq<u8>>::empty());
        }
        while i < self.identifiers.len()
            invariant
                i <= self.identifiers@.len(),
                all == names_of(self.identifiers@),
                self.table@ == name_table(all),
                offset == name_table(all.take(i as int)).len(),
                forall|j: int| 0 <= j < i ==> all[j] != identifier@,
            decreases self.identifiers@.len() - i,
        {
            let name: &[u8] = self.identifiers[i].as_slice();
            proof {
                assert(all[i as int] == name@);
            }
            if same_bytes(name, identifier) {
                proof {
                    lemma_name_offset_skip(all, identifier@, i as int);
                    assert(all.skip(i as int).first() == identifier@);
                }
                return Some(offset as u64);
            }
            proof {
                let next = all.take(i + 1);
                lemma_name_table_next(all, i as int);
                lemma_name_table_split(all, i + 1);
                assert(name_table(all).len() == name_table(next).len() + name_table(
                    all.skip(i + 1),
                ).len());
                assert(name_table(next).len() == offset + table_entry(name@).len());
                assert(self.table@.len() == self.table.len());
            }
            if name.len() > GNU_SHORT_MAX {
                offset = offset + name.len() + 2;
            }
            i = i + 1;
        }
        proof {
            if all.contains(identifier@) {
                let k = choose|k: int| 0 <= k < all.len() && all[k] == identifier@;
                assert(false);
            }
        }
        None
    }

    /// Hands out what the sink holds and leaves the sink empty. The builder
    /// stays started if it was.
    pub fn take_output(&mut self) -> (out: Vec<u8>)
        requires
            old(self).wf(),
        ensures
            final(self).wf(),
            out@ == old(self).sink(),
            final(self).sink() == Seq::<u8>::empty(),
            final(self).started() == old(self).started(),
            final(self).universe() == old(self).universe(),
    {
        let mut out: Vec<u8> = Vec::new();
        std::mem::swap(&mut self.writer, &mut out);
        out
    }

    /// Writes what stands in front of a payload: on the first call the
    /// archive magic and, where there are long names, the name table; then
    /// the record of `header`, which is sixty bytes long. A header is
    /// refused, and nothing is written, where its identifier was not given
    /// at construction, where the name table is too large for its record,
    /// or where a number does not fit its column.
    pub fn write_header(&mut self, header: &Header) -> (r: Result<(), ArError>)
        requires
            old(self).wf(),
        ensures
            final(self).wf(),
            final(self).universe() == old(self).universe(),
            match gnu_refusal(old(self).universe(), old(self).started(), header@) {
                Some(e) => {
                    &&& r == Err::<(), ArError>(e)
                    &&& final(self).sink() == old(self).sink()
                    &&& final(self).started() == old(self).started()
                },
                None => {
                    &&& r is Ok
                    &&& final(self).started()
                    &&& final(self).sink() == old(self).sink() + gnu_preamble(
                        old(self).started(),
                        old(self).universe(),
                    ) + gnu_record(header@, name_offset(old(self).universe(), header@.identifier))
                    &&& gnu_record(
                        header@,
                        name_offset(old(self).universe(), header@.identifier),
                    ).len() == 60
                },
            },
    {
        let offset: u64 = match self.find(header.identifier()) {
            Some(offset) => offset,
            None => {
                return Err(ArError::UnknownIdentifier);
            },
        };
        if !self.started && self.table.len() as u64 >= 10_000_000_000 {
            return Err(ArError::NameTableTooLarge { size: self.table.len() as u64 });
        }
        match header.gnu_overflow(offset) {
            Some(column) => {
                return Err(ArError::TooWide { column });
            },
            None => {},
        }
        let ghost before = self.writer@;
        if !self.started {
            push_global_header(&mut self.writer);
            if self.table.len() > 0 {
                self.writer.push(SLASH);
                self.writer.push(SLASH);
                push_repeat(&mut self.writer, SPACE, 46);
                push_number(&mut self.writer, self.table.len() as u128, 10, 10);
                self.writer.push(BACKQUOTE);
                self.writer.push(NEWLINE);
                push_all(&mut self.writer, self.table.as_slice());
                push_parity_pad(&mut self.writer, self.table.len() as u64);
                proof {
                    let t = self.table@;
                    assert(pad_to(table_marker(), 48, SPACE) == table_marker() + repeat(SPACE, 46));
                    assert(self.writer@ == before + (global_header() + table_member(t)));
                }
            }
            self.started = true;
        } else {
            proof {
                assert(before + Seq::<u8>::empty() == before);
            }
        }
        header.write_gnu(&mut self.writer, offset)
    }

    /// Closes a member after `actual` bytes of payload have been written
    /// behind its record: where that is the size that `header` declares, the
    /// padding follows; where it is not, nothing is written and the call
    /// fails.
    pub fn finish_member(&mut self, header: &Header, actual: u64) -> (r: Result<(), ArError>)
        requires
            old(self).wf(),
        ensures
            final(self).wf(),
            r == size_check(header@.size, actual as nat),
            final(self).sink() == old(self).sink() + closing(header@.size, actual as nat),
            final(self).started() == old(self).started(),
            final(self).universe() == old(self).universe(),
    {
        match check_size(header.size(), actual) {
            Ok(()) => {
                push_parity_pad(&mut self.writer, actual);
                Ok(())
            },
            Err(e) => {
                proof {
                    assert(self.writer@ + Seq::<u8>::empty() == self.writer@);
                }
                Err(e)
            },
        }
    }

    /// Adds a member. A header is refused before anything is written where
    /// its identifier was not given at construction, where the name table
    /// is too large for its record, or where a number does not fit its
    /// column. Otherwise the first call writes the archive magic and, where
    /// there are long names, the name table; then come the record of
    /// `header`, the bytes of `data`, and a newline where their number is
    /// odd. Where `data` has not the length that `header` declares, the
    /// record and the data are written all the same, the padding is not, and
    /// the call fails. An append that succeeds adds an even number of bytes.
    pub fn append(&mut self, header: &Header, data: &[u8]) -> (r: Result<(), ArError>)
        requires
            old(self).wf(),
        ensures
            final(self).wf(),
            final(self).universe() == old(self).universe(),
            r == gnu_append_outcome(
                old(self).universe(),
                old(self).started(),
                header@,
                data@.len(),
            ),
            gnu_refusal(old(self).universe(), old(self).started(), header@) is Some ==> {
                &&& final(self).sink() == old(self).sink()
                &&& final(self).started() == old(self).started()
            },
            gnu_refusal(old(self).universe(), old(self).started(), header@) is None ==> {
                &&& final(self).started()
                &&& final(self).sink() == gnu_appended(
                    old(self).sink(),
                    old(self).started(),
                    old(self).universe(),
                    Member { header: header@, payload: data@ },
                )
                &&& gnu_record(
                    header@,
                    name_offset(old(self).universe(), header@.identifier),
                ).len() == 60
            },
            r is Ok ==> final(self).sink().len() % 2 == old(self).sink().len() % 2,
    {
        match self.write_header(header) {
            Ok(()) => {},
            Err(e) => {
                return Err(e);
            },
        }
        push_all(&mut self.writer, data);
        let r = self.finish_member(header, data.len() as u64);
        proof {
            let lead = gnu_preamble(old(self).started(), old(self).universe());
            let rec = gnu_record(header@, name_offset(old(self).universe(), header@.identifier));
            let head = old(self).sink() + lead + rec;
            let tail = closing(header@.size, data@.len());
            assert(head + data@ + tail == head + (data@ + tail));
            assert(data@ + Seq::<u8>::empty() == data@);
            if r is Ok {
                lemma_gnu_preamble_even(old(self).started(), old(self).universe());
                assert(tail.len() == data@.len() % 2);
                assert(self.writer@.len() == old(self).sink().len() + lead.len() + 60
                    + data@.len() + tail.len());
                lemma_even_sum(
                    old(self).sink().len() as int,
                    lead.len() as int,
                    60,
                    data@.len() as int,
                );
            }
        }
        r
    }
}

} // verus!
