//! The reader: an archive in memory, taken apart member by member.

use vstd::prelude::*;
use vstd::slice::slice_subrange;
use crate::builder::global_header;
use crate::entry::{Entry, EntryView};
use crate::error::ArError;
use crate::header::{Header, RECORD_LEN};
use crate::record::{parse_record, with_inline_name, RecordView, Shape};
use crate::scanner::{
    lemma_magic_supplied, lemma_name_supplied, lemma_padding_supplied, lemma_record_supplied,
    lemma_table_supplied, padding_check, Demand, Scanner, ScannerView, GLOBAL_HEADER_LEN,
};
use crate::symbols::{same_symbols, symbols_of, Symbols};

verus! {

/// The dialect of an archive.
#[derive(Clone, Copy, Debug, PartialEq, Eq)]
pub enum Variant {
    /// Names of up to sixteen bytes without spaces, stored as they are.
    Common,
    /// The common dialect, with long names stored in front of the payload.
    BSD,
    /// Names closed by `/`, long names kept in a table.
    GNU,
}

/// The state of a reader, as mathematical values.
pub struct ArchiveView {
    /// The bytes of the archive.
    pub data: Seq<u8>,
    /// The place in `data` up to which the reader has come.
    pub offset: nat,
    /// The dialect as far as the members read so far have shown it.
    pub variant: Variant,
    /// The GNU name table, empty until one has been read.
    pub table: Seq<u8>,
    /// The payload of the last symbol table that was passed.
    pub symbol_table: Option<Seq<u8>>,
    /// Whether the archive magic has been read.
    pub started: bool,
    /// Whether a padding byte is due before the next record.
    pub pad_due: bool,
    /// Whether an error has ended the reading.
    pub failed: bool,
}

/// The state after an error: nothing moves, and the reader is marked. A
/// reader that fails on the archive magic has started all the same.
pub open spec fn failed(a: ArchiveView) -> ArchiveView {
    ArchiveView { failed: true, started: true, ..a }
}

/// Where the next record begins: behind the padding byte where one is due
/// and the archive goes on. The padding byte must be a newline; where the
/// archive ends in place of it, nothing is amiss.
pub open spec fn record_start(a: ArchiveView) -> Result<nat, ArError> {
    if a.pad_due && a.offset < a.data.len() {
        match padding_check(a.data[a.offset as int]) {
            Ok(()) => Ok(a.offset + 1),
            Err(e) => Err(e),
        }
    } else {
        Ok(a.offset)
    }
}

/// A record together with the place where its payload begins and the
/// parity of the size on disk.
pub struct Located {
    pub record: RecordView,
    pub body: nat,
    pub odd: bool,
}

/// Finds the payload of a record that was read at `start`: where the record
/// announces an inline name, the name is taken from behind the record and
/// the payload begins behind the name.
pub open spec fn locate(data: Seq<u8>, start: nat, record: RecordView) -> Result<Located, ArError> {
    let behind = start + RECORD_LEN;
    match record.shape {
        Shape::InlineName { name_len } => if data.len() - behind < name_len {
            Err(ArError::Truncated { needed: name_len, available: (data.len() - behind) as u64 })
        } else {
            Ok(
                Located {
                    record: with_inline_name(record, data.subrange(behind, behind + name_len)),
                    body: (behind + name_len) as nat,
                    odd: (record.header.size + name_len) % 2 == 1,
                },
            )
        },
        _ => Ok(Located { record, body: behind as nat, odd: record.header.size % 2 == 1 }),
    }
}

/// Looks for a member at `start`, behind any padding. The outcome is
/// `None` where the archive ends at `start`, the record with the place of
/// its payload where a whole member follows, and an error where the record
/// is malformed or the record, an inline name or the payload is cut short.
pub open spec fn find_member(a: ArchiveView, start: nat) -> Result<Option<Located>, ArError> {
    let left = a.data.len() - start;
    if left == 0 {
        Ok(None)
    } else if left < RECORD_LEN {
        Err(ArError::Truncated { needed: RECORD_LEN as u64, available: left as u64 })
    } else {
        match parse_record(a.data.subrange(start as int, start + RECORD_LEN), a.variant, a.table) {
            Err(e) => Err(e),
            Ok(record) => match locate(a.data, start, record) {
                Err(e) => Err(e),
                Ok(found) => if a.data.len() - found.body < found.record.header.size {
                    Err(
                        ArError::Truncated {
                            needed: found.record.header.size,
                            available: (a.data.len() - found.body) as u64,
                        },
                    )
                } else {
                    Ok(Some(found))
                },
            },
        }
    }
}

/// The payload of a member that was found.
pub open spec fn payload_of(a: ArchiveView, found: Located) -> Seq<u8> {
    a.data.subrange(found.body as int, found.body + found.record.header.size)
}

/// The state of a reader that has passed a member that was found: it
/// stands behind the payload, knows whether padding is due, and knows the
/// dialect that the record has shown.
pub open spec fn moved_past(a: ArchiveView, found: Located) -> ArchiveView {
    ArchiveView {
        offset: (found.body + found.record.header.size) as nat,
        pad_due: found.odd,
        variant: found.record.variant,
        ..a
    }
}

/// One step of the reader: the state it leaves and what it yields.
///
/// A reader that has failed yields nothing more. A reader that has not
/// started first demands the archive magic. Then, behind the padding that
/// the last member may have left due, the archive either ends, and the
/// reader yields nothing, now and ever after; or a record follows. The name
/// table and the symbol table are kept and passed over; any other member is
/// yielded with its header and payload. A record or payload that is cut
/// short, and any malformed record, is an error, and the reader is marked
/// as failed.
#[verifier::opaque]
pub open spec fn next(a: ArchiveView) -> (ArchiveView, Option<Result<EntryView, ArError>>)
    decreases a.data.len() - a.offset,
{
    if a.failed || a.offset > a.data.len() {
        (a, None)
    } else if !a.started {
        if a.data.len() - a.offset >= GLOBAL_HEADER_LEN && a.data.subrange(
            a.offset as int,
            a.offset + GLOBAL_HEADER_LEN,
        ) == global_header() {
            next(
                ArchiveView { started: true, offset: a.offset + GLOBAL_HEADER_LEN as nat, ..a },
            )
        } else {
            (failed(a), Some(Err(ArError::BadMagic)))
        }
    } else {
        match record_start(a) {
            Err(e) => (failed(a), Some(Err(e))),
            Ok(start) => match find_member(a, start) {
                Err(e) => (failed(a), Some(Err(e))),
                Ok(None) => (ArchiveView { offset: start, pad_due: false, ..a }, None),
                Ok(Some(found)) => match found.record.shape {
                    Shape::NameTable => next(
                        ArchiveView { table: payload_of(a, found), ..moved_past(a, found) },
                    ),
                    Shape::SymbolTable => next(
                        ArchiveView {
                            symbol_table: Some(payload_of(a, found)),
                            ..moved_past(a, found)
                        },
                    ),
                    _ => (
                        moved_past(a, found),
                        Some(
                            Ok(
                                EntryView {
                                    header: found.record.header,
                                    payload: payload_of(a, found),
                                    position: 0,
                                },
                            ),
                        ),
                    ),
                },
            },
        }
    }
}

/// What a call of [`Archive::next_entry`] handed out, as mathematical
/// values.
pub open spec fn yielded(r: Option<Result<Entry<'_>, ArError>>) -> Option<Result<EntryView, ArError>> {
    match r {
        None => None,
        Some(Err(e)) => Some(Err(e)),
        Some(Ok(entry)) => Some(Ok(entry@)),
    }
}

/// A member that the reader has found: its header, and where in the archive
/// its payload lies.
struct Found {
    header: Header,
    start: usize,
    len: usize,
}

/// What a step found, as mathematical values.
spec fn found_view(r: Option<Result<Found, ArError>>, data: Seq<u8>) -> Option<
    Result<EntryView, ArError>,
> {
    match r {
        None => None,
        Some(Err(e)) => Some(Err(e)),
        Some(Ok(m)) => Some(
            Ok(
                EntryView {
                    header: m.header@,
                    payload: data.subrange(m.start as int, m.start + m.len),
                    position: 0,
                },
            ),
        ),
    }
}

/// The state of a reader that has not read anything of `data` yet.
pub open spec fn fresh(data: Seq<u8>) -> ArchiveView {
    ArchiveView {
        data,
        offset: 0,
        variant: Variant::Common,
        table: Seq::empty(),
        symbol_table: None,
        started: false,
        pad_due: false,
        failed: false,
    }
}

/// The state of a reader that has come to `offset` in `data` with a scanner
/// in state `s`. A scanner that rests within a member belongs to no reader
/// at rest, and counts as failed.
pub open spec fn reader_state(data: Seq<u8>, offset: nat, s: ScannerView) -> ArchiveView {
    ArchiveView {
        data,
        offset,
        variant: s.variant,
        table: s.table,
        symbol_table: s.symbol_table,
        started: !(s.stage is Magic),
        pad_due: s.pad_due,
        failed: !(s.stage is Magic || s.stage is Between),
    }
}

/// A record that is not sixty bytes long is cut short.
proof fn lemma_short_record(raw: Seq<u8>, variant: Variant, table: Seq<u8>)
    requires
        raw.len() != RECORD_LEN,
    ensures
        parse_record(raw, variant, table) == Err::<RecordView, ArError>(
            ArError::Truncated { needed: RECORD_LEN as u64, available: raw.len() as u64 },
        ),
{
    reveal(parse_record);
}

/// The smaller of a demanded length and the number of bytes at hand.
fn at_most(len: u64, at_hand: usize) -> (n: usize)
    ensures
        n == if at_hand < len {
            at_hand as int
        } else {
            len as int
        },
{
    if (at_hand as u64) < len {
        at_hand
    } else {
        len as usize
    }
}

/// Reads an archive that lies in memory.
#[derive(Debug)]
pub struct Archive {
    data: Vec<u8>,
    offset: usize,
    scanner: Scanner,
}

impl View for Archive {
    type V = ArchiveView;

    closed spec fn view(&self) -> ArchiveView {
        reader_state(self.data@, self.offset as nat, self.scanner@)
    }
}

impl Archive {
    /// A reader over the bytes of an archive.
    pub fn new(data: Vec<u8>) -> (a: Archive)
        ensures
            a@ == fresh(data@),
    {
        Archive { data, offset: 0, scanner: Scanner::new() }
    }

    /// Gives the bytes of the archive back.
    pub fn into_inner(self) -> (r: Result<Vec<u8>, ArError>)
        ensures
            r is Ok,
            r->Ok_0@ == self@.data,
    {
        Ok(self.data)
    }

    /// The dialect of the archive, as far as the members read so far have
    /// shown it.
    pub fn variant(&self) -> (v: Variant)
        ensures
            v == self@.variant,
    {
        self.scanner.variant()
    }

    /// The symbols of the archive, read from the symbol table that the
    /// reader has passed last. There are none where it has passed no symbol
    /// table yet.
    pub fn symbols(&self) -> (r: Result<Symbols, ArError>)
        ensures
            same_symbols(
                r,
                match self@.symbol_table {
                    Some(t) => symbols_of(t, self@.variant),
                    None => Ok(Seq::empty()),
                },
            ),
    {
        self.scanner.symbols()
    }

    /// Reads the head of one member: the padding in front of its record,
    /// the record, and the inline name that the record may announce.
    /// Returns the place where the payload begins, `None` where the archive
    /// has ended, or the error that has ended the reading.
    #[verifier::rlimit(40)]
    fn read_head(&mut self) -> (r: Result<Option<(usize, Ghost<nat>)>, ArError>)
        requires
            old(self).scanner@.stage is Between,
            old(self).offset <= old(self).data@.len(),
        ensures
            final(self)@.data == old(self)@.data,
            match r {
                Err(e) => (final(self)@, Some(Err::<EntryView, ArError>(e))) == next(old(self)@),
                Ok(None) => (final(self)@, None::<Result<EntryView, ArError>>) == next(
                    old(self)@,
                ),
                Ok(Some((body, start))) => {
                    let a = old(self)@;
                    let s = final(self).scanner@;
                    &&& final(self).offset == old(self).offset
                    &&& record_start(a) == Ok::<nat, ArError>(start@)
                    &&& a.data.len() - start@ >= RECORD_LEN
                    &&& parse_record(
                        a.data.subrange(start@ as int, start@ + RECORD_LEN),
                        a.variant,
                        a.table,
                    ) is Ok
                    &&& s.stage is Body
                    &&& locate(
                        a.data,
                        start@,
                        parse_record(
                            a.data.subrange(start@ as int, start@ + RECORD_LEN),
                            a.variant,
                            a.table,
                        )->Ok_0,
                    ) == Ok::<Located, ArError>(
                        Located { record: s.stage->Body_0, body: body as nat, odd: s.stage->Body_1 },
                    )
                    &&& old(self).offset + RECORD_LEN <= body <= a.data.len()
                    &&& s.variant == a.variant
                    &&& s.table == a.table
                    &&& s.symbol_table == a.symbol_table
                    &&& s.pad_due == a.pad_due
                },
            },
    {
        proof {
            reveal(next);
        }
        let ghost a = self@;
        let total: usize = self.data.len();
        let mut pos: usize = self.offset;
        if self.scanner.pad_due() {
            let want: usize = at_most(1, total - pos);
            let pad: &[u8] = slice_subrange(self.data.as_slice(), pos, pos + want);
            proof {
                lemma_padding_supplied(self.scanner@, pad@);
            }
            match self.scanner.supply(pad) {
                Ok(true) => {
                    proof {
                        assert(record_start(a) == Ok::<nat, ArError>(pos as nat));
                        assert(find_member(a, pos as nat) == Ok::<Option<Located>, ArError>(None));
                    }
                    return Ok(None);
                },
                Ok(false) => {},
                Err(e) => {
                    proof {
                        assert(record_start(a) == Err::<nat, ArError>(e));
                    }
                    return Err(e);
                },
            }
            pos = pos + want;
        }
        assert(record_start(a) == Ok::<nat, ArError>(pos as nat));
        let want: usize = at_most(RECORD_LEN as u64, total - pos);
        let raw: &[u8] = slice_subrange(self.data.as_slice(), pos, pos + want);
        proof {
            if want != RECORD_LEN {
                lemma_short_record(raw@, a.variant, a.table);
            }
            lemma_record_supplied(self.scanner@, raw@);
        }
        match self.scanner.supply(raw) {
            Ok(true) => {
                self.offset = pos;
                proof {
                    assert(find_member(a, pos as nat) == Ok::<Option<Located>, ArError>(None));
                }
                return Ok(None);
            },
            Ok(false) => {},
            Err(e) => {
                proof {
                    assert(find_member(a, pos as nat) == Err::<Option<Located>, ArError>(e));
                }
                return Err(e);
            },
        }
        let ghost first = parse_record(raw@, a.variant, a.table)->Ok_0;
        let behind: usize = pos + want;
        let mut body: usize = behind;
        match self.scanner.awaited_name() {
            Some(len) => {
                let want: usize = at_most(len, total - behind);
                let name: &[u8] = slice_subrange(self.data.as_slice(), behind, behind + want);
                proof {
                    lemma_name_supplied(self.scanner@, name@);
                }
                match self.scanner.supply(name) {
                    Ok(_) => {},
                    Err(e) => {
                        proof {
                            assert(locate(a.data, pos as nat, first) == Err::<Located, ArError>(e));
                            assert(find_member(a, pos as nat) == Err::<Option<Located>, ArError>(
                                e,
                            ));
                        }
                        return Err(e);
                    },
                }
                proof {
                    assert(name@.subrange(0, len as int) == name@);
                }
                body = behind + want;
            },
            None => {},
        }
        Ok(Some((body, Ghost(pos as nat))))
    }

    /// Reads one member, from the padding in front of its record to the end
    /// of its payload. Returns the outcome of the step where this member
    /// decides it, and `None` where the member was a table that the reader
    /// keeps for itself, so that the step goes on with the next member.
    #[verifier::rlimit(40)]
    fn pass_member(&mut self) -> (r: Option<Option<Result<Found, ArError>>>)
        requires
            old(self).scanner@.stage is Between,
            old(self).offset <= old(self).data@.len(),
        ensures
            final(self)@.data == old(self)@.data,
            match r {
                Some(out) => {
                    &&& (final(self)@, found_view(out, old(self)@.data)) == next(old(self)@)
                    &&& out matches Some(Ok(m)) ==> m.start + m.len <= old(self)@.data.len()
                        && m.header@.size == m.len
                },
                None => {
                    &&& next(final(self)@) == next(old(self)@)
                    &&& final(self).scanner@.stage is Between
                    &&& old(self).offset < final(self).offset <= final(self).data@.len()
                },
            },
    {
        let ghost a = self@;
        let total: usize = self.data.len();
        let (body, start): (usize, Ghost<nat>) = match self.read_head() {
            Ok(Some(found)) => found,
            Ok(None) => {
                return Some(None);
            },
            Err(e) => {
                return Some(Some(Err(e)));
            },
        };
        proof {
            reveal(next);
        }
        let ghost here = self.scanner@.stage;
        let ghost found = Located { record: here->Body_0, body: body as nat, odd: here->Body_1 };
        match self.scanner.demand() {
            Demand::Read { len } => {
                let want: usize = at_most(len, total - body);
                let kept: &[u8] = slice_subrange(self.data.as_slice(), body, body + want);
                proof {
                    lemma_table_supplied(self.scanner@, kept@);
                }
                match self.scanner.supply(kept) {
                    Ok(_) => {},
                    Err(e) => {
                        proof {
                            assert(find_member(a, start@) == Err::<Option<Located>, ArError>(e));
                        }
                        return Some(Some(Err(e)));
                    },
                }
                proof {
                    assert(kept@.subrange(0, len as int) == kept@);
                    assert(find_member(a, start@) == Ok::<Option<Located>, ArError>(Some(found)));
                    assert(kept@ == payload_of(a, found));
                }
                self.offset = body + want;
                None
            },
            Demand::Member { len } => {
                match self.scanner.take_member((total - body) as u64) {
                    Some(Ok(header)) => {
                        let len: usize = len as usize;
                        self.offset = body + len;
                        proof {
                            assert(find_member(a, start@) == Ok::<Option<Located>, ArError>(
                                Some(found),
                            ));
                        }
                        Some(Some(Ok(Found { header, start: body, len })))
                    },
                    Some(Err(e)) => {
                        proof {
                            assert(find_member(a, start@) == Err::<Option<Located>, ArError>(e));
                        }
                        Some(Some(Err(e)))
                    },
                    None => Some(None),
                }
            },
            Demand::Nothing => Some(None),
        }
    }

    /// Makes one step and says where the member lies that it found. The
    /// scanner decides; this function hands it the bytes it demands.
    fn advance(&mut self) -> (r: Option<Result<Found, ArError>>)
        ensures
            (final(self)@, found_view(r, old(self)@.data)) == next(old(self)@),
            final(self)@.data == old(self)@.data,
            r matches Some(Ok(m)) ==> m.start + m.len <= old(self)@.data.len() && m.header@.size
                == m.len,
    {
        proof {
            reveal(next);
        }
        let total: usize = self.data.len();
        if self.offset > total {
            return None;
        }
        if !self.scanner.at_start() && !self.scanner.is_between() {
            return None;
        }
        if self.scanner.at_start() {
            let want: usize = at_most(GLOBAL_HEADER_LEN as u64, total - self.offset);
            let magic: &[u8] = slice_subrange(
                self.data.as_slice(),
                self.offset,
                self.offset + want,
            );
            proof {
                assert(global_header().len() == 8);
                lemma_magic_supplied(self.scanner@, magic@);
            }
            match self.scanner.supply(magic) {
                Ok(_) => {},
                Err(e) => {
                    return Some(Err(e));
                },
            }
            self.offset = self.offset + want;
        }
        loop
            invariant
                self.scanner@.stage is Between,
                self.offset <= self.data@.len(),
                self.data@ == old(self)@.data,
                next(self@) == next(old(self)@),
            decreases self.data@.len() - self.offset,
        {
            match self.pass_member() {
                Some(out) => {
                    return out;
                },
                None => {},
            }
        }
    }

    /// Reads on to the next member and hands it out, or `None` at the end
    /// of the archive and after an error. The name table and the symbol
    /// table are passed over in silence. What each call does is what
    /// [`next`] says of the state.
    pub fn next_entry(&mut self) -> (r: Option<Result<Entry<'_>, ArError>>)
        ensures
            (final(self)@, yielded(r)) == next(old(self)@),
    {
        match self.advance() {
            None => None,
            Some(Err(e)) => Some(Err(e)),
            Some(Ok(found)) => {
                proof {
                    assert(self.data@.len() == self.data.len());
                }
                let payload: &[u8] = slice_subrange(
                    self.data.as_slice(),
                    found.start,
                    found.start + found.len,
                );
                Some(Ok(Entry::new(found.header, payload)))
            },
        }
    }
}

} // verus!
