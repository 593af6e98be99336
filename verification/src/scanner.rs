//! The reader as a state machine that never touches a source: it says what
//! it needs next, is handed those bytes, and says what they meant.
//!
//! A caller drives a [`Scanner`] in a loop. It asks for the
//! [`Demand`]. For [`Demand::Read`] it reads up to that many bytes from its
//! source, fewer only where the source ends, and hands them to
//! [`Scanner::supply`]. For [`Demand::Member`] it takes the header with
//! [`Scanner::take_member`], hands the payload to its own caller, and skips
//! what that caller leaves of it. On [`Demand::Nothing`] it stops.

use vstd::prelude::*;
use vstd::slice::slice_subrange;
use crate::archive::Variant;
use crate::builder::global_header;
use crate::bytes::copy_range;
use crate::error::ArError;
use crate::header::{Header, HeaderView, NEWLINE, RECORD_LEN};
use crate::record::{parse, parse_record, with_inline_name, Record, RecordView, Shape};
use crate::symbols::{same_symbols, symbols_of, Symbols};

verus! {

/// The length of the archive magic.
pub const GLOBAL_HEADER_LEN: usize = 8;

/// Whether `bytes` are the archive magic `!<arch>\n`.
pub fn is_global_header(bytes: &[u8]) -> (r: bool)
    ensures
        r == (bytes@ == global_header()),
{
    let r = bytes.len() == GLOBAL_HEADER_LEN && bytes[0] == 0x21u8 && bytes[1] == 0x3cu8 && bytes[2]
        == 0x61u8 && bytes[3] == 0x72u8 && bytes[4] == 0x63u8 && bytes[5] == 0x68u8 && bytes[6]
        == 0x3eu8 && bytes[7] == 0x0au8;
    proof {
        let m = global_header();
        assert(m.len() == 8);
        assert(m[0] == 0x21u8 && m[1] == 0x3cu8 && m[2] == 0x61u8 && m[3] == 0x72u8);
        assert(m[4] == 0x63u8 && m[5] == 0x68u8 && m[6] == 0x3eu8 && m[7] == 0x0au8);
        if r {
            assert(bytes@ =~= m);
        }
    }
    r
}

/// What the byte behind an odd-sized member must be.
pub open spec fn padding_check(found: u8) -> Result<(), ArError> {
    if found == NEWLINE {
        Ok(())
    } else {
        Err(ArError::BadPadding { found })
    }
}

/// Checks the byte that follows an odd-sized member.
pub fn check_padding(found: u8) -> (r: Result<(), ArError>)
    ensures
        r == padding_check(found),
{
    if found == NEWLINE {
        Ok(())
    } else {
        Err(ArError::BadPadding { found })
    }
}

/// Whether a member whose payload and inline name take `size` and
/// `name_len` bytes is followed by a padding byte.
pub fn padding_due(size: u64, name_len: u64) -> (odd: bool)
    ensures
        odd == ((size + name_len) % 2 == 1),
{
    (size as u128 + name_len as u128) % 2 == 1
}

/// What a scanner needs next.
#[derive(Clone, Copy, Debug, PartialEq, Eq)]
pub enum Demand {
    /// The next `len` bytes of the source, or as many as are left of it.
    Read { len: u64 },
    /// Nothing to read: a member with a payload of `len` bytes is ready to
    /// be taken.
    Member { len: u64 },
    /// Nothing at all: the scanner has failed.
    Nothing,
}

/// How far a scanner has come within a member, as mathematical values.
pub enum StageView {
    /// Nothing has been read; the archive magic comes first.
    Magic,
    /// Between two members.
    Between,
    /// The padding behind the last member has been read; a record comes
    /// next.
    Record,
    /// A record has announced an inline name of so many bytes.
    Name(RecordView, u64),
    /// A record is complete and its payload comes next; the flag says
    /// whether padding follows the payload.
    Body(RecordView, bool),
    /// An error has ended the scan.
    Failed,
}

/// How far a scanner has come within a member.
#[derive(Debug)]
enum Stage {
    /// Nothing has been read; the archive magic comes first.
    Magic,
    /// Between two members.
    Between,
    /// The padding behind the last member has been read; a record comes
    /// next.
    Record,
    /// A record has announced an inline name of so many bytes.
    Name(Record, u64),
    /// A record is complete and its payload comes next; the flag says
    /// whether padding follows the payload.
    Body(Record, bool),
    /// An error has ended the scan.
    Failed,
}

impl View for Stage {
    type V = StageView;

    closed spec fn view(&self) -> StageView {
        match self {
            Stage::Magic => StageView::Magic,
            Stage::Between => StageView::Between,
            Stage::Record => StageView::Record,
            Stage::Name(r, n) => StageView::Name(r@, *n),
            Stage::Body(r, odd) => StageView::Body(r@, *odd),
            Stage::Failed => StageView::Failed,
        }
    }
}

/// The state of a scanner, as mathematical values.
pub struct ScannerView {
    /// How far the scanner has come within a member.
    pub stage: StageView,
    /// The dialect as far as the members passed so far have shown it.
    pub variant: Variant,
    /// The GNU name table, empty until one has been passed.
    pub table: Seq<u8>,
    /// The payload of the last symbol table that was passed.
    pub symbol_table: Option<Seq<u8>>,
    /// Whether a padding byte follows the last member that was passed.
    pub pad_due: bool,
}

/// The state of a scanner that has seen nothing yet.
pub open spec fn initial() -> ScannerView {
    ScannerView {
        stage: StageView::Magic,
        variant: Variant::Common,
        table: Seq::empty(),
        symbol_table: None,
        pad_due: false,
    }
}

/// The state after an error: the scan is over, and what was known of the
/// archive before the member that failed stays as it was.
pub open spec fn failed_scan(s: ScannerView) -> ScannerView {
    ScannerView { stage: StageView::Failed, ..s }
}

/// Whether a record announces a table that the scanner keeps for itself.
pub open spec fn is_kept(shape: Shape) -> bool {
    shape is NameTable || shape is SymbolTable
}

/// What a scanner needs next.
pub open spec fn demand_of(s: ScannerView) -> Demand {
    match s.stage {
        StageView::Magic => Demand::Read { len: GLOBAL_HEADER_LEN as u64 },
        StageView::Between => Demand::Read {
            len: if s.pad_due {
                1
            } else {
                RECORD_LEN as u64
            },
        },
        StageView::Record => Demand::Read { len: RECORD_LEN as u64 },
        StageView::Name(_, len) => Demand::Read { len },
        StageView::Body(r, _) => if is_kept(r.shape) {
            Demand::Read { len: r.header.size }
        } else {
            Demand::Member { len: r.header.size }
        },
        StageView::Failed => Demand::Nothing,
    }
}

/// What a scanner that awaits a record makes of the bytes it is handed. No
/// bytes mean that the archive has ended, and the outcome says so with
/// `true`.
pub open spec fn record_supplied(s: ScannerView, bytes: Seq<u8>) -> (
    ScannerView,
    Result<bool, ArError>,
) {
    if bytes.len() == 0 {
        (ScannerView { stage: StageView::Between, pad_due: false, ..s }, Ok(true))
    } else {
        match parse_record(bytes, s.variant, s.table) {
            Err(e) => (failed_scan(s), Err(e)),
            Ok(r) => match r.shape {
                Shape::InlineName { name_len } => (
                    ScannerView { stage: StageView::Name(r, name_len), ..s },
                    Ok(false),
                ),
                _ => (
                    ScannerView { stage: StageView::Body(r, r.header.size % 2 == 1), ..s },
                    Ok(false),
                ),
            },
        }
    }
}

/// What a scanner makes of the bytes it is handed for a demand to read:
/// the state it goes to, and either an error, or whether the archive has
/// ended.
///
/// The archive magic must be just that. Padding must be a newline, and
/// where the source ends in place of it the archive has ended. A record is
/// read as the format has it. An inline name and a table must come in full;
/// a table is kept, and with it the scanner has passed the member. Where
/// the scanner demands no bytes, nothing happens.
#[verifier::opaque]
pub open spec fn supplied(s: ScannerView, bytes: Seq<u8>) -> (ScannerView, Result<bool, ArError>) {
    match s.stage {
        StageView::Magic => if bytes == global_header() {
            (ScannerView { stage: StageView::Between, ..s }, Ok(false))
        } else {
            (failed_scan(s), Err(ArError::BadMagic))
        },
        StageView::Between => if !s.pad_due {
            record_supplied(s, bytes)
        } else if bytes.len() == 0 {
            (ScannerView { pad_due: false, ..s }, Ok(true))
        } else {
            match padding_check(bytes[0]) {
                Ok(()) => (ScannerView { stage: StageView::Record, ..s }, Ok(false)),
                Err(e) => (failed_scan(s), Err(e)),
            }
        },
        StageView::Record => record_supplied(s, bytes),
        StageView::Name(r, name_len) => if bytes.len() < name_len {
            (
                failed_scan(s),
                Err(ArError::Truncated { needed: name_len, available: bytes.len() as u64 }),
            )
        } else {
            (
                ScannerView {
                    stage: StageView::Body(
                        with_inline_name(r, bytes.subrange(0, name_len as int)),
                        (r.header.size + name_len) % 2 == 1,
                    ),
                    ..s
                },
                Ok(false),
            )
        },
        StageView::Body(r, odd) => if !is_kept(r.shape) {
            (s, Ok(false))
        } else if bytes.len() < r.header.size {
            (
                failed_scan(s),
                Err(ArError::Truncated { needed: r.header.size, available: bytes.len() as u64 }),
            )
        } else {
            let kept = bytes.subrange(0, r.header.size as int);
            let passed = ScannerView {
                stage: StageView::Between,
                pad_due: odd,
                variant: r.variant,
                ..s
            };
            if r.shape is NameTable {
                (ScannerView { table: kept, ..passed }, Ok(false))
            } else {
                (ScannerView { symbol_table: Some(kept), ..passed }, Ok(false))
            }
        },
        StageView::Failed => (s, Ok(false)),
    }
}

/// What the archive magic comes to.
pub proof fn lemma_magic_supplied(s: ScannerView, bytes: Seq<u8>)
    requires
        s.stage is Magic,
    ensures
        supplied(s, bytes) == if bytes == global_header() {
            (ScannerView { stage: StageView::Between, ..s }, Ok::<bool, ArError>(false))
        } else {
            (failed_scan(s), Err::<bool, ArError>(ArError::BadMagic))
        },
{
    reveal(supplied);
}

/// What the padding between two members comes to.
pub proof fn lemma_padding_supplied(s: ScannerView, bytes: Seq<u8>)
    requires
        s.stage is Between,
        s.pad_due,
    ensures
        supplied(s, bytes) == if bytes.len() == 0 {
            (ScannerView { pad_due: false, ..s }, Ok::<bool, ArError>(true))
        } else {
            match padding_check(bytes[0]) {
                Ok(()) => (ScannerView { stage: StageView::Record, ..s }, Ok::<bool, ArError>(false)),
                Err(e) => (failed_scan(s), Err::<bool, ArError>(e)),
            }
        },
{
    reveal(supplied);
}

/// What a record comes to.
pub proof fn lemma_record_supplied(s: ScannerView, bytes: Seq<u8>)
    requires
        s.stage is Record || (s.stage is Between && !s.pad_due),
    ensures
        supplied(s, bytes) == record_supplied(s, bytes),
{
    reveal(supplied);
}

/// What an inline name comes to.
pub proof fn lemma_name_supplied(s: ScannerView, bytes: Seq<u8>)
    requires
        s.stage is Name,
    ensures
        supplied(s, bytes) == if bytes.len() < s.stage->Name_1 {
            (
                failed_scan(s),
                Err::<bool, ArError>(
                    ArError::Truncated {
                        needed: s.stage->Name_1,
                        available: bytes.len() as u64,
                    },
                ),
            )
        } else {
            (
                ScannerView {
                    stage: StageView::Body(
                        with_inline_name(s.stage->Name_0, bytes.subrange(0, s.stage->Name_1 as int)),
                        (s.stage->Name_0.header.size + s.stage->Name_1) % 2 == 1,
                    ),
                    ..s
                },
                Ok::<bool, ArError>(false),
            )
        },
{
    reveal(supplied);
}

/// What a table that the scanner keeps comes to.
pub proof fn lemma_table_supplied(s: ScannerView, bytes: Seq<u8>)
    requires
        s.stage is Body,
        is_kept(s.stage->Body_0.shape),
    ensures
        supplied(s, bytes) == {
            let r = s.stage->Body_0;
            if bytes.len() < r.header.size {
                (
                    failed_scan(s),
                    Err::<bool, ArError>(
                        ArError::Truncated {
                            needed: r.header.size,
                            available: bytes.len() as u64,
                        },
                    ),
                )
            } else {
                let kept = bytes.subrange(0, r.header.size as int);
                let passed = ScannerView {
                    stage: StageView::Between,
                    pad_due: s.stage->Body_1,
                    variant: r.variant,
                    ..s
                };
                if r.shape is NameTable {
                    (ScannerView { table: kept, ..passed }, Ok::<bool, ArError>(false))
                } else {
                    (ScannerView { symbol_table: Some(kept), ..passed }, Ok::<bool, ArError>(false))
                }
            }
        },
{
    reveal(supplied);
}

/// What taking a member comes to when the source is known to hold
/// `available` bytes for the payload: nothing where no member is ready; an
/// error, and the end of the scan, where the payload is cut short; and
/// otherwise the header, with the scanner behind the member.
pub open spec fn member_taken(s: ScannerView, available: u64) -> (
    ScannerView,
    Option<Result<HeaderView, ArError>>,
) {
    match s.stage {
        StageView::Body(r, odd) => if is_kept(r.shape) {
            (s, None)
        } else if available < r.header.size {
            (
                failed_scan(s),
                Some(Err(ArError::Truncated { needed: r.header.size, available })),
            )
        } else {
            (
                ScannerView {
                    stage: StageView::Between,
                    pad_due: odd,
                    variant: r.variant,
                    ..s
                },
                Some(Ok(r.header)),
            )
        },
        _ => (s, None),
    }
}

/// What a call of [`Scanner::take_member`] handed out, as mathematical
/// values.
pub open spec fn taken(r: Option<Result<Header, ArError>>) -> Option<Result<HeaderView, ArError>> {
    match r {
        None => None,
        Some(Err(e)) => Some(Err(e)),
        Some(Ok(h)) => Some(Ok(h@)),
    }
}

/// The decisions of the reader, apart from any source of bytes.
#[derive(Debug)]
pub struct Scanner {
    stage: Stage,
    variant: Variant,
    table: Vec<u8>,
    symbol_table: Option<Vec<u8>>,
    pad_due: bool,
}

impl View for Scanner {
    type V = ScannerView;

    closed spec fn view(&self) -> ScannerView {
        ScannerView {
            stage: self.stage@,
            variant: self.variant,
            table: self.table@,
            symbol_table: match self.symbol_table {
                Some(t) => Some(t@),
                None => None,
            },
            pad_due: self.pad_due,
        }
    }
}

impl Scanner {
    /// A scanner that has seen nothing yet.
    pub fn new() -> (s: Scanner)
        ensures
            s@ == initial(),
    {
        Scanner {
            stage: Stage::Magic,
            variant: Variant::Common,
            table: Vec::new(),
            symbol_table: None,
            pad_due: false,
        }
    }

    /// The dialect of the archive, as far as the members passed so far have
    /// shown it.
    pub fn variant(&self) -> (v: Variant)
        ensures
            v == self@.variant,
    {
        self.variant
    }

    /// The symbols of the archive, read from the symbol table that the
    /// scanner has passed last. There are none where it has passed no
    /// symbol table yet.
    pub fn symbols(&self) -> (r: Result<Symbols, ArError>)
        ensures
            same_symbols(
                r,
                match self@.symbol_table {
                    Some(t) => symbols_of(t, self@.variant),
                    None => Ok(Seq::empty()),
                },
            ),
    {
        match &self.symbol_table {
            Some(t) => Symbols::parse(t.as_slice(), self.variant),
            None => Ok(Symbols::empty()),
        }
    }

    /// Whether the scanner has seen nothing yet.
    pub fn at_start(&self) -> (b: bool)
        ensures
            b == (self@.stage is Magic),
    {
        match &self.stage {
            Stage::Magic => true,
            _ => false,
        }
    }

    /// Whether the scanner stands between two members.
    pub fn is_between(&self) -> (b: bool)
        ensures
            b == (self@.stage is Between),
    {
        match &self.stage {
            Stage::Between => true,
            _ => false,
        }
    }

    /// Whether a padding byte follows the last member that was passed.
    pub fn pad_due(&self) -> (b: bool)
        ensures
            b == self@.pad_due,
    {
        self.pad_due
    }

    /// The length of the inline name that the scanner awaits, if it awaits
    /// one.
    pub fn awaited_name(&self) -> (n: Option<u64>)
        ensures
            n == match self@.stage {
                StageView::Name(_, len) => Some(len),
                _ => None,
            },
    {
        match &self.stage {
            Stage::Name(_, len) => Some(*len),
            _ => None,
        }
    }

    /// What the scanner needs next.
    pub fn demand(&self) -> (d: Demand)
        ensures
            d == demand_of(self@),
    {
        match &self.stage {
            Stage::Magic => Demand::Read { len: GLOBAL_HEADER_LEN as u64 },
            Stage::Between => if self.pad_due {
                Demand::Read { len: 1 }
            } else {
                Demand::Read { len: RECORD_LEN as u64 }
            },
            Stage::Record => Demand::Read { len: RECORD_LEN as u64 },
            Stage::Name(_, len) => Demand::Read { len: *len },
            Stage::Body(r, _) => match r.shape {
                Shape::NameTable => Demand::Read { len: r.header.size() },
                Shape::SymbolTable => Demand::Read { len: r.header.size() },
                _ => Demand::Member { len: r.header.size() },
            },
            Stage::Failed => Demand::Nothing,
        }
    }

    /// Reads a record and goes on to what it announces.
    fn supply_record(&mut self, bytes: &[u8]) -> (r: Result<bool, ArError>)
        ensures
            (final(self)@, r) == record_supplied(old(self)@, bytes@),
    {
        if bytes.len() == 0 {
            self.stage = Stage::Between;
            self.pad_due = false;
            return Ok(true);
        }
        match parse(bytes, self.variant, self.table.as_slice()) {
            Err(e) => {
                self.stage = Stage::Failed;
                Err(e)
            },
            Ok(record) => {
                match record.shape {
                    Shape::InlineName { name_len } => {
                        self.stage = Stage::Name(record, name_len);
                    },
                    _ => {
                        let odd: bool = padding_due(record.header.size(), 0);
                        self.stage = Stage::Body(record, odd);
                    },
                }
                Ok(false)
            },
        }
    }

    /// Hands the scanner the bytes that it demanded: all of them, or as
    /// many as the source had left. Returns whether the archive has ended.
    pub fn supply(&mut self, bytes: &[u8]) -> (r: Result<bool, ArError>)
        ensures
            (final(self)@, r) == supplied(old(self)@, bytes@),
    {
        proof {
            reveal(supplied);
        }
        let mut stage: Stage = Stage::Failed;
        std::mem::swap(&mut self.stage, &mut stage);
        match stage {
            Stage::Magic => {
                if is_global_header(bytes) {
                    self.stage = Stage::Between;
                    Ok(false)
                } else {
                    Err(ArError::BadMagic)
                }
            },
            Stage::Between => {
                if !self.pad_due {
                    self.stage = Stage::Between;
                    self.supply_record(bytes)
                } else if bytes.len() == 0 {
                    self.stage = Stage::Between;
                    self.pad_due = false;
                    Ok(true)
                } else {
                    match check_padding(bytes[0]) {
                        Ok(()) => {
                            self.stage = Stage::Record;
                            Ok(false)
                        },
                        Err(e) => Err(e),
                    }
                }
            },
            Stage::Record => {
                self.stage = Stage::Record;
                self.supply_record(bytes)
            },
            Stage::Name(record, name_len) => {
                if (bytes.len() as u64) < name_len {
                    Err(ArError::Truncated { needed: name_len, available: bytes.len() as u64 })
                } else {
                    let odd: bool = padding_due(record.header.size(), name_len);
                    let named: Record = record.with_inline_name(
                        slice_subrange(bytes, 0, name_len as usize),
                    );
                    self.stage = Stage::Body(named, odd);
                    Ok(false)
                }
            },
            Stage::Body(record, odd) => {
                let size: u64 = record.header.size();
                match record.shape {
                    Shape::NameTable => {
                        if (bytes.len() as u64) < size {
                            Err(ArError::Truncated { needed: size, available: bytes.len() as u64 })
                        } else {
                            self.table = copy_range(bytes, 0, size as usize);
                            self.stage = Stage::Between;
                            self.pad_due = odd;
                            self.variant = record.variant;
                            Ok(false)
                        }
                    },
                    Shape::SymbolTable => {
                        if (bytes.len() as u64) < size {
                            Err(ArError::Truncated { needed: size, available: bytes.len() as u64 })
                        } else {
                            self.symbol_table = Some(copy_range(bytes, 0, size as usize));
                            self.stage = Stage::Between;
                            self.pad_due = odd;
                            self.variant = record.variant;
                            Ok(false)
                        }
                    },
                    _ => {
                        self.stage = Stage::Body(record, odd);
                        Ok(false)
                    },
                }
            },
            Stage::Failed => Ok(false),
        }
    }

    /// Takes the member that is ready. `available` is the number of bytes
    /// that the source is known to hold for the payload; a caller that
    /// cannot know passes the length of the payload itself.
    pub fn take_member(&mut self, available: u64) -> (r: Option<Result<Header, ArError>>)
        ensures
            (final(self)@, taken(r)) == member_taken(old(self)@, available),
    {
        let mut stage: Stage = Stage::Failed;
        std::mem::swap(&mut self.stage, &mut stage);
        match stage {
            Stage::Body(record, odd) => {
                match record.shape {
                    Shape::NameTable => {
                        self.stage = Stage::Body(record, odd);
                        None
                    },
                    Shape::SymbolTable => {
                        self.stage = Stage::Body(record, odd);
                        None
                    },
                    _ => {
                        let size: u64 = record.header.size();
                        if available < size {
                            Some(Err(ArError::Truncated { needed: size, available }))
                        } else {
                            self.stage = Stage::Between;
                            self.pad_due = odd;
                            self.variant = record.variant;
                            Some(Ok(record.header))
                        }
                    },
                }
            },
            other => {
                self.stage = other;
                None
            },
        }
    }
}

} // verus!
