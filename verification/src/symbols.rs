//! The table of symbols that static libraries keep in a member of their own.
//!
//! The GNU layout has every number in four bytes, most significant first:
//! the count of symbols, then for each symbol the offset of the member that
//! defines it, then the names, each closed by a NUL byte. The BSD layout has
//! every number in four bytes, least significant first: the size in bytes of
//! a list of pairs, the pairs themselves (the place of the name in the
//! string table, the offset of the member), the size of the string table,
//! and the string table, in which each name is closed by a NUL byte.

use vstd::prelude::*;
use crate::archive::Variant;
use crate::bytes::copy_range;
use crate::error::ArError;

verus! {

/// One symbol, as mathematical values.
pub struct SymbolView {
    /// The name of the symbol.
    pub name: Seq<u8>,
    /// The offset in the archive of the member that defines it.
    pub offset: u64,
}

/// One symbol and the member that defines it.
#[derive(Clone, Debug, PartialEq, Eq)]
pub struct Symbol {
    name: Vec<u8>,
    offset: u64,
}

impl View for Symbol {
    type V = SymbolView;

    closed spec fn view(&self) -> SymbolView {
        SymbolView { name: self.name@, offset: self.offset }
    }
}

impl Symbol {
    /// The name of the symbol.
    pub fn name(&self) -> (n: &[u8])
        ensures
            n@ == self@.name,
    {
        self.name.as_slice()
    }

    /// The offset in the archive of the member that defines the symbol.
    pub fn offset(&self) -> (o: u64)
        ensures
            o == self@.offset,
    {
        self.offset
    }
}

/// The symbols of an archive, in the order of the table.
#[derive(Debug)]
pub struct Symbols {
    entries: Vec<Symbol>,
}

impl View for Symbols {
    type V = Seq<SymbolView>;

    closed spec fn view(&self) -> Seq<SymbolView> {
        Seq::new(self.entries@.len(), |i: int| self.entries@[i]@)
    }
}

impl Symbols {
    /// The number of symbols.
    pub fn len(&self) -> (n: usize)
        ensures
            n == self@.len(),
    {
        self.entries.len()
    }

    /// The symbol at `index`, or `None` behind the last one.
    pub fn get(&self, index: usize) -> (s: Option<&Symbol>)
        ensures
            index < self@.len() ==> s is Some && s->Some_0@ == self@[index as int],
            index >= self@.len() ==> s is None,
    {
        if index < self.entries.len() {
            Some(&self.entries[index])
        } else {
            None
        }
    }
}

/// The number that four bytes at `at` hold, most significant byte first.
pub open spec fn be32(bytes: Seq<u8>, at: int) -> nat {
    (bytes[at] * 0x100_0000 + bytes[at + 1] * 0x1_0000 + bytes[at + 2] * 0x100 + bytes[at + 3]) as nat
}

/// The number that four bytes at `at` hold, least significant byte first.
pub open spec fn le32(bytes: Seq<u8>, at: int) -> nat {
    (bytes[at + 3] * 0x100_0000 + bytes[at + 2] * 0x1_0000 + bytes[at + 1] * 0x100 + bytes[at]) as nat
}

/// The place of the first NUL byte at or behind `from`, or the length of
/// `bytes` where there is none.
pub open spec fn nul_at_or_after(bytes: Seq<u8>, from: int) -> int
    decreases bytes.len() - from,
{
    if from < 0 || from >= bytes.len() {
        bytes.len() as int
    } else if bytes[from] == 0 {
        from
    } else {
        nul_at_or_after(bytes, from + 1)
    }
}

/// The count of symbols in a GNU table.
pub open spec fn gnu_count(table: Seq<u8>) -> nat {
    be32(table, 0)
}

/// Where the name of symbol `k` begins in a GNU table: the first behind the
/// offsets, each other behind the NUL byte that closes the one before.
pub open spec fn gnu_name_start(table: Seq<u8>, k: nat) -> int
    decreases k,
{
    if k == 0 {
        4 + 4 * (gnu_count(table) as int)
    } else {
        nul_at_or_after(table, gnu_name_start(table, (k - 1) as nat)) + 1
    }
}

/// Whether a GNU table is complete: it holds its count, all its offsets,
/// and a NUL byte behind every name.
pub open spec fn gnu_table_complete(table: Seq<u8>) -> bool {
    &&& table.len() >= 4
    &&& 4 + 4 * gnu_count(table) <= table.len()
    &&& forall|k: nat|
        k < gnu_count(table) ==> nul_at_or_after(table, #[trigger] gnu_name_start(table, k))
            < table.len()
}

/// Symbol `k` of a GNU table.
pub open spec fn gnu_symbol(table: Seq<u8>, k: int) -> SymbolView {
    SymbolView {
        name: table.subrange(
            gnu_name_start(table, k as nat),
            nul_at_or_after(table, gnu_name_start(table, k as nat)),
        ),
        offset: be32(table, 4 + 4 * k) as u64,
    }
}

/// The symbols of a GNU table, or the error for one that is cut short.
pub open spec fn gnu_symbols(table: Seq<u8>) -> Result<Seq<SymbolView>, ArError> {
    if gnu_table_complete(table) {
        Ok(Seq::new(gnu_count(table), |k: int| gnu_symbol(table, k)))
    } else {
        Err(ArError::BadSymbolTable)
    }
}

/// The count of symbols in a BSD table: an eighth of the size of the list
/// of pairs.
pub open spec fn bsd_count(table: Seq<u8>) -> nat {
    le32(table, 0) / 8
}

/// Where the string table of a BSD table begins.
pub open spec fn bsd_strings_start(table: Seq<u8>) -> int {
    4 + 8 * (bsd_count(table) as int) + 4
}

/// The size that a BSD table gives for its string table.
pub open spec fn bsd_strings_len(table: Seq<u8>) -> nat {
    le32(table, 4 + 8 * (bsd_count(table) as int))
}

/// The string table of a BSD table.
pub open spec fn bsd_strings(table: Seq<u8>) -> Seq<u8> {
    table.subrange(bsd_strings_start(table), bsd_strings_start(table) + bsd_strings_len(table))
}

/// Whether a BSD table is complete: it holds the list of pairs and the
/// string table in the sizes it gives, and every name begins within the
/// string table or at its end.
pub open spec fn bsd_table_complete(table: Seq<u8>) -> bool {
    &&& table.len() >= 4
    &&& bsd_strings_start(table) <= table.len()
    &&& bsd_strings_start(table) + bsd_strings_len(table) <= table.len()
    &&& forall|k: int|
        0 <= k < bsd_count(table) ==> #[trigger] le32(table, 4 + 8 * k) <= bsd_strings_len(table)
}

/// Symbol `k` of a BSD table.
pub open spec fn bsd_symbol(table: Seq<u8>, k: int) -> SymbolView {
    let strings = bsd_strings(table);
    let start = le32(table, 4 + 8 * k) as int;
    SymbolView {
        name: strings.subrange(start, nul_at_or_after(strings, start)),
        offset: le32(table, 4 + 8 * k + 4) as u64,
    }
}

/// The symbols of a BSD table, or the error for one that is cut short.
pub open spec fn bsd_symbols(table: Seq<u8>) -> Result<Seq<SymbolView>, ArError> {
    if bsd_table_complete(table) {
        Ok(Seq::new(bsd_count(table), |k: int| bsd_symbol(table, k)))
    } else {
        Err(ArError::BadSymbolTable)
    }
}

/// The symbols that the payload of a symbol-table member holds in an
/// archive of the given dialect. The common dialect has no symbol table.
pub open spec fn symbols_of(table: Seq<u8>, variant: Variant) -> Result<Seq<SymbolView>, ArError> {
    match variant {
        Variant::Common => Ok(Seq::empty()),
        Variant::BSD => bsd_symbols(table),
        Variant::GNU => gnu_symbols(table),
    }
}

/// Whether an outcome of reading a symbol table is the one that the layout
/// prescribes.
pub open spec fn same_symbols(got: Result<Symbols, ArError>, expected: Result<Seq<SymbolView>, ArError>) -> bool {
    match (got, expected) {
        (Ok(s), Ok(v)) => s@ == v,
        (Err(a), Err(b)) => a == b,
        _ => false,
    }
}

/// Reads four bytes as a number, most significant byte first.
fn read_be32(bytes: &[u8], at: usize) -> (v: u64)
    requires
        at + 4 <= bytes@.len(),
    ensures
        v == be32(bytes@, at as int),
        v <= u32::MAX,
{
    proof {
        assert(bytes@.len() == bytes.len());
    }
    bytes[at] as u64 * 0x100_0000 + bytes[at + 1] as u64 * 0x1_0000 + bytes[at + 2] as u64 * 0x100
        + bytes[at + 3] as u64
}

/// Reads four bytes as a number, least significant byte first.
fn read_le32(bytes: &[u8], at: usize) -> (v: u64)
    requires
        at + 4 <= bytes@.len(),
    ensures
        v == le32(bytes@, at as int),
        v <= u32::MAX,
{
    proof {
        assert(bytes@.len() == bytes.len());
    }
    bytes[at + 3] as u64 * 0x100_0000 + bytes[at + 2] as u64 * 0x1_0000 + bytes[at + 1] as u64
        * 0x100 + bytes[at] as u64
}

/// Finds the first NUL byte at or behind `from`.
fn find_nul(bytes: &[u8], from: usize) -> (end: usize)
    requires
        from <= bytes@.len(),
    ensures
        from <= end <= bytes@.len(),
        end == nul_at_or_after(bytes@, from as int),
{
    let mut end: usize = from;
    while end < bytes.len() && bytes[end] != 0
        invariant
            from <= end <= bytes@.len(),
            nul_at_or_after(bytes@, from as int) == nul_at_or_after(bytes@, end as int),
        decreases bytes@.len() - end,
    {
        end = end + 1;
    }
    end
}

impl Symbols {
    /// No symbols.
    pub fn empty() -> (s: Symbols)
        ensures
            s@ == Seq::<SymbolView>::empty(),
    {
        let s = Symbols { entries: Vec::new() };
        proof {
            assert(s@ =~= Seq::<SymbolView>::empty());
        }
        s
    }

    /// Reads a symbol table in the GNU layout.
    pub fn parse_gnu(table: &[u8]) -> (r: Result<Symbols, ArError>)
        ensures
            same_symbols(r, gnu_symbols(table@)),
    {
        if table.len() < 4 {
            return Err(ArError::BadSymbolTable);
        }
        let count: u64 = read_be32(table, 0);
        if (table.len() - 4) as u64 / 4 < count {
            return Err(ArError::BadSymbolTable);
        }
        let count: usize = count as usize;
        let mut entries: Vec<Symbol> = Vec::new();
        let mut start: usize = 4 + 4 * count;
        let mut k: usize = 0;
        while k < count
            invariant
                k <= count,
                count == gnu_count(table@),
                table@.len() >= 4,
                4 + 4 * count <= table@.len(),
                start <= table@.len(),
                start == gnu_name_start(table@, k as nat),
                entries@.len() == k,
                forall|j: int| 0 <= j < k ==> (#[trigger] entries@[j])@ == gnu_symbol(table@, j),
                forall|j: nat|
                    j < k ==> nul_at_or_after(table@, #[trigger] gnu_name_start(table@, j))
                        < table@.len(),
            decreases count - k,
        {
            let end: usize = find_nul(table, start);
            if end >= table.len() {
                proof {
                    assert(!(nul_at_or_after(table@, gnu_name_start(table@, k as nat))
                        < table@.len()));
                }
                return Err(ArError::BadSymbolTable);
            }
            let offset: u64 = read_be32(table, 4 + 4 * k);
            entries.push(Symbol { name: copy_range(table, start, end), offset });
            start = end + 1;
            k = k + 1;
        }
        let s = Symbols { entries };
        proof {
            assert(gnu_table_complete(table@));
            assert(s@ =~= Seq::new(gnu_count(table@), |j: int| gnu_symbol(table@, j)));
        }
        Ok(s)
    }

    /// Reads a symbol table in the BSD layout.
    pub fn parse_bsd(table: &[u8]) -> (r: Result<Symbols, ArError>)
        ensures
            same_symbols(r, bsd_symbols(table@)),
    {
        if table.len() < 4 {
            return Err(ArError::BadSymbolTable);
        }
        let count: u64 = read_le32(table, 0) / 8;
        if table.len() - 4 < 4 || ((table.len() - 8) as u64) / 8 < count {
            return Err(ArError::BadSymbolTable);
        }
        let count: usize = count as usize;
        let strings_start: usize = 4 + 8 * count + 4;
        let strings_len: u64 = read_le32(table, 4 + 8 * count);
        if ((table.len() - strings_start) as u64) < strings_len {
            return Err(ArError::BadSymbolTable);
        }
        let strings: &[u8] = vstd::slice::slice_subrange(
            table,
            strings_start,
            strings_start + strings_len as usize,
        );
        let mut entries: Vec<Symbol> = Vec::new();
        let mut k: usize = 0;
        while k < count
            invariant
                k <= count,
                count == bsd_count(table@),
                strings_start == bsd_strings_start(table@),
                strings_len == bsd_strings_len(table@),
                strings@ == bsd_strings(table@),
                strings_start + strings_len <= table@.len(),
                entries@.len() == k,
                forall|j: int| 0 <= j < k ==> (#[trigger] entries@[j])@ == bsd_symbol(table@, j),
                forall|j: int|
                    0 <= j < k ==> #[trigger] le32(table@, 4 + 8 * j) <= bsd_strings_len(table@),
            decreases count - k,
        {
            let name_start: u64 = read_le32(table, 4 + 8 * k);
            if name_start > strings_len {
                return Err(ArError::BadSymbolTable);
            }
            let offset: u64 = read_le32(table, 4 + 8 * k + 4);
            let end: usize = find_nul(strings, name_start as usize);
            entries.push(Symbol { name: copy_range(strings, name_start as usize, end), offset });
            k = k + 1;
        }
        let s = Symbols { entries };
        proof {
            assert(bsd_table_complete(table@));
            assert(s@ =~= Seq::new(bsd_count(table@), |j: int| bsd_symbol(table@, j)));
        }
        Ok(s)
    }

    /// Reads the payload of a symbol-table member of an archive of the
    /// given dialect.
    pub fn parse(table: &[u8], variant: Variant) -> (r: Result<Symbols, ArError>)
        ensures
            same_symbols(r, symbols_of(table@, variant)),
    {
        match variant {
            Variant::Common => Ok(Symbols::empty()),
            Variant::BSD => Symbols::parse_bsd(table),
            Variant::GNU => Symbols::parse_gnu(table),
        }
    }
}

} // verus!
