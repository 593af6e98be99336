//! The bounded view of one member's payload.

use vstd::prelude::*;
use crate::error::ArError;
use crate::header::{Header, HeaderView};

verus! {

/// Where a seek is measured from.
#[derive(Clone, Copy, Debug, PartialEq, Eq)]
pub enum SeekFrom {
    /// From the first byte of the entry.
    Start(u64),
    /// From behind the last byte of the entry.
    End(i64),
    /// From the current position.
    Current(i64),
}

/// The absolute position that a seek aims at, in an entry of `length` bytes
/// read up to `position`.
pub open spec fn seek_target(length: u64, position: u64, pos: SeekFrom) -> int {
    match pos {
        SeekFrom::Start(offset) => offset as int,
        SeekFrom::End(offset) => length + offset,
        SeekFrom::Current(delta) => position + delta,
    }
}

/// What a seek comes to: the new position where the target lies within the
/// entry, its end included, and otherwise the error that says on which side
/// it fell.
pub open spec fn seek_outcome(length: u64, position: u64, pos: SeekFrom) -> Result<u64, ArError> {
    let target = seek_target(length, position, pos);
    if target < 0 {
        Err(ArError::SeekBeforeStart { target: target as i128 })
    } else if target > length {
        Err(ArError::SeekPastEnd { target: target as i128, length })
    } else {
        Ok(target as u64)
    }
}

/// Decides a seek in an entry of `length` bytes read up to `position`,
/// without touching any state.
pub fn plan_seek(length: u64, position: u64, pos: SeekFrom) -> (r: Result<u64, ArError>)
    ensures
        r == seek_outcome(length, position, pos),
{
    let target: i128 = match pos {
        SeekFrom::Start(offset) => offset as i128,
        SeekFrom::End(offset) => length as i128 + offset as i128,
        SeekFrom::Current(delta) => position as i128 + delta as i128,
    };
    if target < 0 {
        Err(ArError::SeekBeforeStart { target })
    } else if target > length as i128 {
        Err(ArError::SeekPastEnd { target, length })
    } else {
        Ok(target as u64)
    }
}

/// The number of bytes that one read may hand out: what is left of the
/// entry, or the room in the buffer where that is less.
pub open spec fn read_len(length: u64, position: u64, room: nat) -> nat {
    if position >= length {
        0
    } else if room <= length - position {
        room
    } else {
        (length - position) as nat
    }
}

/// The number of bytes that one read may ask of the source, for an entry of
/// `length` bytes read up to `position` and a buffer with `room` bytes.
pub fn read_limit(length: u64, position: u64, room: usize) -> (n: usize)
    ensures
        n == read_len(length, position, room as nat),
{
    if position >= length {
        0
    } else {
        let left: u64 = length - position;
        if room as u64 <= left {
            room
        } else {
            left as usize
        }
    }
}

/// What a read comes to that asked the source for `limit` bytes and was
/// handed `count`, in an entry of `length` bytes read up to `position`.
///
/// A source that hands out more than was asked for, or more than the entry
/// has left, has overrun. A source that hands out nothing where bytes were
/// asked for has ended within the payload: the payload is cut short by all
/// that was left of it. Otherwise the cursor moves on by `count`.
pub open spec fn read_outcome(length: u64, position: u64, limit: nat, count: nat) -> Result<
    u64,
    ArError,
> {
    if count > limit || position + count > length {
        Err(ArError::Overrun { asked: limit as u64, given: count as u64 })
    } else if count == 0 && limit > 0 {
        Err(ArError::Truncated { needed: (length - position) as u64, available: 0 })
    } else {
        Ok((position + count) as u64)
    }
}

/// Judges what a source handed out for a read: the new position of the
/// cursor, or the error for a payload that is cut short or a source that
/// has overrun.
pub fn after_read(length: u64, position: u64, limit: usize, count: usize) -> (r: Result<
    u64,
    ArError,
>)
    ensures
        r == read_outcome(length, position, limit as nat, count as nat),
{
    if count > limit || position > length || count as u64 > length - position {
        Err(ArError::Overrun { asked: limit as u64, given: count as u64 })
    } else if count == 0 && limit > 0 {
        Err(ArError::Truncated { needed: length - position, available: 0 })
    } else {
        Ok(position + count as u64)
    }
}

/// The number of bytes that must be skipped when an entry of `length` bytes
/// is left at `position`, so that the source stands at the end of the
/// payload.
pub fn drain_len(length: u64, position: u64) -> (n: u64)
    ensures
        n == if position < length { length - position } else { 0 },
{
    if position < length {
        length - position
    } else {
        0
    }
}

/// The step by which the source must move for a seek from `position` to
/// `target`, or `None` where the step does not fit in 64 signed bits.
pub fn relative_step(position: u64, target: u64) -> (step: Option<i64>)
    ensures
        step is Some <==> i64::MIN <= target - position <= i64::MAX,
        step is Some ==> step->Some_0 == target - position,
{
    let wide: i128 = target as i128 - position as i128;
    if wide < i64::MIN as i128 || wide > i64::MAX as i128 {
        None
    } else {
        Some(wide as i64)
    }
}

/// What an [`Entry`] holds, as mathematical values.
pub struct EntryView {
    pub header: HeaderView,
    pub payload: Seq<u8>,
    pub position: nat,
}

/// One member of an archive: its header, and a cursor over its payload that
/// never leaves it.
#[derive(Debug)]
pub struct Entry<'a> {
    header: Header,
    data: &'a [u8],
    position: u64,
}

impl<'a> View for Entry<'a> {
    type V = EntryView;

    closed spec fn view(&self) -> EntryView {
        EntryView {
            header: self.header@,
            payload: self.data@,
            position: self.position as nat,
        }
    }
}

impl<'a> Entry<'a> {
    #[verifier::type_invariant]
    spec fn cursor_inside(self) -> bool {
        self.position <= self.data@.len() == self.header@.size
    }

    /// An entry over the payload `data` of the member that `header`
    /// describes, positioned at its first byte. The payload has the size
    /// that the header declares.
    pub fn new(header: Header, data: &'a [u8]) -> (e: Entry<'a>)
        requires
            data@.len() == header@.size,
        ensures
            e@ == (EntryView { header: header@, payload: data@, position: 0 }),
    {
        Entry { header, data, position: 0 }
    }

    /// The header of this member.
    pub fn header(&self) -> (h: &Header)
        ensures
            h@ == self@.header,
            h@.size == self@.payload.len(),
    {
        proof {
            use_type_invariant(self);
        }
        &self.header
    }

    /// The number of payload bytes.
    pub fn length(&self) -> (n: u64)
        ensures
            n == self@.payload.len(),
            n == self@.header.size,
    {
        proof {
            use_type_invariant(self);
        }
        self.data.len() as u64
    }

    /// The number of payload bytes that have been read or skipped.
    pub fn position(&self) -> (n: u64)
        ensures
            n == self@.position,
            n <= self@.payload.len(),
    {
        proof {
            use_type_invariant(self);
        }
        self.position
    }

    /// The number of payload bytes that are left.
    pub fn remaining(&self) -> (n: u64)
        ensures
            n == self@.payload.len() - self@.position,
    {
        proof {
            use_type_invariant(self);
        }
        drain_len(self.data.len() as u64, self.position)
    }

    /// Copies payload bytes into the front of `buf` and moves the cursor
    /// behind them. As many bytes are copied as `buf` has room for, or as are
    /// left; at the end of the payload that is none.
    pub fn read(&mut self, buf: &mut [u8]) -> (n: usize)
        ensures
            n == read_len(
                old(self)@.payload.len() as u64,
                old(self)@.position as u64,
                old(buf)@.len(),
            ),
            final(self)@ == (EntryView { position: (old(self)@.position + n) as nat, ..old(self)@ }),
            final(buf)@ == old(self)@.payload.subrange(
                old(self)@.position as int,
                old(self)@.position + n,
            ) + old(buf)@.subrange(n as int, old(buf)@.len() as int),
    {
        proof {
            use_type_invariant(&*self);
        }
        let n: usize = read_limit(self.data.len() as u64, self.position, buf.len());
        let start: usize = self.position as usize;
        proof {
            assert(self.data@.len() == self.data.len());
        }
        let mut i: usize = 0;
        while i < n
            invariant
                i <= n,
                n <= buf@.len(),
                buf@.len() == old(buf)@.len(),
                start + n <= self.data@.len() <= usize::MAX,
                self.data@ == old(self).data@,
                forall|j: int| 0 <= j < i ==> buf@[j] == self.data@[start + j],
                forall|j: int| i <= j < buf@.len() ==> buf@[j] == old(buf)@[j],
            decreases n - i,
        {
            buf[i] = self.data[start + i];
            i = i + 1;
        }
        self.position = self.position + n as u64;
        proof {
            assert(buf@ =~= old(self)@.payload.subrange(start as int, start + n) + old(buf)@.subrange(
                n as int,
                old(buf)@.len() as int,
            ));
        }
        n
    }

    /// Moves the cursor. A target before the first byte or behind the end of
    /// the payload is refused and the cursor stays where it was; the end
    /// itself is a valid target. Returns the new position.
    pub fn seek(&mut self, pos: SeekFrom) -> (r: Result<u64, ArError>)
        ensures
            r == seek_outcome(old(self)@.payload.len() as u64, old(self)@.position as u64, pos),
            r is Ok ==> final(self)@ == (EntryView { position: r->Ok_0 as nat, ..old(self)@ }),
            r is Err ==> final(self)@ == old(self)@,
    {
        proof {
            use_type_invariant(&*self);
        }
        match plan_seek(self.data.len() as u64, self.position, pos) {
            Ok(target) => {
                self.position = target;
                Ok(target)
            },
            Err(e) => Err(e),
        }
    }
}

} // verus!
