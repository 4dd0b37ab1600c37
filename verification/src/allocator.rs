//! The allocator that every operation runs against, and the conversation with it.
//!
//! A block lives in a file that only an allocator can read, write and carve up. The library
//! speaks to it through [`BStackRaiiAllocator`]; every call is one [`Event`] of the
//! conversation, the request together with the reply. Contracts of the library say which
//! requests are made, in which order, and what is made of the replies.
use vstd::pervasive::arbitrary;
use vstd::prelude::*;

use crate::error::Error;
use crate::range::{BStackRange, FileId};

verus! {

/// How a counter in the file is changed in one indivisible step.
#[derive(Clone, Copy, Debug, PartialEq, Eq, Structural)]
pub enum CounterOp {
    /// Add, unless the sum would not fit.
    Add(u64),
    /// Subtract, unless the difference would be negative.
    Sub(u64),
    /// Add one, unless the counter is zero or full.
    IncrementIfNonzero,
}

impl CounterOp {
    /// The counter after the step, where it was `cur` before.
    pub open spec fn spec_apply(self, cur: u64) -> u64 {
        match self {
            CounterOp::Add(d) => if cur + d <= u64::MAX {
                (cur + d) as u64
            } else {
                cur
            },
            CounterOp::Sub(d) => if d <= cur {
                (cur - d) as u64
            } else {
                cur
            },
            CounterOp::IncrementIfNonzero => if 0 < cur < u64::MAX {
                (cur + 1) as u64
            } else {
                cur
            },
        }
    }

    /// The counter after the step, where it was `cur` before.
    pub fn apply(&self, cur: u64) -> (r: u64)
        ensures
            r == self.spec_apply(cur),
    {
        match *self {
            CounterOp::Add(d) => match cur.checked_add(d) {
                Some(v) => v,
                None => cur,
            },
            CounterOp::Sub(d) => match cur.checked_sub(d) {
                Some(v) => v,
                None => cur,
            },
            CounterOp::IncrementIfNonzero => if cur != 0 && cur != u64::MAX {
                cur + 1
            } else {
                cur
            },
        }
    }
}

/// What an allocator is, as far as it never changes.
#[derive(Clone, Copy, Debug, PartialEq, Eq, Structural)]
pub struct Settings {
    /// The slot that holds the offset of the log block, if the allocator has one.
    pub anchor: Option<u64>,
    /// Whether several blocks can be taken and given back in one indivisible step.
    pub bulk: bool,
    /// The file in which frees through this allocator happen, as seen from the home file.
    pub file: FileId,
    /// A number that no other open file has.
    pub stack: u64,
}

/// One request to an allocator, and its reply.
#[allow(inconsistent_fields)]
pub enum Event {
    /// Read `len` bytes from `off` on.
    Read { off: u64, len: u64, reply: Result<Seq<u8>, Error> },
    /// Write `bytes` from `off` on.
    Write { off: u64, bytes: Seq<u8>, reply: Result<(), Error> },
    /// Make several writes in one indivisible step.
    WriteBatch { writes: Seq<(u64, Seq<u8>)>, reply: Result<(), Error> },
    /// Write `bytes` from `off` on, and read what was there, in one indivisible step.
    Swap { off: u64, bytes: Seq<u8>, reply: Result<Seq<u8>, Error> },
    /// Copy `len` bytes from `from` on to `to` on, in one indivisible step.
    Copy { from: u64, to: u64, len: u64, reply: Result<(), Error> },
    /// Change the counter at `off`; the reply is its value before.
    Process { off: u64, op: CounterOp, reply: Result<u64, Error> },
    /// Set the counter at `off` to `new` if it is `expected`; the reply says whether it was.
    Cas { off: u64, expected: u64, new: u64, reply: Result<bool, Error> },
    /// Take a block of `len` bytes.
    Alloc { len: u64, reply: Result<BStackRange, Error> },
    /// Give a block back.
    Dealloc { range: BStackRange, reply: Result<(), Error> },
    /// Take several blocks in one indivisible step.
    AllocBulk { lens: Seq<u64>, reply: Result<Seq<BStackRange>, Error> },
    /// Give several blocks back in one indivisible step.
    DeallocBulk { ranges: Seq<BStackRange>, reply: Result<(), Error> },
    /// Give a block of another file back, if that file is open.
    HostDealloc { file: FileId, range: BStackRange, reply: Option<Result<(), Error>> },
}

/// The bytes of a reply.
pub open spec fn bytes_view(r: Result<Vec<u8>, Error>) -> Result<Seq<u8>, Error> {
    match r {
        Ok(v) => Ok(v@),
        Err(e) => Err(e),
    }
}

/// The ranges of a reply.
pub open spec fn ranges_view(r: Result<Vec<BStackRange>, Error>) -> Result<Seq<BStackRange>, Error> {
    match r {
        Ok(v) => Ok(v@),
        Err(e) => Err(e),
    }
}

/// The writes of a batch.
pub open spec fn writes_view(w: Seq<(u64, Vec<u8>)>) -> Seq<(u64, Seq<u8>)> {
    w.map_values(|p: (u64, Vec<u8>)| (p.0, p.1@))
}

/// Whether the conversation `new` continues the conversation `before`.
pub open spec fn extends(before: Seq<Event>, new: Seq<Event>) -> bool {
    before.len() <= new.len() && new.take(before.len() as int) == before
}

/// What was said in the conversation `new` after `before`.
pub open spec fn since(before: Seq<Event>, new: Seq<Event>) -> Seq<Event> {
    new.skip(before.len() as int)
}

pub broadcast proof fn lemma_since(before: Seq<Event>, more: Seq<Event>)
    ensures
        #![trigger before + more]
        extends(before, before + more),
        since(before, before + more) == more,
{
    assert((before + more).take(before.len() as int) =~= before);
    assert((before + more).skip(before.len() as int) =~= more);
}

pub broadcast proof fn lemma_extends(before: Seq<Event>, new: Seq<Event>)
    requires
        #[trigger] extends(before, new),
    ensures
        new == before + since(before, new),
{
    assert(new =~= before + since(before, new));
}

pub broadcast group group_talk {
    lemma_since,
    lemma_extends,
}

/// An allocator of blocks in a file.
pub trait BStackRaiiAllocator: Sized {
    /// Everything that was asked so far, with the replies.
    open spec fn trace(&self) -> Seq<Event> {
        arbitrary()
    }

    open spec fn spec_settings(&self) -> Settings {
        arbitrary()
    }

    fn settings(&self) -> (r: Settings)
        ensures
            r == self.spec_settings(),
    ;

    fn get(&mut self, off: u64, len: u64) -> (r: Result<Vec<u8>, Error>)
        ensures
            final(self).spec_settings() == old(self).spec_settings(),
            final(self).trace() == old(self).trace().push(
                Event::Read { off, len, reply: bytes_view(r) },
            ),
            r is Ok ==> r->Ok_0@.len() == len,
    ;

    fn set(&mut self, off: u64, bytes: Vec<u8>) -> (r: Result<(), Error>)
        ensures
            final(self).spec_settings() == old(self).spec_settings(),
            final(self).trace() == old(self).trace().push(
                Event::Write { off, bytes: bytes@, reply: r },
            ),
    ;

    fn set_batched(&mut self, writes: Vec<(u64, Vec<u8>)>) -> (r: Result<(), Error>)
        ensures
            final(self).spec_settings() == old(self).spec_settings(),
            final(self).trace() == old(self).trace().push(
                Event::WriteBatch { writes: writes_view(writes@), reply: r },
            ),
    ;

    fn swap(&mut self, off: u64, bytes: Vec<u8>) -> (r: Result<Vec<u8>, Error>)
        ensures
            final(self).spec_settings() == old(self).spec_settings(),
            final(self).trace() == old(self).trace().push(
                Event::Swap { off, bytes: bytes@, reply: bytes_view(r) },
            ),
            r is Ok ==> r->Ok_0@.len() == bytes@.len(),
    ;

    fn copy(&mut self, from: u64, to: u64, len: u64) -> (r: Result<(), Error>)
        ensures
            final(self).spec_settings() == old(self).spec_settings(),
            final(self).trace() == old(self).trace().push(
                Event::Copy { from, to, len, reply: r },
            ),
    ;

    fn process(&mut self, off: u64, op: CounterOp) -> (r: Result<u64, Error>)
        ensures
            final(self).spec_settings() == old(self).spec_settings(),
            final(self).trace() == old(self).trace().push(Event::Process { off, op, reply: r }),
    ;

    fn cas(&mut self, off: u64, expected: u64, new: u64) -> (r: Result<bool, Error>)
        ensures
            final(self).spec_settings() == old(self).spec_settings(),
            final(self).trace() == old(self).trace().push(
                Event::Cas { off, expected, new, reply: r },
            ),
    ;

    fn alloc_range(&mut self, len: u64) -> (r: Result<BStackRange, Error>)
        ensures
            final(self).spec_settings() == old(self).spec_settings(),
            final(self).trace() == old(self).trace().push(Event::Alloc { len, reply: r }),
            r is Ok ==> r->Ok_0.len == len,
    ;

    fn dealloc(&mut self, range: BStackRange) -> (r: Result<(), Error>)
        ensures
            final(self).spec_settings() == old(self).spec_settings(),
            final(self).trace() == old(self).trace().push(Event::Dealloc { range, reply: r }),
    ;

    fn alloc_bulk(&mut self, lens: Vec<u64>) -> (r: Result<Vec<BStackRange>, Error>)
        ensures
            final(self).spec_settings() == old(self).spec_settings(),
            final(self).trace() == old(self).trace().push(
                Event::AllocBulk { lens: lens@, reply: ranges_view(r) },
            ),
            r is Ok ==> r->Ok_0@.len() == lens@.len(),
    ;

    fn dealloc_bulk(&mut self, ranges: Vec<BStackRange>) -> (r: Result<(), Error>)
        ensures
            final(self).spec_settings() == old(self).spec_settings(),
            final(self).trace() == old(self).trace().push(
                Event::DeallocBulk { ranges: ranges@, reply: r },
            ),
    ;

    /// Give back a block of another open file; `None` where that file is not open.
    fn host_dealloc(&mut self, file: FileId, range: BStackRange) -> (r: Option<Result<(), Error>>)
        ensures
            final(self).spec_settings() == old(self).spec_settings(),
            final(self).trace() == old(self).trace().push(
                Event::HostDealloc { file, range, reply: r },
            ),
    ;
}

} // verus!
