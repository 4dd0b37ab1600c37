//! The block in which the log lies on disk.
//!
//! The block is made on first use and kept: a header, and a number of slots for entries. The
//! allocator's anchor slot holds its offset (`0` is no block yet). The header says how far
//! the transaction in it has come; `Idle` is no transaction.
use vstd::arithmetic::power2::{
    lemma2_to64, lemma2_to64_rest, lemma_pow2_strictly_increases, lemma_pow2_unfold, pow2,
};
use vstd::pervasive::arbitrary;
use vstd::prelude::*;

use crate::allocator::{
    bytes_view, extends, group_talk, since, BStackRaiiAllocator, Event, Settings,
};
use crate::bytes::{
    get_u64, get_u64_at, le_bytes, le_value, lemma_le_bytes_len, lemma_le_value_of_bytes,
    lemma_pow256_4_8, u64_le,
};
use crate::error::Error;
use crate::range::{BStackRange, FileId};
use crate::teardown::{dealloc_range, dealloc_talk, kept, lemma_with_more, Teardown, TeardownView};
use crate::wal::entry::{
    entries_image, entries_of, law_log_round_trip, lemma_entries_image, same_entry, WalEntry,
    WalLog, WalOp, WalStatus,
};

verus! {

/// The word at the head of a log block.
pub const WAL_MAGIC: u64 = 0x6273_7461_636b_5741;

/// The smallest number of slots.
pub const WAL_MIN_CAP: u64 = 8;

/// The largest number of slots that a header is believed to claim.
pub const WAL_MAX_CAP: u64 = 0x10_0000;

/// Where the header holds the number of entries.
pub const WAL_COUNT_OFFSET: u64 = 16;

/// The anchor slot of the allocators that set aside the first two words of their file.
pub const STD_WAL_ANCHOR: u64 = 8;

/// How many bytes the header takes.
pub const WAL_HEADER_SIZE: u64 = 32;

/// The largest number of slots whose bytes can be counted in 64 bits.
pub const WAL_COUNTABLE: u64 = 0x400_0000_0000_0000;

/// The header as it lies on disk.
#[derive(Clone, Copy, Debug, PartialEq, Eq, Structural)]
pub struct WalHeader {
    pub magic: u64,
    pub txn_status: u8,
    pub count: u64,
    pub capacity: u64,
}

impl WalHeader {
    /// The bytes of the header on disk.
    pub open spec fn image(self) -> Seq<u8> {
        le_bytes(self.magic as nat, 8) + seq![self.txn_status, 0u8, 0, 0, 0, 0, 0, 0] + le_bytes(
            self.count as nat,
            8,
        ) + le_bytes(self.capacity as nat, 8)
    }

    /// The header that `bytes` hold.
    pub open spec fn parse(bytes: Seq<u8>) -> WalHeader {
        WalHeader {
            magic: le_value(bytes.subrange(0, 8)) as u64,
            txn_status: bytes[8],
            count: le_value(bytes.subrange(16, 24)) as u64,
            capacity: le_value(bytes.subrange(24, 32)) as u64,
        }
    }

    /// The header of a transaction of `count` entries.
    pub open spec fn of(status: WalStatus, count: u64, capacity: u64) -> WalHeader {
        WalHeader { magic: WAL_MAGIC, txn_status: status.spec_code(), count, capacity }
    }

    pub open spec fn spec_txn_status(self) -> WalStatus {
        WalStatus::spec_from_u8(self.txn_status)
    }

    pub fn txn_status(&self) -> (r: WalStatus)
        ensures
            r == self.spec_txn_status(),
    {
        WalStatus::from_u8(self.txn_status)
    }

    /// The bytes of the header on disk.
    pub fn to_bytes(&self) -> (r: Vec<u8>)
        ensures
            r@ == self.image(),
            r@.len() == 32,
    {
        let mut out = u64_le(self.magic);
        out.push(self.txn_status);
        let mut i: usize = 0;
        while i < 7
            invariant
                i <= 7,
                out@ =~= le_bytes(self.magic as nat, 8) + seq![self.txn_status] + Seq::new(
                    i as nat,
                    |k: int| 0u8,
                ),
            decreases 7 - i,
        {
            out.push(0);
            i += 1;
        }
        out.extend_from_slice(u64_le(self.count).as_slice());
        out.extend_from_slice(u64_le(self.capacity).as_slice());
        proof {
            lemma_le_bytes_len(self.magic as nat, 8);
            lemma_le_bytes_len(self.count as nat, 8);
            lemma_le_bytes_len(self.capacity as nat, 8);
            assert(out@ =~= self.image());
        }
        out
    }

    /// The header that the first 32 bytes of `bytes` hold.
    pub fn from_bytes(bytes: &[u8]) -> (r: WalHeader)
        requires
            bytes@.len() >= 32,
        ensures
            r == WalHeader::parse(bytes@),
    {
        WalHeader {
            magic: get_u64_at(bytes, 0),
            txn_status: bytes[8],
            count: get_u64_at(bytes, 16),
            capacity: get_u64_at(bytes, 24),
        }
    }
}

/// A header is read back as it was written, and is 32 bytes long.
pub proof fn law_header_round_trip(h: WalHeader, rest: Seq<u8>)
    ensures
        h.image().len() == 32,
        WalHeader::parse(h.image() + rest) == h,
{
    lemma_pow256_4_8();
    lemma_le_bytes_len(h.magic as nat, 8);
    lemma_le_bytes_len(h.count as nat, 8);
    lemma_le_bytes_len(h.capacity as nat, 8);
    lemma_le_value_of_bytes(h.magic as nat, 8);
    lemma_le_value_of_bytes(h.count as nat, 8);
    lemma_le_value_of_bytes(h.capacity as nat, 8);
    let b = h.image() + rest;
    assert(b.subrange(0, 8) =~= le_bytes(h.magic as nat, 8));
    assert(b.subrange(16, 24) =~= le_bytes(h.count as nat, 8));
    assert(b.subrange(24, 32) =~= le_bytes(h.capacity as nat, 8));
}

impl WalLog {
    /// The used part of the block: the header, and the entries.
    pub open spec fn spec_block_image(entries: Seq<WalEntry>, txn: WalStatus, capacity: u64) -> Seq<
        u8,
    > {
        WalHeader::of(txn, entries.len() as u64, capacity).image() + entries_image(entries)
    }

    /// The used part of the block: the header, and the entries.
    pub fn block_image(&self, txn_status: WalStatus, capacity: u64) -> (r: Vec<u8>)
        ensures
            r@ == WalLog::spec_block_image(self@, txn_status, capacity),
    {
        let header = WalHeader {
            magic: WAL_MAGIC,
            txn_status: txn_status.code(),
            count: self.entries.len() as u64,
            capacity,
        };
        let mut img = header.to_bytes();
        img.extend_from_slice(self.as_bytes().as_slice());
        assert(img@ =~= WalLog::spec_block_image(self@, txn_status, capacity));
        img
    }
}

/// The log block: where it lies, and how many slots it has.
#[derive(Clone, Copy, Debug, PartialEq, Eq, Structural)]
pub struct WalBlock {
    pub range: BStackRange,
    pub capacity: u64,
}

/// How many bytes a block of `capacity` slots takes.
pub open spec fn block_size(capacity: int) -> int {
    32 + 32 * capacity
}

/// The block of `capacity` slots at `off`.
pub open spec fn block_at(off: u64, capacity: u64) -> WalBlock {
    WalBlock {
        range: BStackRange { start: off, len: block_size(capacity as int) as u64 },
        capacity,
    }
}

/// Whether a new block for `needed` entries gets `c` slots: the least power of two that is
/// enough and no less than [`WAL_MIN_CAP`].
pub open spec fn is_capacity(c: u64, needed: u64) -> bool {
    &&& needed <= c
    &&& exists|e: nat|
        3 <= e && c == #[trigger] pow2(e) && (e == 3 || pow2((e - 1) as nat) < needed)
}

/// How many slots a new block for `needed` entries gets.
fn capacity_for(needed: u64) -> (c: u64)
    requires
        needed <= WAL_COUNTABLE,
    ensures
        is_capacity(c, needed),
        8 <= c <= WAL_COUNTABLE,
{
    let mut c: u64 = WAL_MIN_CAP;
    let ghost mut e: nat = 3;
    proof {
        lemma2_to64();
        lemma2_to64_rest();
    }
    while c < needed
        invariant
            3 <= e <= 58,
            c == pow2(e),
            pow2(58) == WAL_COUNTABLE,
            8 <= c <= WAL_COUNTABLE,
            needed <= WAL_COUNTABLE,
            e == 3 || pow2((e - 1) as nat) < needed,
        decreases WAL_COUNTABLE - c,
    {
        proof {
            if e == 58 {
                assert(false);
            }
            lemma_pow2_unfold(e + 1);
            if e + 1 < 58 {
                lemma_pow2_strictly_increases(e + 1, 58);
            }
            e = e + 1;
        }
        c = c * 2;
    }
    c
}

/// The part of the conversation that makes a new block, links it, and then frees the `old` one.
pub open spec fn grow_talk(
    slot: u64,
    needed: u64,
    old: Option<BStackRange>,
    before: TeardownView,
    new: TeardownView,
    s: Settings,
    t: Seq<Event>,
    r: Result<WalBlock, Error>,
) -> bool {
    &&& t.len() >= 1
    &&& t[0] matches Event::Alloc { len, reply: taken }
    &&& exists|cap: u64| #[trigger]
        is_capacity(cap, needed) && len == block_size(cap as int) && match taken {
            Err(e) => t.len() == 1 && new == before && r == Err::<WalBlock, Error>(e),
            Ok(range) => {
                &&& t.len() >= 2
                &&& t[1] matches Event::Write { off: o1, bytes: b1, reply: r1 }
                &&& o1 == range.start
                &&& b1 == WalHeader::of(WalStatus::Idle, 0, cap).image()
                &&& match r1 {
                    Err(e) => {
                        &&& new == before
                        &&& t.len() == 3
                        &&& t[2] matches Event::Dealloc { range: back, reply: _ }
                        &&& back == range
                        &&& r == Err::<WalBlock, Error>(e)
                    },
                    Ok(_) => {
                        &&& t.len() >= 3
                        &&& t[2] matches Event::Write { off: o2, bytes: b2, reply: r2 }
                        &&& o2 == slot
                        &&& b2 == le_bytes(range.start as nat, 8)
                        &&& match r2 {
                            Err(e) => t.len() == 3 && new == before && r == Err::<WalBlock, Error>(
                                e,
                            ),
                            Ok(_) => match old {
                                None => t.len() == 3 && new == before && r == Ok::<WalBlock, Error>(
                                    block_at(range.start, cap),
                                ),
                                Some(gone) => match r {
                                    Ok(b) => b == block_at(range.start, cap) && dealloc_talk(
                                        before,
                                        new,
                                        s,
                                        gone,
                                        t.skip(3),
                                        Ok(()),
                                    ),
                                    Err(e) => dealloc_talk(
                                        before,
                                        new,
                                        s,
                                        gone,
                                        t.skip(3),
                                        Err(e),
                                    ),
                                },
                            },
                        }
                    },
                }
            },
        }
}

/// The conversation that finds the log block, or makes one: which requests are made, and
/// what is returned, for each reply.
pub open spec fn ensure_talk(
    before: TeardownView,
    new: TeardownView,
    s: Settings,
    needed: u64,
    t: Seq<Event>,
    r: Result<WalBlock, Error>,
) -> bool {
    match s.anchor {
        None => t.len() == 0 && new == before && r == Err::<WalBlock, Error>(Error::NoWalAnchor),
        Some(slot) => {
            &&& t.len() >= 1
            &&& t[0] matches Event::Read { off: o0, len: l0, reply: r0 }
            &&& o0 == slot && l0 == 8
            &&& match r0 {
                Err(e) => t.len() == 1 && new == before && r == Err::<WalBlock, Error>(e),
                Ok(b0) => {
                    let off = le_value(b0) as u64;
                    if off == 0 {
                        grow_talk(slot, needed, None, before, new, s, t.skip(1), r)
                    } else {
                        &&& t.len() >= 2
                        &&& t[1] matches Event::Read { off: o1, len: l1, reply: r1 }
                        &&& o1 == off && l1 == 32
                        &&& match r1 {
                            Err(e) => t.len() == 2 && new == before && r == Err::<WalBlock, Error>(e),
                            Ok(b1) => {
                                let h = WalHeader::parse(b1);
                                if h.magic != WAL_MAGIC {
                                    grow_talk(slot, needed, None, before, new, s, t.skip(2), r)
                                } else if h.capacity > WAL_MAX_CAP {
                                    t.len() == 2 && new == before && r == Err::<WalBlock, Error>(
                                        Error::CorruptWalCapacity,
                                    )
                                } else if h.capacity >= needed {
                                    t.len() == 2 && new == before && r == Ok::<WalBlock, Error>(
                                        block_at(off, h.capacity),
                                    )
                                } else {
                                    grow_talk(
                                        slot,
                                        needed,
                                        Some(block_at(off, h.capacity).range),
                                        before,
                                        new,
                                        s,
                                        t.skip(2),
                                        r,
                                    )
                                }
                            },
                        }
                    }
                },
            }
        },
    }
}

/// The conversation that reads the anchor slot.
pub open spec fn anchor_talk(s: Settings, t: Seq<Event>, r: Result<Option<u64>, Error>) -> bool {
    match s.anchor {
        None => t.len() == 0 && r == Ok::<Option<u64>, Error>(None),
        Some(slot) => {
            &&& t.len() == 1
            &&& t[0] matches Event::Read { off: o0, len: l0, reply: r0 }
            &&& o0 == slot && l0 == 8
            &&& match r0 {
                Err(e) => r == Err::<Option<u64>, Error>(e),
                Ok(b) => b.len() == 8 && le_value(b) <= u64::MAX && r == Ok::<Option<u64>, Error>(
                    if le_value(b) == 0 {
                        None
                    } else {
                        Some(le_value(b) as u64)
                    },
                ),
            }
        },
    }
}

/// The offset in the anchor slot; `None` where the allocator has no slot, or the slot is `0`.
pub fn read_anchor<A: BStackRaiiAllocator>(a: &mut A) -> (r: Result<Option<u64>, Error>)
    ensures
        final(a).spec_settings() == old(a).spec_settings(),
        extends(old(a).trace(), final(a).trace()),
        anchor_talk(old(a).spec_settings(), since(old(a).trace(), final(a).trace()), r),
{
    broadcast use group_talk;

    let ghost before = a.trace();
    let slot: u64 = match a.settings().anchor {
        Some(s) => s,
        None => {
            assert(a.trace() =~= before + Seq::empty());
            return Ok(None);
        },
    };
    let got = a.get(slot, 8);
    assert(a.trace() =~= before + seq![Event::Read { off: slot, len: 8, reply: bytes_view(got) }]);
    match got {
        Err(e) => Err(e),
        Ok(buf) => {
            let off: u64 = get_u64(buf.as_slice());
            assert(buf@.subrange(0, 8) =~= buf@);
            if off == 0 {
                Ok(None)
            } else {
                Ok(Some(off))
            }
        },
    }
}

/// Make a block for `needed` entries, link it, and free the old one.
fn grow_block<A: BStackRaiiAllocator>(
    ctx: &mut Teardown,
    a: &mut A,
    slot: u64,
    needed: u64,
    gone: Option<BStackRange>,
) -> (r: Result<WalBlock, Error>)
    requires
        needed <= WAL_COUNTABLE,
    ensures
        final(a).spec_settings() == old(a).spec_settings(),
        extends(old(a).trace(), final(a).trace()),
        kept(old(ctx)@, final(ctx)@),
        grow_talk(
            slot,
            needed,
            gone,
            old(ctx)@,
            final(ctx)@,
            old(a).spec_settings(),
            since(old(a).trace(), final(a).trace()),
            r,
        ),
{
    broadcast use group_talk;

    let ghost before = a.trace();
    proof {
        lemma_with_more(ctx@, Seq::empty(), arbitrary());
    }
    let capacity: u64 = capacity_for(needed);
    let size: u64 = 32 + capacity * 32;
    assert(size == block_size(capacity as int));
    let ghost mut t: Seq<Event> = Seq::empty();
    let taken = a.alloc_range(size);
    proof {
        t = t.push(Event::Alloc { len: size, reply: taken });
        assert(a.trace() =~= before + t);
    }
    let range = match taken {
        Err(e) => {
            return Err(e);
        },
        Ok(range) => range,
    };
    let header = WalHeader { magic: WAL_MAGIC, txn_status: 0, count: 0, capacity };
    let wrote = a.set(range.start, header.to_bytes());
    proof {
        t = t.push(Event::Write { off: range.start, bytes: header.image(), reply: wrote });
        assert(a.trace() =~= before + t);
    }
    if let Err(e) = wrote {
        let back = a.dealloc(range);
        proof {
            t = t.push(Event::Dealloc { range, reply: back });
            assert(a.trace() =~= before + t);
        }
        return Err(e);
    }
    let linked = a.set(slot, u64_le(range.start));
    proof {
        t = t.push(
            Event::Write { off: slot, bytes: le_bytes(range.start as nat, 8), reply: linked },
        );
        assert(a.trace() =~= before + t);
    }
    if let Err(e) = linked {
        return Err(e);
    }
    if let Some(old_range) = gone {
        let ghost mid = a.trace();
        let back = dealloc_range(ctx, a, old_range);
        proof {
            let t2 = since(mid, a.trace());
            assert(a.trace() =~= before + (t + t2));
            assert((t + t2).skip(3) =~= t2);
            t = t + t2;
        }
        match back {
            Err(e) => {
                return Err(e);
            },
            Ok(u) => {
                assert(u == ());
            },
        }
    }
    Ok(WalBlock { range: BStackRange::new(range.start, size), capacity })
}

/// Find the log block, and make a new one where there is none or it has fewer than `needed`
/// slots. A new block is linked before the old one is freed, so that the anchor never names a
/// block that is gone.
pub fn wal_ensure_block<A: BStackRaiiAllocator>(ctx: &mut Teardown, a: &mut A, needed: u64) -> (r:
    Result<WalBlock, Error>)
    requires
        needed <= WAL_COUNTABLE,
    ensures
        final(a).spec_settings() == old(a).spec_settings(),
        extends(old(a).trace(), final(a).trace()),
        kept(old(ctx)@, final(ctx)@),
        ensure_talk(
            old(ctx)@,
            final(ctx)@,
            old(a).spec_settings(),
            needed,
            since(old(a).trace(), final(a).trace()),
            r,
        ),
{
    broadcast use group_talk;

    let ghost before = a.trace();
    proof {
        lemma_with_more(ctx@, Seq::empty(), arbitrary());
    }
    let slot: u64 = match a.settings().anchor {
        Some(s) => s,
        None => {
            assert(a.trace() =~= before + Seq::empty());
            return Err(Error::NoWalAnchor);
        },
    };
    let anchor = read_anchor(a);
    let ghost mut t: Seq<Event> = since(before, a.trace());
    let off: u64 = match anchor {
        Err(e) => {
            return Err(e);
        },
        Ok(None) => {
            let ghost mid = a.trace();
            let r = grow_block(ctx, a, slot, needed, None);
            proof {
                let t2 = since(mid, a.trace());
                assert(a.trace() =~= before + (t + t2));
                assert((t + t2).skip(1) =~= t2);
            }
            return r;
        },
        Ok(Some(off)) => off,
    };
    let got = a.get(off, 32);
    proof {
        t = t.push(Event::Read { off, len: 32, reply: bytes_view(got) });
        assert(a.trace() =~= before + t);
    }
    let hbuf = match got {
        Err(e) => {
            return Err(e);
        },
        Ok(b) => b,
    };
    let header = WalHeader::from_bytes(hbuf.as_slice());
    let mut gone: Option<BStackRange> = None;
    if header.magic == WAL_MAGIC {
        if header.capacity > WAL_MAX_CAP {
            return Err(Error::CorruptWalCapacity);
        }
        let range = BStackRange::new(off, 32 + header.capacity * 32);
        if header.capacity >= needed {
            return Ok(WalBlock { range, capacity: header.capacity });
        }
        gone = Some(range);
    }
    let ghost mid = a.trace();
    let r = grow_block(ctx, a, slot, needed, gone);
    proof {
        let t2 = since(mid, a.trace());
        assert(a.trace() =~= before + (t + t2));
        assert((t + t2).skip(2) =~= t2);
    }
    r
}

/// Stage `log` in the log block at the given status of the transaction, and return where the
/// block lies.
pub fn persist_at<A: BStackRaiiAllocator>(
    ctx: &mut Teardown,
    a: &mut A,
    log: &WalLog,
    txn_status: WalStatus,
) -> (r: Result<BStackRange, Error>)
    requires
        log@.len() <= WAL_COUNTABLE,
    ensures
        final(a).spec_settings() == old(a).spec_settings(),
        extends(old(a).trace(), final(a).trace()),
        kept(old(ctx)@, final(ctx)@),
        persist_talk(
            old(ctx)@,
            final(ctx)@,
            old(a).spec_settings(),
            log@,
            txn_status,
            since(old(a).trace(), final(a).trace()),
            r,
        ),
{
    broadcast use group_talk;

    let ghost before = a.trace();
    let ghost was = ctx@;
    let found = wal_ensure_block(ctx, a, log.entries.len() as u64);
    let ghost t = since(before, a.trace());
    let block = match found {
        Err(e) => {
            assert(ensure_talk(was, ctx@, a.spec_settings(), log@.len() as u64, t, Err(e)));
            return Err(e);
        },
        Ok(block) => block,
    };
    let image = log.block_image(txn_status, block.capacity);
    let ghost view = image@;
    let wrote = a.set(block.range.start, image);
    proof {
        let ev = Event::Write { off: block.range.start, bytes: view, reply: wrote };
        assert(a.trace() =~= before + t.push(ev));
        assert(t.push(ev).drop_last() =~= t);
    }
    match wrote {
        Err(e) => Err(e),
        Ok(_) => Ok(block.range),
    }
}

/// The conversation that stages a transaction: find or make the block, then write the whole
/// image in one step.
pub open spec fn persist_talk(
    before: TeardownView,
    new: TeardownView,
    s: Settings,
    entries: Seq<WalEntry>,
    txn: WalStatus,
    t: Seq<Event>,
    r: Result<BStackRange, Error>,
) -> bool {
    ||| r matches Err(e) && ensure_talk(
        before,
        new,
        s,
        entries.len() as u64,
        t,
        Err::<WalBlock, Error>(e),
    )
    ||| {
        &&& t.len() >= 1
        &&& t.last() matches Event::Write { off, bytes, reply }
        &&& exists|block: WalBlock| #[trigger]
            ensure_talk(
                before,
                new,
                s,
                entries.len() as u64,
                t.drop_last(),
                Ok::<WalBlock, Error>(block),
            ) && off == block.range.start && bytes == WalLog::spec_block_image(
                entries,
                txn,
                block.capacity,
            ) && r == match reply {
                Err(e) => Err::<BStackRange, Error>(e),
                Ok(_) => Ok(block.range),
            }
    }
}

/// A staged transaction: where its block lies, the header, and the entries in use.
pub struct Staged {
    pub range: BStackRange,
    pub header: WalHeader,
    pub entries: Vec<WalEntry>,
}

/// The conversation that reads the staged transaction.
pub open spec fn load_talk(s: Settings, t: Seq<Event>, r: Result<Option<Staged>, Error>) -> bool {
    match s.anchor {
        None => t.len() == 0 && r matches Ok(None),
        Some(slot) => {
            &&& t.len() >= 1
            &&& t[0] matches Event::Read { off: o0, len: l0, reply: r0 }
            &&& o0 == slot && l0 == 8
            &&& match r0 {
                Err(e) => t.len() == 1 && (r matches Err(x) && x == e),
                Ok(b0) => {
                    let off = le_value(b0) as u64;
                    if off == 0 {
                        t.len() == 1 && r matches Ok(None)
                    } else {
                        &&& t.len() >= 2
                        &&& t[1] matches Event::Read { off: o1, len: l1, reply: r1 }
                        &&& o1 == off && l1 == 32
                        &&& match r1 {
                            Err(e) => t.len() == 2 && (r matches Err(x) && x == e),
                            Ok(b1) => load_entries_talk(off, WalHeader::parse(b1), t, r),
                        }
                    }
                },
            }
        },
    }
}

/// The end of that conversation, once the header is known.
pub open spec fn load_entries_talk(
    off: u64,
    h: WalHeader,
    t: Seq<Event>,
    r: Result<Option<Staged>, Error>,
) -> bool {
    if h.magic != WAL_MAGIC {
        t.len() == 2 && r matches Ok(None)
    } else if h.capacity > WAL_MAX_CAP || h.count > h.capacity {
        t.len() == 2 && (r matches Err(x) && x == Error::CorruptWalCapacity)
    } else if off + 32 > u64::MAX {
        t.len() == 2 && (r matches Err(x) && x == Error::BlockOffsetOverflow)
    } else {
        &&& t.len() == 3
        &&& t[2] matches Event::Read { off: o2, len: l2, reply: r2 }
        &&& o2 == off + 32 && l2 == 32 * h.count
        &&& match r2 {
            Err(e) => r matches Err(x) && x == e,
            Ok(b2) => {
                &&& r matches Ok(Some(staged))
                &&& staged.range == block_at(off, h.capacity).range
                &&& staged.header == h
                &&& b2.len() == 32 * h.count
                &&& entries_of(staged.entries@, b2)
            },
        }
    }
}

/// Read the staged transaction; `None` where there is no log block.
pub fn load_at<A: BStackRaiiAllocator>(a: &mut A) -> (r: Result<Option<Staged>, Error>)
    ensures
        final(a).spec_settings() == old(a).spec_settings(),
        extends(old(a).trace(), final(a).trace()),
        load_talk(old(a).spec_settings(), since(old(a).trace(), final(a).trace()), r),
        r matches Ok(Some(s)) ==> s.range.start + 32 <= u64::MAX && s.header.count
            <= WAL_MAX_CAP && s.entries@.len() == s.header.count,
{
    broadcast use group_talk;

    let ghost before = a.trace();
    let anchor = read_anchor(a);
    let ghost mut t: Seq<Event> = since(before, a.trace());
    let off: u64 = match anchor {
        Err(e) => {
            return Err(e);
        },
        Ok(None) => {
            return Ok(None);
        },
        Ok(Some(off)) => off,
    };
    let got = a.get(off, 32);
    proof {
        t = t.push(Event::Read { off, len: 32, reply: bytes_view(got) });
        assert(a.trace() =~= before + t);
    }
    let hbuf = match got {
        Err(e) => {
            return Err(e);
        },
        Ok(b) => b,
    };
    let header = WalHeader::from_bytes(hbuf.as_slice());
    if header.magic != WAL_MAGIC {
        return Ok(None);
    }
    if header.capacity > WAL_MAX_CAP || header.count > header.capacity {
        return Err(Error::CorruptWalCapacity);
    }
    let base: u64 = match off.checked_add(32) {
        None => {
            return Err(Error::BlockOffsetOverflow);
        },
        Some(base) => base,
    };
    let got2 = a.get(base, header.count * 32);
    proof {
        t = t.push(
            Event::Read { off: base, len: (32 * header.count) as u64, reply: bytes_view(got2) },
        );
        assert(a.trace() =~= before + t);
    }
    let ebuf = match got2 {
        Err(e) => {
            return Err(e);
        },
        Ok(b) => b,
    };
    let entries = WalLog::entries_from_bytes(ebuf.as_slice());
    Ok(Some(Staged { range: BStackRange::new(off, 32 + header.capacity * 32), header, entries }))
}

/// Mark the block at `block_off` as holding no transaction. The block is kept.
pub fn wal_set_idle<A: BStackRaiiAllocator>(a: &mut A, block_off: u64) -> (r: Result<(), Error>)
    requires
        block_off + 8 <= u64::MAX,
    ensures
        final(a).spec_settings() == old(a).spec_settings(),
        final(a).trace() == old(a).trace().push(
            Event::Write { off: (block_off + 8) as u64, bytes: seq![0u8], reply: r },
        ),
{
    let mut byte: Vec<u8> = Vec::new();
    byte.push(WalStatus::Idle.code());
    assert(byte@ =~= seq![0u8]);
    a.set(block_off + 8, byte)
}

/// How many slots the block has.
pub fn wal_capacity_of(block: BStackRange) -> (r: u64)
    requires
        block.len >= 32,
    ensures
        r == (block.len - 32) / 32,
{
    (block.len - 32) / 32
}

/// Write one pending `Alloc` entry for `slice` into slot `index` of the block at `block_off`,
/// and then let it count. A crash between the two writes leaves the entry unseen.
pub fn wal_append_alloc<A: BStackRaiiAllocator>(
    a: &mut A,
    block_off: u64,
    index: u64,
    slice: BStackRange,
) -> (r: Result<(), Error>)
    requires
        block_off + 32 + 32 * (index + 1) <= u64::MAX,
    ensures
        final(a).spec_settings() == old(a).spec_settings(),
        extends(old(a).trace(), final(a).trace()),
        append_talk(block_off, index, slice, since(old(a).trace(), final(a).trace()), r),
{
    broadcast use group_talk;

    let ghost before = a.trace();
    let entry = WalEntry::alloc_local(WalStatus::Pending, slice);
    let wrote = a.set(block_off + 32 + index * 32, entry.to_bytes());
    let ghost mut t: Seq<Event> = seq![
        Event::Write {
            off: (block_off + 32 + 32 * index) as u64,
            bytes: entry.image(),
            reply: wrote,
        },
    ];
    assert(a.trace() =~= before + t);
    if let Err(e) = wrote {
        return Err(e);
    }
    let counted = a.set(block_off + WAL_COUNT_OFFSET, u64_le(index + 1));
    proof {
        t = t.push(
            Event::Write {
                off: (block_off + 16) as u64,
                bytes: le_bytes((index + 1) as nat, 8),
                reply: counted,
            },
        );
        assert(a.trace() =~= before + t);
    }
    counted
}

/// The conversation that appends an entry: the entry first, then the count.
pub open spec fn append_talk(
    block_off: u64,
    index: u64,
    slice: BStackRange,
    t: Seq<Event>,
    r: Result<(), Error>,
) -> bool {
    &&& t.len() >= 1
    &&& t[0] matches Event::Write { off: o0, bytes: b0, reply: r0 }
    &&& o0 == block_off + 32 + 32 * index
    &&& exists|e: WalEntry| #[trigger]
        e.made(WalStatus::Pending, WalOp::Alloc, FileId(0), slice) && b0 == e.image()
    &&& match r0 {
        Err(e) => t.len() == 1 && r == Err::<(), Error>(e),
        Ok(_) => {
            &&& t.len() == 2
            &&& t[1] matches Event::Write { off: o1, bytes: b1, reply: r1 }
            &&& o1 == block_off + 16
            &&& b1 == le_bytes((index + 1) as nat, 8)
            &&& r == r1
        },
    }
}

/// Whether every read in `t` of the anchor slot, of the header or of the entries gives what
/// was staged: the block at `off`, whose used part is `image`.
pub open spec fn reads_back(t: Seq<Event>, slot: u64, off: u64, image: Seq<u8>) -> bool {
    forall|i: int|
        0 <= i < t.len() ==> {
            &&& (#[trigger] t[i] matches Event::Read { off: o, len, reply } ==> {
                &&& (o == slot && len == 8 ==> reply == Ok::<Seq<u8>, Error>(
                    le_bytes(off as nat, 8),
                ))
                &&& (o == off && len == 32 ==> reply == Ok::<Seq<u8>, Error>(image.subrange(0, 32)))
                &&& (o == off + 32 && 32 + len == image.len() ==> reply == Ok::<Seq<u8>, Error>(
                    image.subrange(32, image.len() as int),
                ))
            })
        }
}

/// What was staged is what is loaded: the status of the transaction, and every entry with its
/// status, operation, file and block.
pub proof fn law_load_gives_what_was_persisted(
    s: Settings,
    entries: Seq<WalEntry>,
    txn: WalStatus,
    block: WalBlock,
    t: Seq<Event>,
    r: Result<Option<Staged>, Error>,
)
    requires
        s.anchor is Some,
        block.range.start != 0,
        block.range.start + 32 <= u64::MAX,
        entries.len() <= block.capacity <= WAL_MAX_CAP,
        reads_back(
            t,
            s.anchor->0,
            block.range.start,
            WalLog::spec_block_image(entries, txn, block.capacity),
        ),
        load_talk(s, t, r),
    ensures
        r matches Ok(Some(staged)) && {
            &&& staged.range == block_at(block.range.start, block.capacity).range
            &&& staged.header.spec_txn_status() == txn
            &&& staged.header.count == entries.len()
            &&& staged.entries@.len() == entries.len()
            &&& forall|i: int|
                0 <= i < entries.len() ==> same_entry(#[trigger] staged.entries@[i], entries[i])
        },
{
    let off = block.range.start;
    let image = WalLog::spec_block_image(entries, txn, block.capacity);
    let h = WalHeader::of(txn, entries.len() as u64, block.capacity);
    lemma_pow256_4_8();
    lemma_le_bytes_len(off as nat, 8);
    lemma_le_value_of_bytes(off as nat, 8);
    lemma_entries_image(entries);
    law_header_round_trip(h, Seq::empty());
    assert(image.subrange(0, 32) =~= h.image() + Seq::empty());
    assert(image.subrange(32, image.len() as int) =~= entries_image(entries));
    assert(t[0] is Read);
    assert(t[1] is Read);
    assert(t[2] is Read);
    law_log_round_trip(entries, r->Ok_0->0.entries@);
}

/// Every number of entries has exactly one capacity.
pub proof fn law_capacity_is_unique(c: u64, d: u64, needed: u64)
    requires
        is_capacity(c, needed),
        is_capacity(d, needed),
    ensures
        c == d,
{
    let e = choose|e: nat|
        3 <= e && c == #[trigger] pow2(e) && (e == 3 || pow2((e - 1) as nat) < needed);
    let f = choose|e: nat|
        3 <= e && d == #[trigger] pow2(e) && (e == 3 || pow2((e - 1) as nat) < needed);
    if e < f {
        if e < f - 1 {
            lemma_pow2_strictly_increases(e, (f - 1) as nat);
        }
    } else if f < e {
        if f < e - 1 {
            lemma_pow2_strictly_increases(f, (e - 1) as nat);
        }
    }
}

/// A crash never leaves the anchor naming a block that is gone: before the old block is given
/// back, or collected to be given back, the anchor names the new one.
pub proof fn law_new_block_is_linked_before_the_old_one_goes(
    slot: u64,
    needed: u64,
    old: BStackRange,
    before: TeardownView,
    after: TeardownView,
    s: Settings,
    t: Seq<Event>,
    r: Result<WalBlock, Error>,
    new: BStackRange,
    i: int,
)
    requires
        grow_talk(slot, needed, Some(old), before, after, s, t, r),
        t[0]->Alloc_reply == Ok::<BStackRange, Error>(new),
        new != old,
        0 <= i <= t.len(),
        i < t.len() ==> (t[i] matches Event::Dealloc { range, reply: _ } && range == old),
        i == t.len() ==> after != before,
    ensures
        exists|j: int|
            0 <= j < i && (#[trigger] t[j] matches Event::Write { off, bytes, reply } && off == slot
                && bytes == le_bytes(new.start as nat, 8) && reply is Ok),
{
    assert(t[2] is Write);
    if i < t.len() {
        assert(i == 3);
    }
}

} // verus!
