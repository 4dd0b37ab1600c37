//! Transactions: what is recorded before it is done, and what follows from the record.
use vstd::arithmetic::power2::{lemma2_to64, lemma_pow2_unfold, pow2};
use vstd::prelude::*;

use crate::allocator::{lemma_extends, since, BStackRaiiAllocator, Event, Settings};
use crate::bytes::{le_bytes, le_value, lemma_le_bytes_len};
use crate::error::Error;
use crate::owned::{AutoDrop, BStackOwned};
use crate::range::{BStackRange, FileId};
use crate::teardown::{
    collected_talk, commit_frees, commit_talk, completed_talk, conclude_teardown, drop_talk, kept,
    wal_teardown, Collected, Parting, Teardown, TeardownView,
};
use crate::traits::{BStackBlock, BStackDrop};
use crate::wal::block::{
    ensure_talk, grow_talk, is_capacity, persist_at, persist_talk, wal_append_alloc,
    wal_ensure_block, wal_set_idle, WalBlock, WalHeader,
};
use crate::wal::entry::{
    entries_image, law_entry_is_32_bytes, lemma_entries_image, WalEntry, WalLog, WalOp, WalStatus,
};
use crate::wal::recover::Completion;

use super::one_free;
use super::recovery::{all_reclaimed, header_lies, lemma_all_reclaimed, lemma_refused, refused_with};
use super::release::{lemma_went, went_whole, Emptied};

verus! {

/// How far a transaction has come, as a byte of the log.
pub open spec fn progress_byte(status: WalStatus) -> u8 {
    match status {
        WalStatus::Idle => 0,
        WalStatus::Pending => 1,
        WalStatus::Complete => 2,
        WalStatus::Abandon => 3,
    }
}

/// Whether 32 bytes record this block of this file.
pub open spec fn records(b: Seq<u8>, status: u8, op: u8, file: nat, range: BStackRange) -> bool {
    &&& b.len() == 32
    &&& b[0] == status
    &&& b[1] == op
    &&& b.subrange(8, 12) == le_bytes(file, 4)
    &&& b.subrange(16, 24) == le_bytes(range.start as nat, 8)
    &&& b.subrange(24, 32) == le_bytes(range.len as nat, 8)
}

/// Whether these are the first bytes of a log with `count` entries.
pub open spec fn heads_log(b: Seq<u8>, progress: u8, count: nat, capacity: nat) -> bool {
    &&& b.len() >= 32
    &&& b.subrange(0, 8) == le_bytes(0x6273_7461_636b_5741, 8)
    &&& b[8] == progress
    &&& b.subrange(16, 24) == le_bytes(count, 8)
    &&& b.subrange(24, 32) == le_bytes(capacity, 8)
}

pub(crate) proof fn lemma_records(e: WalEntry)
    ensures
        records(
            e.image(),
            e.status,
            e.op,
            e.file_id.0 as nat,
            BStackRange { start: e.word_a, len: e.word_b },
        ),
{
    law_entry_is_32_bytes(e);
    lemma_le_bytes_len(e.file_id.0 as nat, 4);
    lemma_le_bytes_len(e.obj_id as nat, 4);
    lemma_le_bytes_len(e.word_a as nat, 8);
    lemma_le_bytes_len(e.word_b as nat, 8);
    let b = e.image();
    assert(b.subrange(8, 12) =~= le_bytes(e.file_id.0 as nat, 4));
    assert(b.subrange(16, 24) =~= le_bytes(e.word_a as nat, 8));
    assert(b.subrange(24, 32) =~= le_bytes(e.word_b as nat, 8));
}

proof fn lemma_heads(h: WalHeader, rest: Seq<u8>)
    requires
        h.magic == 0x6273_7461_636b_5741,
    ensures
        heads_log(h.image() + rest, h.txn_status, h.count as nat, h.capacity as nat),
        h.image().len() == 32,
{
    lemma_le_bytes_len(h.magic as nat, 8);
    lemma_le_bytes_len(h.count as nat, 8);
    lemma_le_bytes_len(h.capacity as nat, 8);
    let b = h.image() + rest;
    assert(b.subrange(0, 8) =~= le_bytes(h.magic as nat, 8));
    assert(b.subrange(16, 24) =~= le_bytes(h.count as nat, 8));
    assert(b.subrange(24, 32) =~= le_bytes(h.capacity as nat, 8));
}

/// An entry for a block that was taken, or is to go, records that block, and what is to happen
/// with it.
pub proof fn law_entries_record_their_block(
    status: WalStatus,
    file: FileId,
    slice: BStackRange,
    taken: WalEntry,
    taken_here: WalEntry,
    gone: WalEntry,
    gone_here: WalEntry,
)
    requires
        call_ensures(WalEntry::alloc_in, (status, file, slice), taken),
        call_ensures(WalEntry::alloc_local, (status, slice), taken_here),
        call_ensures(WalEntry::dealloc_in, (status, file, slice), gone),
        call_ensures(WalEntry::dealloc, (status, slice), gone_here),
    ensures
        records(taken.image(), progress_byte(status), 0, file.0 as nat, slice),
        records(taken_here.image(), progress_byte(status), 0, 0, slice),
        records(gone.image(), progress_byte(status), 1, file.0 as nat, slice),
        records(gone_here.image(), progress_byte(status), 1, 0, slice),
{
    lemma_records(taken);
    lemma_records(taken_here);
    lemma_records(gone);
    lemma_records(gone_here);
}

/// An entry says which block was taken or is to go, and only entries of that kind do.
pub proof fn law_entries_say_their_block(
    e: &WalEntry,
    taken: Option<BStackRange>,
    gone: Option<BStackRange>,
)
    requires
        call_ensures(WalEntry::as_alloc, (e,), taken),
        call_ensures(WalEntry::as_dealloc, (e,), gone),
    ensures
        taken is Some <==> e.op == 0,
        gone is Some <==> e.op == 1,
        taken matches Some(x) ==> x.start == e.word_a && x.len == e.word_b,
        gone matches Some(x) ==> x.start == e.word_a && x.len == e.word_b,
{
}

/// Whether this block was there already: the anchor names it, and it has the room.
pub open spec fn was_there(slot: u64, t: Seq<Event>, b: WalBlock) -> bool {
    &&& t.len() == 2
    &&& t[0] matches Event::Read { off: o0, len: 8, reply: Ok(b0) }
    &&& o0 == slot && le_value(b0) as u64 == b.range.start && b.range.start != 0
    &&& t[1] matches Event::Read { off: o1, len: 32, reply: Ok(b1) }
    &&& o1 == b.range.start
    &&& le_value(b1.subrange(0, 8)) as u64 == 0x6273_7461_636b_5741u64
    &&& le_value(b1.subrange(24, 32)) as u64 == b.capacity
}

/// The log block that was read and is too small, if one was.
pub open spec fn too_small(t: Seq<Event>) -> Option<BStackRange> {
    if t.len() >= 2 {
        match (t[0], t[1]) {
            (
                Event::Read { reply: Ok(b0), .. },
                Event::Read { reply: Ok(b1), .. },
            ) => if le_value(b1.subrange(0, 8)) as u64 == 0x6273_7461_636b_5741u64 {
                Some(
                    BStackRange {
                        start: le_value(b0) as u64,
                        len: (32 + 32 * (le_value(b1.subrange(24, 32)) as u64)) as u64,
                    },
                )
            } else {
                None
            },
            _ => None,
        }
    } else {
        None
    }
}

/// Whether this block was made: taken, from event number `j` on, given a header that says it is
/// at rest, and named by the anchor.
pub open spec fn was_made(slot: u64, t: Seq<Event>, j: int, b: WalBlock) -> bool {
    &&& 1 <= j && j + 2 < t.len()
    &&& t[j] matches Event::Alloc { len, reply: Ok(x) }
    &&& len == b.range.len && x.start == b.range.start
    &&& t[j + 1] matches Event::Write { off: o1, bytes: b1, reply: Ok(_) }
    &&& o1 == b.range.start && b1.len() == 32 && heads_log(b1, 0, 0, b.capacity as nat)
    &&& t[j + 2] matches Event::Write { off: o2, bytes: b2, reply: Ok(_) }
    &&& o2 == slot && b2 == le_bytes(b.range.start as nat, 8)
}

proof fn lemma_capacity(c: u64, needed: u64)
    requires
        is_capacity(c, needed),
    ensures
        c >= 8,
        c >= needed,
        c == 8 || c < 2 * needed,
{
    let e = choose|e: nat|
        3 <= e && c == #[trigger] pow2(e) && (e == 3 || pow2((e - 1) as nat) < needed);
    lemma2_to64();
    if e > 3 {
        lemma_pow2_unfold(e);
        vstd::arithmetic::power2::lemma_pow2_strictly_increases(3, e);
    }
}

/// Whether a log block with enough room was found or made; where a smaller one was found, that
/// one was given back in the end.
pub open spec fn block_ready(
    s: Settings,
    before: TeardownView,
    new: TeardownView,
    needed: u64,
    asked: Seq<Event>,
    t: Seq<Event>,
    b: WalBlock,
) -> bool {
    &&& s.anchor is Some
    &&& b.capacity >= needed
    &&& {
        ||| was_there(s.anchor->0, t, b) && new == before && b.range.len == 32 + 32 * b.capacity
        ||| exists|j: int|
            {
                &&& #[trigger] was_made(s.anchor->0, t, j, b)
                &&& b.capacity == 8 || b.capacity < 2 * needed
                &&& b.capacity <= 0x400_0000_0000_0000 ==> b.range.len == (32 + 32
                    * b.capacity) as u64
                &&& match too_small(t.take(j)) {
                    None => new == before && t.len() == j + 3,
                    Some(gone) => one_free(
                        gone,
                        s,
                        before,
                        asked + t.take(j + 3),
                        new,
                        asked + t,
                        Ok(()),
                    ),
                }
            }
    }
}

proof fn lemma_grown(
    slot: u64,
    needed: u64,
    old: Option<BStackRange>,
    before: TeardownView,
    new: TeardownView,
    s: Settings,
    asked: Seq<Event>,
    t: Seq<Event>,
    j: int,
    b: WalBlock,
)
    requires
        s.anchor == Some(slot),
        1 <= j <= t.len(),
        grow_talk(slot, needed, old, before, new, s, t.skip(j), Ok(b)),
        too_small(t.take(j)) == old,
    ensures
        block_ready(s, before, new, needed, asked, t, b),
{
    let rest = t.skip(j);
    assert(is_capacity(b.capacity, needed));
    lemma_capacity(b.capacity, needed);
    let h = WalHeader::of(WalStatus::Idle, 0, b.capacity);
    lemma_heads(h, Seq::empty());
    assert(h.image() + Seq::empty() =~= h.image());
    assert(t[j] == rest[0] && t[j + 1] == rest[1] && t[j + 2] == rest[2]);
    assert(was_made(slot, t, j, b));
    if old is Some {
        let tail = rest.skip(3);
        assert(t =~= t.take(j + 3) + tail);
        if tail.len() == 1 {
            assert(asked + t =~= (asked + t.take(j + 3)).push(tail[0]));
        } else {
            assert(asked + t =~= asked + t.take(j + 3));
        }
    }
}

proof fn lemma_ready(
    s: Settings,
    before: TeardownView,
    new: TeardownView,
    needed: u64,
    asked: Seq<Event>,
    t: Seq<Event>,
    b: WalBlock,
)
    requires
        ensure_talk(before, new, s, needed, t, Ok(b)),
    ensures
        block_ready(s, before, new, needed, asked, t, b),
{
    let slot = s.anchor->0;
    let b0 = t[0]->Read_reply->Ok_0;
    let off = le_value(b0) as u64;
    if off == 0 {
        lemma_grown(slot, needed, None, before, new, s, asked, t, 1, b);
    } else {
        let b1 = t[1]->Read_reply->Ok_0;
        let h = WalHeader::parse(b1);
        let two = t.take(2);
        assert(two[0] == t[0] && two[1] == t[1]);
        if h.magic != 0x6273_7461_636b_5741u64 {
            lemma_grown(slot, needed, None, before, new, s, asked, t, 2, b);
        } else if h.capacity < needed {
            let gone = BStackRange { start: off, len: (32 + 32 * h.capacity) as u64 };
            lemma_grown(slot, needed, Some(gone), before, new, s, asked, t, 2, b);
        }
    }
}

/// There is always a log block with enough room: the one that is there, or a new one that takes
/// its place before it goes.
pub proof fn law_a_log_block_has_room<A: BStackRaiiAllocator>(
    ctx: &mut Teardown,
    a: &mut A,
    needed: u64,
    r: Result<WalBlock, Error>,
)
    requires
        call_ensures(wal_ensure_block::<A>, (ctx, a, needed), r),
    ensures
        match r {
            Ok(b) => block_ready(
                old(a).spec_settings(),
                old(ctx)@,
                final(ctx)@,
                needed,
                old(a).trace(),
                final(a).trace().skip(old(a).trace().len() as int),
                b,
            ),
            Err(e) => no_block(
                old(a).spec_settings(),
                final(a).trace().skip(old(a).trace().len() as int),
                e,
            ),
        },
{
    lemma_extends(old(a).trace(), final(a).trace());
    let t = since(old(a).trace(), final(a).trace());
    let s = old(a).spec_settings();
    match r {
        Ok(b) => {
            lemma_ready(s, old(ctx)@, final(ctx)@, needed, old(a).trace(), t, b);
        },
        Err(e) => {
            lemma_no_block(s, old(ctx)@, final(ctx)@, needed, t, e);
        },
    }
}

/// Why there is no log block: the file keeps no log, its header is no header, or a request was
/// refused. A block that was taken and could not be written is given back.
pub open spec fn no_block(s: Settings, t: Seq<Event>, e: Error) -> bool {
    ||| s.anchor is None && e == Error::NoWalAnchor && t.len() == 0
    ||| e == Error::CorruptWalCapacity && t.len() == 2 && (t[1] matches Event::Read {
        len: 32,
        reply: Ok(b),
        ..
    } && le_value(b.subrange(24, 32)) as u64 > 0x10_0000)
    ||| t.len() > 0 && refused_with(t.last(), e)
    ||| t.len() >= 3 && refused_with(t[t.len() - 2], e) && (t[t.len() - 3] matches Event::Alloc {
        reply: Ok(x),
        ..
    } && (t.last() matches Event::Dealloc { range, .. } && range == x))
}

proof fn lemma_no_block(
    s: Settings,
    before: TeardownView,
    new: TeardownView,
    needed: u64,
    t: Seq<Event>,
    e: Error,
)
    requires
        ensure_talk(before, new, s, needed, t, Err(e)),
    ensures
        no_block(s, t, e),
{
    if s.anchor is Some && t[0]->Read_reply is Ok {
        let off = le_value(t[0]->Read_reply->Ok_0) as u64;
        let j: int = if off == 0 {
            1
        } else {
            2
        };
        if t.len() > j {
            let rest = t.skip(j);
            assert(t[j] == rest[0]);
            if rest.len() > 1 {
                assert(t[j + 1] == rest[1]);
            }
            if rest.len() > 2 {
                assert(t[j + 2] == rest[2]);
            }
            assert(t.last() == rest.last());
            if rest.len() > 3 {
                assert(rest.skip(3)[0] == rest[3]);
                assert(rest.skip(3).len() == 1);
            }
        }
    }
}

/// Whether `bytes` are a log of exactly these entries.
pub open spec fn is_log(bytes: Seq<u8>, progress: u8, es: Seq<WalEntry>, capacity: u64) -> bool {
    &&& heads_log(bytes, progress, es.len() as u64 as nat, capacity as nat)
    &&& bytes.len() == 32 + 32 * es.len()
    &&& forall|i: int|
        0 <= i < es.len() ==> records(
            bytes.subrange(32 + 32 * i, 64 + 32 * i),
            (#[trigger] es[i]).status,
            es[i].op,
            es[i].file_id.0 as nat,
            BStackRange { start: es[i].word_a, len: es[i].word_b },
        )
}

proof fn lemma_is_log(es: Seq<WalEntry>, txn: WalStatus, capacity: u64)
    ensures
        is_log(WalLog::spec_block_image(es, txn, capacity), progress_byte(txn), es, capacity),
{
    let h = WalHeader::of(txn, es.len() as u64, capacity);
    let b = WalLog::spec_block_image(es, txn, capacity);
    lemma_heads(h, entries_image(es));
    lemma_entries_image(es);
    assert forall|i: int| 0 <= i < es.len() implies records(
        b.subrange(32 + 32 * i, 64 + 32 * i),
        (#[trigger] es[i]).status,
        es[i].op,
        es[i].file_id.0 as nat,
        BStackRange { start: es[i].word_a, len: es[i].word_b },
    ) by {
        assert(b.subrange(32 + 32 * i, 64 + 32 * i) =~= entries_image(es).subrange(
            32 * i,
            32 * i + 32,
        ));
        lemma_records(es[i]);
    }
}

/// Whether a log of these entries was written, in one step and last, into a block with room for
/// them.
pub open spec fn was_staged(
    s: Settings,
    before: TeardownView,
    new: TeardownView,
    asked: Seq<Event>,
    t: Seq<Event>,
    es: Seq<WalEntry>,
    txn: WalStatus,
    b: WalBlock,
    put: Result<(), Error>,
) -> bool {
    &&& t.len() >= 1
    &&& block_ready(s, before, new, es.len() as u64, asked, t.drop_last(), b)
    &&& t.last() matches Event::Write { off, bytes, reply }
    &&& off == b.range.start
    &&& reply == put
    &&& is_log(bytes, progress_byte(txn), es, b.capacity)
}

proof fn lemma_staged(
    s: Settings,
    before: TeardownView,
    new: TeardownView,
    asked: Seq<Event>,
    t: Seq<Event>,
    es: Seq<WalEntry>,
    txn: WalStatus,
    r: Result<BStackRange, Error>,
)
    requires
        persist_talk(before, new, s, es, txn, t, r),
    ensures
        match r {
            Ok(range) => exists|b: WalBlock, put: Result<(), Error>| #[trigger]
                was_staged(s, before, new, asked, t, es, txn, b, put) && put is Ok && b.range
                    == range,
            Err(e) => no_block(s, t, e),
        },
{
    if r is Err && ensure_talk(before, new, s, es.len() as u64, t, Err(r->Err_0)) {
        lemma_no_block(s, before, new, es.len() as u64, t, r->Err_0);
    } else {
        let put = t.last()->Write_reply;
        let b = choose|b: WalBlock| #[trigger]
            ensure_talk(before, new, s, es.len() as u64, t.drop_last(), Ok(b))
                && t.last()->Write_off == b.range.start && t.last()->Write_bytes
                == WalLog::spec_block_image(
                es,
                txn,
                b.capacity,
            ) && r == match put {
                Err(e) => Err::<BStackRange, Error>(e),
                Ok(_) => Ok(b.range),
            };
        lemma_ready(s, before, new, es.len() as u64, asked, t.drop_last(), b);
        lemma_is_log(es, txn, b.capacity);
        assert(was_staged(s, before, new, asked, t, es, txn, b, put));
    }
}

/// A transaction is staged as a whole: in one write, into a block with room for it.
pub proof fn law_a_staged_log_says_its_entries<A: BStackRaiiAllocator>(
    ctx: &mut Teardown,
    a: &mut A,
    log: &WalLog,
    txn: WalStatus,
    r: Result<BStackRange, Error>,
)
    requires
        call_ensures(persist_at::<A>, (ctx, a, log, txn), r),
    ensures
        ({
            let s = old(a).spec_settings();
            let asked = old(a).trace();
            let t = final(a).trace().skip(asked.len() as int);
            match r {
                Ok(range) => exists|b: WalBlock, put: Result<(), Error>| #[trigger]
                    was_staged(s, old(ctx)@, final(ctx)@, asked, t, log@, txn, b, put) && put is Ok
                        && b.range == range,
                Err(e) => no_block(s, t, e),
            }
        }),
{
    let t = since(old(a).trace(), final(a).trace());
    lemma_staged(
        old(a).spec_settings(),
        old(ctx)@,
        final(ctx)@,
        old(a).trace(),
        t,
        log@,
        txn,
        r,
    );
}

/// A log at rest is one whose progress byte is zero; no other byte of it changes.
pub proof fn law_a_log_is_put_to_rest<A: BStackRaiiAllocator>(
    a: &mut A,
    off: u64,
    r: Result<(), Error>,
)
    requires
        off + 8 <= u64::MAX,
        call_ensures(wal_set_idle::<A>, (a, off), r),
    ensures
        final(a).trace() == old(a).trace().push(
            Event::Write { off: (off + 8) as u64, bytes: seq![0u8], reply: r },
        ),
{
}

/// The conversation with an entry written to a slot of the log at `off`.
pub open spec fn with_entry(
    asked: Seq<Event>,
    off: u64,
    index: u64,
    bytes: Seq<u8>,
    put: Result<(), Error>,
) -> Seq<Event> {
    asked.push(Event::Write { off: (off + 32 + 32 * index) as u64, bytes, reply: put })
}

/// An entry that is appended is written before it counts, and records the block that was taken.
pub proof fn law_an_appended_entry_counts_once_written<A: BStackRaiiAllocator>(
    a: &mut A,
    off: u64,
    index: u64,
    slice: BStackRange,
    r: Result<(), Error>,
)
    requires
        off + 32 + 32 * (index + 1) <= u64::MAX,
        call_ensures(wal_append_alloc::<A>, (a, off, index, slice), r),
    ensures
        exists|bytes: Seq<u8>, put: Result<(), Error>|
            {
                let written = #[trigger] with_entry(old(a).trace(), off, index, bytes, put);
                &&& records(bytes, 1, 0, 0, slice)
                &&& match put {
                    Err(e) => final(a).trace() == written && r == Err::<(), Error>(e),
                    Ok(_) => final(a).trace() == written.push(
                        Event::Write {
                            off: (off + 16) as u64,
                            bytes: le_bytes((index + 1) as nat, 8),
                            reply: r,
                        },
                    ),
                }
            },
{
    let asked = old(a).trace();
    lemma_extends(asked, final(a).trace());
    let t = since(asked, final(a).trace());
    let bytes = t[0]->Write_bytes;
    let put = t[0]->Write_reply;
    let e = choose|e: WalEntry| #[trigger]
        e.made(WalStatus::Pending, WalOp::Alloc, FileId(0), slice) && bytes == e.image();
    lemma_records(e);
    let written = with_entry(asked, off, index, bytes, put);
    if put is Ok {
        assert(asked + t =~= written.push(t[1]));
    } else {
        assert(asked + t =~= written);
    }
}

/// Whether `bytes` are a committed log of pending frees of exactly these blocks, in this order.
pub open spec fn commits_frees(bytes: Seq<u8>, frees: Seq<(FileId, BStackRange)>) -> bool {
    &&& bytes.len() == 32 + 32 * frees.len()
    &&& bytes.subrange(0, 8) == le_bytes(0x6273_7461_636b_5741, 8)
    &&& bytes[8] == 2
    &&& bytes.subrange(16, 24) == le_bytes(frees.len() as u64 as nat, 8)
    &&& forall|i: int|
        0 <= i < frees.len() ==> records(
            bytes.subrange(32 + 32 * i, 64 + 32 * i),
            1,
            1,
            (#[trigger] frees[i]).0.0 as nat,
            frees[i].1,
        )
}

/// How a commit went: the log was staged in the first `k` events, which left the state `ctx`,
/// and then completed, which counted `n` blocks.
pub struct Commit {
    pub k: int,
    pub ctx: TeardownView,
    pub n: int,
}

/// Whether these frees were staged as a committed log, by the end of the first `k` events, and
/// the log then completed.
pub open spec fn was_committed(
    s: Settings,
    before: TeardownView,
    new: TeardownView,
    t: Seq<Event>,
    frees: Seq<(FileId, BStackRange)>,
    r: Result<(), Error>,
    w: Commit,
) -> bool {
    &&& 1 <= w.k <= t.len()
    &&& t[w.k - 1] matches Event::Write { off: _, bytes, reply: Ok(_) }
    &&& commits_frees(bytes, frees)
    &&& kept(before, w.ctx)
    &&& match r {
        Ok(_) => all_reclaimed(s, w.ctx, new, t.skip(w.k), w.n),
        Err(e) => {
            ||| refused_with(t.last(), e)
            ||| e == Error::CorruptWalCapacity && header_lies(t.skip(w.k))
            ||| e == Error::BlockOffsetOverflow && t.len() <= w.k + 3
        },
    }
}

/// Whether these blocks went together: nothing is asked where there are none, and otherwise they
/// are committed, or could not be staged.
pub open spec fn went_together(
    s: Settings,
    before: TeardownView,
    new: TeardownView,
    t: Seq<Event>,
    frees: Seq<(FileId, BStackRange)>,
    r: Result<(), Error>,
) -> bool {
    if frees.len() == 0 {
        t.len() == 0 && new == before && r is Ok
    } else {
        ||| exists|w: Commit| #[trigger] was_committed(s, before, new, t, frees, r, w)
        ||| r matches Err(e) && no_block(s, t, e)
    }
}

proof fn lemma_together(
    s: Settings,
    before: TeardownView,
    new: TeardownView,
    t: Seq<Event>,
    frees: Seq<(FileId, BStackRange)>,
    r: Result<(), Error>,
    es: Seq<WalEntry>,
    k: int,
    staged: Result<BStackRange, Error>,
)
    requires
        frees.len() > 0,
        commit_talk(before, new, s, frees, es, k, staged, t, r),
        kept(before, new),
    ensures
        went_together(s, before, new, t, frees, r),
{
    let first = t.take(k);
    match staged {
        Err(e) => {
            lemma_staged(s, before, new, Seq::empty(), t, es, WalStatus::Complete, staged);
        },
        Ok(range) => {
            let (mid, c, n) = choose|mid: TeardownView, c: Completion, n: Result<usize, Error>|
             #[trigger]
                completed_talk(before, mid, new, s, es, k, staged, t, c, n) && r == match n {
                    Ok(_) => Ok::<(), Error>(()),
                    Err(e) => Err(e),
                };
            lemma_staged(s, before, mid, Seq::empty(), first, es, WalStatus::Complete, staged);
            let (b, put) = choose|b: WalBlock, put: Result<(), Error>| #[trigger]
                was_staged(
                    s,
                    before,
                    mid,
                    Seq::empty(),
                    first,
                    es,
                    WalStatus::Complete,
                    b,
                    put,
                ) && put is Ok && b.range == range;
            assert(t[k - 1] == first.last());
            let bytes = first.last()->Write_bytes;
            assert forall|i: int| 0 <= i < frees.len() implies records(
                bytes.subrange(32 + 32 * i, 64 + 32 * i),
                1,
                1,
                (#[trigger] frees[i]).0.0 as nat,
                frees[i].1,
            ) by {
                assert(es[i].made(WalStatus::Pending, WalOp::Dealloc, frees[i].0, frees[i].1));
            }
            let rest = t.skip(k);
            assert(kept(before, mid)) by {
                if before.sink is Some {
                    assert(mid.frees().take(before.frees().len() as int) =~= before.frees());
                }
            }
            match n {
                Ok(m) => {
                    lemma_all_reclaimed(s, mid, new, rest, c, m);
                    let w = Commit { k, ctx: mid, n: m as int };
                    assert(was_committed(s, before, new, t, frees, r, w));
                },
                Err(e) => {
                    lemma_refused(s, mid, new, rest, c, e);
                    if rest.len() > 0 {
                        assert(t.last() == rest.last());
                    }
                    let w = Commit { k, ctx: mid, n: 0 };
                    assert(was_committed(s, before, new, t, frees, r, w));
                },
            }
        },
    }
}

/// A block and all that it owns go together: every block that is to go is recorded in a committed
/// log before the first of them does.
pub proof fn law_frees_go_together<A: BStackRaiiAllocator>(
    ctx: &mut Teardown,
    a: &mut A,
    frees: &Vec<(FileId, BStackRange)>,
    r: Result<(), Error>,
)
    requires
        call_ensures(commit_frees::<A>, (ctx, a, frees), r),
    ensures
        went_together(
            old(a).spec_settings(),
            old(ctx)@,
            final(ctx)@,
            final(a).trace().skip(old(a).trace().len() as int),
            frees@,
            r,
        ),
{
    let s = old(a).spec_settings();
    let t = since(old(a).trace(), final(a).trace());
    if frees@.len() > 0 {
        let (es, k, staged) = choose|es: Seq<WalEntry>, k: int, staged: Result<BStackRange, Error>|
         #[trigger]
            commit_talk(old(ctx)@, final(ctx)@, s, frees@, es, k, staged, t, r);
        lemma_together(s, old(ctx)@, final(ctx)@, t, frees@, r, es, k, staged);
    }
}

/// Whether a collection ended as it should: where it failed, nothing goes; else all that was
/// collected goes together.
pub open spec fn ended(
    s: Settings,
    before: TeardownView,
    new: TeardownView,
    t: Seq<Event>,
    outcome: Result<(), Error>,
    frees: Seq<(FileId, BStackRange)>,
    r: Result<(), Error>,
) -> bool {
    match outcome {
        Err(e) => t.len() == 0 && new == before && r == Err::<(), Error>(e),
        Ok(_) => if frees.len() > 0x400_0000_0000_0000 {
            t.len() == 0 && new == before && r == Err::<(), Error>(Error::NoSpace)
        } else {
            went_together(s, before, new, t, frees, r)
        },
    }
}

proof fn lemma_ended(
    s: Settings,
    before: TeardownView,
    new: TeardownView,
    t: Seq<Event>,
    outcome: Result<(), Error>,
    frees: Seq<(FileId, BStackRange)>,
    r: Result<(), Error>,
)
    requires
        crate::teardown::concluded(before, new, s, outcome, frees, t, r),
        kept(before, new),
    ensures
        ended(s, before, new, t, outcome, frees, r),
{
    if outcome is Ok && 0 < frees.len() <= 0x400_0000_0000_0000 {
        let (es, k, staged) = choose|es: Seq<WalEntry>, k: int, staged: Result<BStackRange, Error>|
         #[trigger]
            commit_talk(before, new, s, frees, es, k, staged, t, r);
        lemma_together(s, before, new, t, frees, r, es, k, staged);
    }
}

/// A collection that failed frees nothing; one that did not fail frees all that it collected.
pub proof fn law_a_collection_goes_whole_or_not_at_all<A: BStackRaiiAllocator>(
    ctx: &mut Teardown,
    a: &mut A,
    outcome: Result<(), Error>,
    frees: &Vec<(FileId, BStackRange)>,
    r: Result<(), Error>,
)
    requires
        call_ensures(conclude_teardown::<A>, (ctx, a, outcome, frees), r),
    ensures
        ended(
            old(a).spec_settings(),
            old(ctx)@,
            final(ctx)@,
            final(a).trace().skip(old(a).trace().len() as int),
            outcome,
            frees@,
            r,
        ),
{
    lemma_ended(
        old(a).spec_settings(),
        old(ctx)@,
        final(ctx)@,
        since(old(a).trace(), final(a).trace()),
        outcome,
        frees@,
        r,
    );
}

/// The state in which the frees of a file are held back from now on.
pub open spec fn holding(v: TeardownView, stack: u64) -> TeardownView {
    TeardownView { sink: Some((stack, Seq::empty())), depth: v.depth }
}

/// Releasing as one transaction holds every free of the release back, and then lets them go
/// together. Within another release, or where no log is kept, it is the release itself.
pub proof fn law_a_transaction_is_a_release_held_back<D: BStackDrop, A: BStackRaiiAllocator>(
    handle: D,
    ctx: &mut Teardown,
    a: &mut A,
    r: Result<(), Error>,
)
    requires
        call_ensures(wal_teardown::<D, A>, (handle, ctx, a), r),
    ensures
        ({
            let s = old(a).spec_settings();
            let t = final(a).trace().skip(old(a).trace().len() as int);
            if old(ctx)@.sink is Some || s.anchor is None {
                handle.release_talk(old(ctx)@, final(ctx)@, s, t, r)
            } else {
                exists|c: Collected|
                    {
                        &&& 0 <= c.k <= t.len()
                        &&& #[trigger] handle.release_talk(
                            holding(old(ctx)@, s.stack),
                            c.ctx,
                            s,
                            t.take(c.k),
                            c.outcome,
                        )
                        &&& ended(
                            s,
                            old(ctx)@,
                            final(ctx)@,
                            t.skip(c.k),
                            c.outcome,
                            c.ctx.frees(),
                            r,
                        )
                    }
            }
        }),
{
    let s = old(a).spec_settings();
    let t = since(old(a).trace(), final(a).trace());
    let release = crate::teardown::release_of(handle, s);
    if !(old(ctx)@.sink is Some || s.anchor is None) {
        let c = choose|c: Collected| #[trigger]
            collected_talk(release, old(ctx)@, final(ctx)@, s, t, r, c);
        assert(release(
            crate::teardown::collecting(old(ctx)@, s.stack),
            c.ctx,
            t.take(c.k),
            c.outcome,
        ));
        assert(handle.release_talk(
            holding(old(ctx)@, s.stack),
            c.ctx,
            s,
            t.take(c.k),
            c.outcome,
        ));
        lemma_ended(s, old(ctx)@, final(ctx)@, t.skip(c.k), c.outcome, c.ctx.frees(), r);
    } else {
        assert(release(old(ctx)@, final(ctx)@, t, r));
    }
}

/// Whether the block at `range` went whole in a release that holds its frees back, and these
/// then went together.
pub open spec fn owner_went<T: BStackBlock>(
    range: BStackRange,
    s: Settings,
    before: TeardownView,
    new: TeardownView,
    asked: Seq<Event>,
    t: Seq<Event>,
    r: Result<(), Error>,
    c: Collected,
    e: Emptied,
) -> bool {
    &&& 0 <= c.k <= t.len()
    &&& went_whole::<T>(
        range,
        s,
        holding(before, s.stack),
        asked,
        c.ctx,
        asked + t.take(c.k),
        c.outcome,
        e,
    )
    &&& ended(s, before, new, t.skip(c.k), c.outcome, c.ctx.frees(), r)
}

/// Dropping an owner releases its block and all that it owns: together, where a log is kept.
pub proof fn law_an_owner_goes_as_a_whole<T: BStackBlock, A: BStackRaiiAllocator>(
    owned: BStackOwned<T>,
    ctx: &mut Teardown,
    a: &mut A,
    r: Result<(), Error>,
)
    requires
        call_ensures(BStackOwned::<T>::bstack_drop::<A>, (owned, ctx, a), r),
    ensures
        ({
            let s = old(a).spec_settings();
            let asked = old(a).trace();
            let range = owned.inner().spec_range();
            if old(ctx)@.sink is Some || s.anchor is None {
                exists|e: Emptied| #[trigger]
                    went_whole::<T>(
                        range,
                        s,
                        old(ctx)@,
                        asked,
                        final(ctx)@,
                        final(a).trace(),
                        r,
                        e,
                    )
            } else {
                exists|c: Collected, e: Emptied| #[trigger]
                    owner_went::<T>(
                        range,
                        s,
                        old(ctx)@,
                        final(ctx)@,
                        asked,
                        final(a).trace().skip(asked.len() as int),
                        r,
                        c,
                        e,
                    )
            }
        }),
{
    let s = old(a).spec_settings();
    let asked = old(a).trace();
    lemma_extends(asked, final(a).trace());
    let t = since(asked, final(a).trace());
    let range = owned.inner().spec_range();
    let release = crate::owned::block_release::<T>(range, s);
    if old(ctx)@.sink is Some || s.anchor is None {
        assert(release(old(ctx)@, final(ctx)@, t, r));
        let p = choose|p: Parting| #[trigger]
            crate::teardown::parted::<T>(range, old(ctx)@, final(ctx)@, s, t, r, p);
        lemma_went::<T>(range, old(ctx)@, final(ctx)@, s, asked, t, r, p);
    } else {
        let c = choose|c: Collected| #[trigger]
            collected_talk(release, old(ctx)@, final(ctx)@, s, t, r, c);
        let held = holding(old(ctx)@, s.stack);
        assert(release(held, c.ctx, t.take(c.k), c.outcome));
        assert(drop_talk::<T>(range, held, c.ctx, s, t.take(c.k), c.outcome));
        let p = choose|p: Parting| #[trigger]
            crate::teardown::parted::<T>(range, held, c.ctx, s, t.take(c.k), c.outcome, p);
        lemma_went::<T>(range, held, c.ctx, s, asked, t.take(c.k), c.outcome, p);
        lemma_ended(s, old(ctx)@, final(ctx)@, t.skip(c.k), c.outcome, c.ctx.frees(), r);
        let e = Emptied {
            asked: asked + t.take(c.k).take(p.k),
            ctx: p.ctx,
            outcome: p.outcome,
        };
        assert(owner_went::<T>(range, s, old(ctx)@, final(ctx)@, asked, t, r, c, e));
    }
}

/// An owner with its allocator goes as the owner does.
pub proof fn law_an_owner_with_its_allocator_goes_as_a_whole<
    'a,
    T: BStackBlock,
    A: BStackRaiiAllocator,
>(d: AutoDrop<'a, T, A>, ctx: &mut Teardown, r: Result<(), Error>)
    requires
        call_ensures(AutoDrop::<'a, T, A>::release, (d, ctx), r),
        old(ctx)@.sink is Some || old(d.allocator).spec_settings().anchor is None,
    ensures
        exists|e: Emptied| #[trigger]
            went_whole::<T>(
                d.owned.inner().spec_range(),
                old(d.allocator).spec_settings(),
                old(ctx)@,
                old(d.allocator).trace(),
                final(ctx)@,
                final(d.allocator).trace(),
                r,
                e,
            ),
{
    let s = old(d.allocator).spec_settings();
    let asked = old(d.allocator).trace();
    lemma_extends(asked, final(d.allocator).trace());
    let t = since(asked, final(d.allocator).trace());
    let range = d.owned.inner().spec_range();
    let release = crate::owned::block_release::<T>(range, s);
    assert(release(old(ctx)@, final(ctx)@, t, r));
    let p = choose|p: Parting| #[trigger]
        crate::teardown::parted::<T>(range, old(ctx)@, final(ctx)@, s, t, r, p);
    lemma_went::<T>(range, old(ctx)@, final(ctx)@, s, asked, t, r, p);
}

} // verus!
