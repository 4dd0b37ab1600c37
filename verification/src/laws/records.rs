//! The log itself: what is written into it is read back, what is reused is the same, and a lock
//! is held once.
use vstd::prelude::*;

use crate::allocator::{lemma_extends, since, BStackRaiiAllocator, Event};
use crate::bytes::le_value;
use crate::error::Error;
use crate::range::{BStackRange, FileId};
use crate::wal::block::{load_at, read_anchor, Staged};
use crate::wal::entry::{
    entries_image, law_entry_round_trip, lemma_entries_image, WalEntry, WalLog, WalStatus,
};
use crate::wal::held::{HeldLocks, LockTable};
use crate::wal::reduce::{
    first_fit, fits, law_reduce_keeps_everything, law_reduce_leaves_no_pair,
    law_reuse_is_same_file_and_length, met, reduce, reduce_spec, some_fit, taken, AllocReq, Reduced,
};

use super::recovery::{header_lies, refused_with};
use super::slots::with_get;
use super::transactions::{lemma_records, records};

verus! {

/// The slot that names the log block is read, where there is one; zero there is no block.
pub proof fn law_the_anchor_names_the_log<A: BStackRaiiAllocator>(
    a: &mut A,
    r: Result<Option<u64>, Error>,
)
    requires
        call_ensures(read_anchor::<A>, (a,), r),
    ensures
        match old(a).spec_settings().anchor {
            None => final(a).trace() == old(a).trace() && (r matches Ok(x) && x is None),
            Some(slot) => exists|got: Result<Seq<u8>, Error>|
                final(a).trace() == #[trigger] with_get(old(a).trace(), slot as int, 8, got)
                    && match got {
                    Err(e) => r matches Err(x) && x == e,
                    Ok(b) => r matches Ok(x) && match x {
                        None => le_value(b) == 0,
                        Some(off) => off == le_value(b) && off != 0,
                    },
                },
        },
{
    lemma_extends(old(a).trace(), final(a).trace());
    let t = since(old(a).trace(), final(a).trace());
    match old(a).spec_settings().anchor {
        None => {
            assert(old(a).trace() + t =~= old(a).trace());
        },
        Some(slot) => {
            let got = t[0]->Read_reply;
            assert(old(a).trace() + t =~= with_get(old(a).trace(), slot as int, 8, got));
        },
    }
}

/// Whether `e` is the entry that lies in these 32 bytes.
pub open spec fn lies_in(e: WalEntry, b: Seq<u8>) -> bool {
    &&& e.status == b[0]
    &&& e.op == b[1]
    &&& e.file_id.0 == le_value(b.subrange(8, 12))
    &&& e.word_a == le_value(b.subrange(16, 24))
    &&& e.word_b == le_value(b.subrange(24, 32))
}

/// Whether the log that was read is the one that lies there: the block that the anchor names, its
/// header, and each of the entries that the header counts.
pub open spec fn is_there(slot: u64, t: Seq<Event>, st: Staged) -> bool {
    &&& t.len() == 3
    &&& t[0] matches Event::Read { off: o0, len: 8, reply: Ok(b0) }
    &&& o0 == slot && st.range.start == le_value(b0) as u64 && st.range.start != 0
    &&& t[1] matches Event::Read { off: o1, len: 32, reply: Ok(b1) }
    &&& o1 == st.range.start
    &&& le_value(b1.subrange(0, 8)) as u64 == 0x6273_7461_636b_5741u64
    &&& st.header.txn_status == b1[8]
    &&& st.header.count == le_value(b1.subrange(16, 24)) as u64
    &&& st.header.capacity == le_value(b1.subrange(24, 32)) as u64
    &&& st.header.count <= st.header.capacity <= 0x10_0000
    &&& st.range.len == 32 + 32 * st.header.capacity
    &&& t[2] matches Event::Read { off: o2, len: l2, reply: Ok(b2) }
    &&& o2 == st.range.start + 32 && l2 == 32 * st.header.count
    &&& st.entries@.len() == st.header.count
    &&& forall|i: int|
        0 <= i < st.entries@.len() ==> lies_in(
            #[trigger] st.entries@[i],
            b2.subrange(32 * i, 32 * i + 32),
        )
}

/// Whether there is no log: no slot for one, none named in it, or no header at that place.
pub open spec fn is_not_there(anchor: Option<u64>, t: Seq<Event>) -> bool {
    ||| anchor is None && t.len() == 0
    ||| t.len() == 1 && (t[0] matches Event::Read { len: 8, reply: Ok(b), .. } && le_value(b) as u64
        == 0)
    ||| t.len() == 2 && (t[1] matches Event::Read { len: 32, reply: Ok(b), .. } && le_value(
        b.subrange(0, 8),
    ) as u64 != 0x6273_7461_636b_5741u64)
}

/// What is read of a log is what lies there; and it is not read only where a request is refused
/// or the header cannot be true.
pub proof fn law_a_log_is_read_as_it_lies<A: BStackRaiiAllocator>(
    a: &mut A,
    r: Result<Option<Staged>, Error>,
)
    requires
        call_ensures(load_at::<A>, (a,), r),
    ensures
        ({
            let anchor = old(a).spec_settings().anchor;
            let t = final(a).trace().skip(old(a).trace().len() as int);
            match r {
                Ok(Some(st)) => anchor matches Some(slot) && is_there(slot, t, st),
                Ok(None) => is_not_there(anchor, t),
                Err(e) => {
                    ||| t.len() > 0 && refused_with(t.last(), e)
                    ||| e == Error::CorruptWalCapacity && header_lies(t)
                    ||| e == Error::BlockOffsetOverflow && t.len() == 2
                },
            }
        }),
{
    let t = since(old(a).trace(), final(a).trace());
    if let Ok(Some(st)) = r {
        let b2 = t[2]->Read_reply->Ok_0;
        assert forall|i: int| 0 <= i < st.entries@.len() implies lies_in(
            #[trigger] st.entries@[i],
            b2.subrange(32 * i, 32 * i + 32),
        ) by {
            assert(st.entries@[i].read_from(b2.subrange(32 * i, 32 * i + 32)));
        }
    }
}

/// The bytes of a log are those of its entries, one after another.
pub proof fn law_a_log_is_its_entries(log: &WalLog, r: Vec<u8>)
    requires
        call_ensures(WalLog::as_bytes, (log,), r),
    ensures
        r@.len() == 32 * log@.len(),
        forall|i: int|
            0 <= i < log@.len() ==> records(
                r@.subrange(32 * i, 32 * i + 32),
                (#[trigger] log@[i]).status,
                log@[i].op,
                log@[i].file_id.0 as nat,
                BStackRange { start: log@[i].word_a, len: log@[i].word_b },
            ),
{
    lemma_entries_image(log@);
    assert forall|i: int| 0 <= i < log@.len() implies records(
        r@.subrange(32 * i, 32 * i + 32),
        (#[trigger] log@[i]).status,
        log@[i].op,
        log@[i].file_id.0 as nat,
        BStackRange { start: log@[i].word_a, len: log@[i].word_b },
    ) by {
        assert(entries_image(log@).subrange(32 * i, 32 * i + 32) == log@[i].image());
        lemma_records(log@[i]);
    }
}

/// What is read from bytes are the whole entries in them.
pub proof fn law_bytes_are_read_as_entries(bytes: &[u8], r: Vec<WalEntry>)
    requires
        call_ensures(WalLog::entries_from_bytes, (bytes,), r),
    ensures
        r@.len() == bytes@.len() / 32,
        forall|i: int|
            0 <= i < r@.len() ==> lies_in(
                #[trigger] r@[i],
                bytes@.subrange(32 * i, 32 * i + 32),
            ),
{
    assert forall|i: int| 0 <= i < r@.len() implies lies_in(
        #[trigger] r@[i],
        bytes@.subrange(32 * i, 32 * i + 32),
    ) by {
        assert(r@[i].read_from(bytes@.subrange(32 * i, 32 * i + 32)));
    }
}

/// An entry that is written is read back as it was.
pub proof fn law_an_entry_is_read_back(e: &WalEntry, made: Vec<u8>, bytes: &[u8], back: WalEntry)
    requires
        call_ensures(WalEntry::to_bytes, (e,), made),
        bytes@ == made@,
        call_ensures(WalEntry::from_bytes, (bytes, 0), back),
    ensures
        back.status == e.status,
        back.op == e.op,
        back.file_id == e.file_id,
        back.obj_id == e.obj_id,
        back.word_a == e.word_a,
        back.word_b == e.word_b,
        made@.len() == 32,
{
    assert(bytes@.subrange(0, 32) =~= made@);
    law_entry_round_trip(*e, back);
}

/// A transaction goes from rest to pending to complete, and no further; recovery abandons what is
/// pending, and nothing else.
pub proof fn law_a_transaction_goes_forward(s: WalStatus, next: WalStatus, after: WalStatus)
    requires
        call_ensures(WalStatus::advance, (s,), next),
        call_ensures(WalStatus::recover, (s,), after),
    ensures
        next == WalStatus::Pending <==> s == WalStatus::Idle,
        next == WalStatus::Complete <==> s == WalStatus::Pending || s == WalStatus::Complete,
        next == WalStatus::Abandon <==> s == WalStatus::Abandon,
        after == WalStatus::Abandon <==> s == WalStatus::Pending || s == WalStatus::Abandon,
        after == WalStatus::Idle <==> s == WalStatus::Idle,
        after == WalStatus::Complete <==> s == WalStatus::Complete,
{
}

/// A status is read back from its byte, and a byte that is no status is never acted on.
pub proof fn law_a_status_is_read_back(s: WalStatus, code: u8, back: WalStatus, v: u8, x: WalStatus)
    requires
        call_ensures(WalStatus::code, (s,), code),
        call_ensures(WalStatus::from_u8, (code,), back),
        call_ensures(WalStatus::from_u8, (v,), x),
    ensures
        back == s,
        v > 3 ==> x == WalStatus::Abandon,
{
}

/// Every requirement is met by a block that goes, or is left; every block that goes is taken over,
/// or is left; a block is taken over in its file and with its length, and no pair is overlooked.
pub proof fn law_reuse_loses_nothing(
    allocs: Vec<AllocReq>,
    deallocs: Vec<(FileId, BStackRange)>,
    r: Reduced,
)
    requires
        call_ensures(reduce, (allocs, deallocs), r),
    ensures
        r.reused@.map_values(|p: (AllocReq, BStackRange)| p.0).to_multiset().add(
            r.allocs@.to_multiset(),
        ) == allocs@.to_multiset(),
        r.reused@.map_values(
            |p: (AllocReq, BStackRange)| (p.0.file_id, p.1),
        ).to_multiset().add(r.deallocs@.to_multiset()) == deallocs@.to_multiset(),
        forall|i: int|
            0 <= i < r.reused@.len() ==> (#[trigger] r.reused@[i]).1.len == r.reused@[i].0.len,
        forall|i: int, j: int|
            0 <= i < r.allocs@.len() && 0 <= j < r.deallocs@.len() ==> !(
            #[trigger] r.deallocs@[j].0 == (#[trigger] r.allocs@[i]).file_id && r.deallocs@[j].1.len
                == r.allocs@[i].len),
{
    law_reduce_keeps_everything(allocs@, deallocs@);
    law_reuse_is_same_file_and_length(allocs@, deallocs@);
    law_reduce_leaves_no_pair(allocs@, deallocs@);
    let v = reduce_spec(allocs@, deallocs@);
    assert(met(v) =~= r.reused@.map_values(|p: (AllocReq, BStackRange)| p.0));
    assert(taken(v) =~= r.reused@.map_values(
        |p: (AllocReq, BStackRange)| (p.0.file_id, p.1),
    ));
    assert forall|i: int| 0 <= i < r.reused@.len() implies (#[trigger] r.reused@[i]).1.len
        == r.reused@[i].0.len by {
        assert(v.reused[i] == r.reused@[i]);
    }
    assert forall|i: int, j: int|
        0 <= i < r.allocs@.len() && 0 <= j < r.deallocs@.len() implies !(#[trigger] r.deallocs@[j].0
        == (#[trigger] r.allocs@[i]).file_id && r.deallocs@[j].1.len == r.allocs@[i].len) by {
        assert(!fits(v.deallocs[j], v.allocs[i]));
    }
}

/// Whether the block number `pos` is the first of those left that is in the file of the
/// requirement and has its length.
pub open spec fn is_first_match(
    left: Seq<(FileId, BStackRange)>,
    req: AllocReq,
    pos: int,
) -> bool {
    &&& 0 <= pos < left.len()
    &&& left[pos].0 == req.file_id && left[pos].1.len == req.len
    &&& forall|j: int|
        0 <= j < pos ==> !((#[trigger] left[j]).0 == req.file_id && left[j].1.len == req.len)
}

/// Requirements are met in turn: each takes over the first block that is left and matches, and
/// where none does it is left itself.
pub proof fn law_requirements_are_met_in_turn(
    allocs: Vec<AllocReq>,
    init: Vec<AllocReq>,
    deallocs: Vec<(FileId, BStackRange)>,
    r: Reduced,
    q: Reduced,
)
    requires
        allocs@.len() > 0,
        init@ == allocs@.drop_last(),
        call_ensures(reduce, (init, deallocs), q),
        call_ensures(reduce, (allocs, deallocs), r),
    ensures
        ({
            let req = allocs@.last();
            ||| exists|pos: int|
                {
                    &&& #[trigger] is_first_match(q.deallocs@, req, pos)
                    &&& r.reused@ == q.reused@.push((req, q.deallocs@[pos].1))
                    &&& r.deallocs@ == q.deallocs@.remove(pos)
                    &&& r.allocs@ == q.allocs@
                }
            ||| {
                &&& r.reused@ == q.reused@
                &&& r.deallocs@ == q.deallocs@
                &&& r.allocs@ == q.allocs@.push(req)
                &&& forall|j: int|
                    0 <= j < q.deallocs@.len() ==> !((#[trigger] q.deallocs@[j]).0 == req.file_id
                        && q.deallocs@[j].1.len == req.len)
            }
        }),
{
    let req = allocs@.last();
    let s = reduce_spec(init@, deallocs@);
    if some_fit(s.deallocs, req) {
        let pos = choose|pos: int| first_fit(s.deallocs, req, pos);
        assert forall|j: int| 0 <= j < pos implies !((#[trigger] q.deallocs@[j]).0 == req.file_id
            && q.deallocs@[j].1.len == req.len) by {
            assert(!fits(s.deallocs[j], req));
        }
        assert(is_first_match(q.deallocs@, req, pos));
    } else {
        law_reduce_leaves_no_pair(allocs@, deallocs@);
        let v = reduce_spec(allocs@, deallocs@);
        let n = s.allocs.len() as int;
        assert(v.allocs[n] == req);
        assert forall|j: int| 0 <= j < q.deallocs@.len() implies !((#[trigger] q.deallocs@[j]).0
            == req.file_id && q.deallocs@[j].1.len == req.len) by {
            assert(!fits(v.deallocs[j], v.allocs[n]));
        }
    }
}

/// A lock is granted exactly where it is not held, and then it is; no other lock is affected.
pub proof fn law_a_lock_is_held_once(h: &mut HeldLocks, key: u64, r: Result<(), Error>, other: u64)
    requires
        old(h).wf(),
        call_ensures(HeldLocks::acquire, (h, key), r),
    ensures
        r is Ok <==> !old(h)@.contains(key),
        r matches Err(e) ==> e == Error::CloneReentry && final(h)@ == old(h)@,
        final(h)@.contains(key),
        other != key ==> (final(h)@.contains(other) <==> old(h)@.contains(other)),
{
    if r is Ok {
        let n = old(h)@.len() as int;
        assert(final(h)@[n] == key);
        if old(h)@.contains(other) {
            let k = old(h)@.index_of(other);
            assert(final(h)@[k] == other);
        }
        if final(h)@.contains(other) && other != key {
            let k = final(h)@.index_of(other);
            assert(old(h)@[k] == other);
        }
    }
}

/// A lock that is given up is held no more; no other lock is affected.
pub proof fn law_a_lock_is_given_up(h: &mut HeldLocks, key: u64, other: u64)
    requires
        old(h).wf(),
        call_ensures(HeldLocks::release, (h, key), ()),
    ensures
        !final(h)@.contains(key),
        other != key ==> (final(h)@.contains(other) <==> old(h)@.contains(other)),
{
}

/// A file has one lock for as long as somebody holds on to it, and else a new one that no other
/// file has; the locks of other files stay while somebody holds on to them, and are forgotten
/// when a new one is made otherwise.
pub proof fn law_a_file_has_one_lock(
    table: &mut LockTable,
    key: u64,
    live: &Vec<u64>,
    lock: u64,
    other: u64,
)
    requires
        old(table).wf(),
        old(table).next_lock() < u64::MAX,
        call_ensures(LockTable::wal_lock_for, (table, key, live), lock),
    ensures
        final(table)@.contains_key(key) && final(table)@[key] == lock,
        old(table)@.contains_key(key) && live@.contains(old(table)@[key]) ==> lock
            == old(table)@[key],
        !(old(table)@.contains_key(key) && live@.contains(old(table)@[key])) ==> {
            &&& old(table)@.contains_key(other) ==> old(table)@[other] != lock
            &&& other != key ==> (final(table)@.contains_key(other)
                <==> old(table)@.contains_key(other) && live@.contains(old(table)@[other]))
        },
        other != key && old(table)@.contains_key(other) && live@.contains(old(table)@[other])
            ==> final(table)@.contains_key(other) && final(table)@[other] == old(table)@[other],
{
}

} // verus!
