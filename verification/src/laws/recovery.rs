//! Completing after a crash: what a log strands is given back, all of it and nothing else.
use vstd::pervasive::arbitrary;
use vstd::prelude::*;

use crate::allocator::{lemma_extends, since, BStackRaiiAllocator, Event, Settings};
use crate::bytes::le_value;
use crate::error::Error;
use crate::range::{BStackRange, FileId};
use crate::teardown::{Teardown, TeardownView};
use crate::wal::entry::WalEntry;
use crate::wal::recover::{
    asked_in, bulk_step, does, finish, finish_at_locked, finish_script, finish_talk,
    foreign_orphans, free_recorded, free_steps, free_talk, held_in, holder, is_orphan, local_ranges,
    mark_steps, orphan_at, orphans, orphans_of, outcome, ran, single_script, stranded, Completion,
    Deed, Orphan, Step,
};

use super::{holds_back, one_free};

verus! {

/// A log, as it is read from a file: where its block lies, the byte that says how far the
/// transaction has come, how many entries are in use, and their bytes.
pub struct LogBytes {
    pub off: u64,
    pub progress: u8,
    pub count: int,
    pub entries: Seq<u8>,
}

/// Whether `t` starts with the three reads that find this log.
pub open spec fn log_found(s: Settings, t: Seq<Event>, log: LogBytes) -> bool {
    &&& s.anchor is Some
    &&& t.len() >= 3
    &&& t[0] matches Event::Read { off: o0, len: l0, reply: Ok(b0) }
    &&& o0 == s.anchor->0 && l0 == 8 && le_value(b0) as u64 == log.off && log.off != 0
    &&& t[1] matches Event::Read { off: o1, len: l1, reply: Ok(b1) }
    &&& o1 == log.off && l1 == 32
    &&& le_value(b1.subrange(0, 8)) as u64 == 0x6273_7461_636b_5741u64
    &&& b1[8] == log.progress
    &&& le_value(b1.subrange(16, 24)) as u64 == log.count
    &&& t[2] matches Event::Read { off: o2, len: l2, reply: Ok(b2) }
    &&& o2 == log.off + 32 && l2 == 32 * log.count && b2 == log.entries && b2.len() == 32
        * log.count
}

/// Whether entry number `i` names a block that the outcome of the transaction strands: one that
/// is still pending, and is a free of a committed transaction or a block taken by one that was
/// not committed.
pub open spec fn strands(log: LogBytes, i: int) -> bool {
    &&& 0 <= i < log.count
    &&& log.entries[32 * i] == 1
    &&& if log.progress == 2 {
        log.entries[32 * i + 1] == 1
    } else {
        log.entries[32 * i + 1] == 0
    }
}

/// The file that entry number `i` names; `0` is that of the log.
pub open spec fn entry_file(log: LogBytes, i: int) -> nat {
    le_value(log.entries.subrange(32 * i + 8, 32 * i + 12))
}

/// The block that entry number `i` names.
pub open spec fn entry_block(log: LogBytes, i: int) -> BStackRange {
    BStackRange {
        start: le_value(log.entries.subrange(32 * i + 16, 32 * i + 24)) as u64,
        len: le_value(log.entries.subrange(32 * i + 24, 32 * i + 32)) as u64,
    }
}

/// Whether `ev` asks for a block of this file to be given back.
pub open spec fn asks_back(ev: Event, file: nat, range: BStackRange) -> bool {
    match ev {
        Event::Dealloc { range: x, reply: _ } => file == 0 && x == range,
        Event::DeallocBulk { ranges, reply: _ } => file == 0 && ranges.contains(range),
        Event::HostDealloc { file: f, range: x, reply: _ } => f.0 == file && x == range,
        _ => false,
    }
}

/// Whether what `ev` asks was not refused.
pub open spec fn went_well(ev: Event) -> bool {
    match ev {
        Event::Dealloc { range: _, reply } => reply is Ok,
        Event::DeallocBulk { ranges: _, reply } => reply is Ok,
        Event::HostDealloc { file: _, range: _, reply } => !(reply matches Some(Err(_))),
        Event::Write { off: _, bytes: _, reply } => reply is Ok,
        _ => true,
    }
}

/// Whether `ev` marks entry number `i` as done.
pub open spec fn marks_done(ev: Event, log: LogBytes, i: int) -> bool {
    ev matches Event::Write { off, bytes, reply: Ok(_) } && off == log.off + 32 + 32 * i && bytes
        == seq![2u8]
}

/// Whether `which` are the numbers of all entries that strand a block, each once.
pub open spec fn all_stranding(log: LogBytes, which: Seq<int>) -> bool {
    &&& forall|p: int| 0 <= p < which.len() ==> strands(log, #[trigger] which[p])
    &&& forall|p: int, q: int|
        0 <= p < q < which.len() ==> #[trigger] which[p] < #[trigger] which[q]
    &&& forall|i: int| #[trigger] strands(log, i) ==> which.contains(i)
}

/// Whether the block of entry number `i` was given back, after the entry was marked, or is held
/// back to be given back by a collection under way.
pub open spec fn reclaimed_entry(
    log: LogBytes,
    i: int,
    s: Settings,
    before: TeardownView,
    new: TeardownView,
    t: Seq<Event>,
) -> bool {
    ||| exists|m: int, j: int|
        {
            &&& 3 <= m < j < t.len()
            &&& marks_done(#[trigger] t[m], log, i)
            &&& asks_back(#[trigger] t[j], entry_file(log, i), entry_block(log, i))
            &&& went_well(t[j])
        }
    ||| {
        &&& entry_file(log, i) == 0
        &&& exists|m: int| 3 <= m < t.len() && marks_done(#[trigger] t[m], log, i)
        &&& exists|p: int|
            before.frees().len() <= p < new.frees().len() && #[trigger] new.frees()[p] == (
                s.file,
                entry_block(log, i),
            )
    }
}

/// Whether some entry strands this block.
pub open spec fn strands_block(log: LogBytes, file: nat, range: BStackRange) -> bool {
    exists|i: int| #[trigger]
        strands(log, i) && entry_file(log, i) == file && entry_block(log, i) == range
}

/// Whether every block that `ev` asks back is one that some entry strands.
pub open spec fn is_stranded_block(log: LogBytes, ev: Event) -> bool {
    match ev {
        Event::Dealloc { range, reply: _ } => strands_block(log, 0, range),
        Event::DeallocBulk { ranges, reply: _ } => forall|q: int|
            0 <= q < ranges.len() ==> strands_block(log, 0, #[trigger] ranges[q]),
        Event::HostDealloc { file, range, reply: _ } => strands_block(log, file.0 as nat, range),
        _ => true,
    }
}

proof fn lemma_asked_at(ds: Seq<Deed>, k: int)
    requires
        0 <= k < ds.len(),
        ds[k] is Asked,
    ensures
        asked_in(ds.take(k)).len() < asked_in(ds).len(),
        asked_in(ds)[asked_in(ds.take(k)).len() as int] == ds[k]->Asked_0,
    decreases ds.len(),
{
    let init = ds.drop_last();
    if k < init.len() {
        lemma_asked_at(init, k);
        assert(init.take(k) =~= ds.take(k));
    } else {
        assert(ds.take(k) =~= init);
    }
}

proof fn lemma_asked_order(ds: Seq<Deed>, j: int, k: int)
    requires
        0 <= j < k <= ds.len(),
        ds[j] is Asked,
    ensures
        asked_in(ds.take(j)).len() < asked_in(ds.take(k)).len(),
{
    let upto = ds.take(k);
    assert(upto[j] == ds[j]);
    lemma_asked_at(upto, j);
    assert(upto.take(j) =~= ds.take(j));
}

proof fn lemma_held_at(ds: Seq<Deed>, k: int) -> (p: int)
    requires
        0 <= k < ds.len(),
        ds[k] is Held,
    ensures
        0 <= p < held_in(ds).len(),
        held_in(ds)[p] == (ds[k]->Held_0, ds[k]->Held_1),
    decreases ds.len(),
{
    let init = ds.drop_last();
    if k < init.len() {
        let p = lemma_held_at(init, k);
        assert(held_in(ds)[p] == held_in(init)[p]);
        p
    } else {
        held_in(init).len() as int
    }
}

proof fn lemma_asked_from(ds: Seq<Deed>, p: int) -> (k: int)
    requires
        0 <= p < asked_in(ds).len(),
    ensures
        0 <= k < ds.len(),
        ds[k] == Deed::Asked(asked_in(ds)[p]),
    decreases ds.len(),
{
    let init = ds.drop_last();
    if p < asked_in(init).len() {
        let k = lemma_asked_from(init, p);
        assert(asked_in(ds)[p] == asked_in(init)[p]);
        k
    } else {
        ds.len() - 1
    }
}

proof fn lemma_held_from(ds: Seq<Deed>, p: int) -> (k: int)
    requires
        0 <= p < held_in(ds).len(),
    ensures
        0 <= k < ds.len(),
        ds[k] is Held,
        held_in(ds)[p] == (ds[k]->Held_0, ds[k]->Held_1),
    decreases ds.len(),
{
    let init = ds.drop_last();
    if p < held_in(init).len() {
        let k = lemma_held_from(init, p);
        assert(held_in(ds)[p] == held_in(init)[p]);
        k
    } else {
        ds.len() - 1
    }
}

proof fn lemma_local_has(os: Seq<Orphan>, p: int) -> (q: int)
    requires
        0 <= p < os.len(),
        os[p].file.0 == 0,
    ensures
        0 <= q < local_ranges(os).len(),
        local_ranges(os)[q] == os[p].range,
    decreases os.len(),
{
    let init = os.drop_last();
    if p < init.len() {
        let q = lemma_local_has(init, p);
        assert(local_ranges(os)[q] == local_ranges(init)[q]);
        q
    } else {
        local_ranges(init).len() as int
    }
}

proof fn lemma_local_from(os: Seq<Orphan>, q: int) -> (p: int)
    requires
        0 <= q < local_ranges(os).len(),
    ensures
        0 <= p < os.len(),
        os[p].file.0 == 0,
        local_ranges(os)[q] == os[p].range,
    decreases os.len(),
{
    let init = os.drop_last();
    if q < local_ranges(init).len() {
        let p = lemma_local_from(init, q);
        assert(local_ranges(os)[q] == local_ranges(init)[q]);
        p
    } else {
        os.len() - 1
    }
}

proof fn lemma_foreign_has(os: Seq<Orphan>, p: int) -> (q: int)
    requires
        0 <= p < os.len(),
        os[p].file.0 != 0,
    ensures
        0 <= q < foreign_orphans(os).len(),
        foreign_orphans(os)[q] == os[p],
    decreases os.len(),
{
    let init = os.drop_last();
    if p < init.len() {
        let q = lemma_foreign_has(init, p);
        assert(foreign_orphans(os)[q] == foreign_orphans(init)[q]);
        q
    } else {
        foreign_orphans(init).len() as int
    }
}

proof fn lemma_foreign_from(os: Seq<Orphan>, q: int) -> (p: int)
    requires
        0 <= q < foreign_orphans(os).len(),
    ensures
        0 <= p < os.len(),
        foreign_orphans(os)[q] == os[p],
    decreases os.len(),
{
    let init = os.drop_last();
    if q < foreign_orphans(init).len() {
        let p = lemma_foreign_from(init, q);
        assert(foreign_orphans(os)[q] == foreign_orphans(init)[q]);
        p
    } else {
        os.len() - 1
    }
}

/// Where the script marks orphan number `p`, and where it frees it.
proof fn lemma_script_of(os: Seq<Orphan>, bulk: bool, off: u64, p: int) -> (w: (int, int))
    requires
        0 <= p < os.len(),
    ensures
        0 <= w.0 < w.1 < finish_script(os, bulk, off).len(),
        finish_script(os, bulk, off)[w.0] == (Step::Mark { slot: os[p].slot }),
        match finish_script(os, bulk, off)[w.1] {
            Step::Free { file, range } => file == os[p].file && range == os[p].range && (bulk
                ==> file.0 != 0),
            Step::FreeAll { ranges } => os[p].file.0 == 0 && ranges.contains(os[p].range),
            _ => false,
        },
{
    let script = finish_script(os, bulk, off);
    if bulk {
        let n = os.len() as int;
        let locals = local_ranges(os);
        assert(script[p] == mark_steps(os)[p]);
        if os[p].file.0 == 0 {
            let q = lemma_local_has(os, p);
            assert(script[n] == bulk_step(locals)[0]);
            assert(locals.contains(os[p].range));
            (p, n)
        } else {
            let q = lemma_foreign_has(os, p);
            let k = n + bulk_step(locals).len() + q;
            assert(script[k] == free_steps(foreign_orphans(os))[q]);
            (p, k)
        }
    } else {
        assert((2 * p) / 2 == p && (2 * p) % 2 == 0);
        assert((2 * p + 1) / 2 == p && (2 * p + 1) % 2 == 1);
        assert(script[2 * p] == single_script(os)[2 * p]);
        assert(script[2 * p + 1] == single_script(os)[2 * p + 1]);
        (2 * p, 2 * p + 1)
    }
}

spec fn is_local_orphan(os: Seq<Orphan>, range: BStackRange) -> bool {
    exists|p: int| 0 <= p < os.len() && (#[trigger] os[p]).file.0 == 0 && os[p].range == range
}

/// What a step frees is an orphan.
proof fn lemma_script_frees_orphans(os: Seq<Orphan>, bulk: bool, off: u64, k: int)
    requires
        0 <= k < finish_script(os, bulk, off).len(),
    ensures
        match finish_script(os, bulk, off)[k] {
            Step::Free { file, range } => exists|p: int|
                0 <= p < os.len() && (#[trigger] os[p]).file == file && os[p].range == range,
            Step::FreeAll { ranges } => forall|q: int|
                0 <= q < ranges.len() ==> is_local_orphan(os, #[trigger] ranges[q]),
            _ => true,
        },
{
    let script = finish_script(os, bulk, off);
    if bulk {
        let n = os.len() as int;
        let locals = local_ranges(os);
        let m = n + bulk_step(locals).len();
        if k < n {
            assert(script[k] == mark_steps(os)[k]);
        } else if k < m {
            assert(script[k] == bulk_step(locals)[0]);
            assert forall|q: int| 0 <= q < locals.len() implies is_local_orphan(
                os,
                #[trigger] locals[q],
            ) by {
                let p = lemma_local_from(os, q);
                assert(os[p].file.0 == 0);
            }
        } else if k < script.len() - 1 {
            let q = k - m;
            assert(script[k] == free_steps(foreign_orphans(os))[q]);
            let p = lemma_foreign_from(os, q);
            assert(os[p].file == foreign_orphans(os)[q].file);
        }
    } else if k < 2 * os.len() {
        assert(script[k] == single_script(os)[k]);
        let p = k / 2;
        assert(os[p] == os[p]);
    }
}

/// The numbers of the entries that are orphans.
spec fn numbers_of(es: Seq<WalEntry>, committed: bool) -> Seq<int>
    decreases es.len(),
{
    if es.len() == 0 {
        Seq::empty()
    } else if is_orphan(es.last(), committed) {
        numbers_of(es.drop_last(), committed).push(es.len() - 1)
    } else {
        numbers_of(es.drop_last(), committed)
    }
}

proof fn lemma_numbers(es: Seq<WalEntry>, committed: bool, base: int)
    ensures
        numbers_of(es, committed).len() == orphans_of(es, committed, base).len(),
        forall|p: int|
            0 <= p < numbers_of(es, committed).len() ==> 0 <= #[trigger] numbers_of(
                es,
                committed,
            )[p] < es.len() && is_orphan(es[numbers_of(es, committed)[p]], committed)
                && orphans_of(es, committed, base)[p] == orphan_at(
                es[numbers_of(es, committed)[p]],
                base,
                numbers_of(es, committed)[p],
            ),
        forall|p: int, q: int|
            0 <= p < q < numbers_of(es, committed).len() ==> #[trigger] numbers_of(
                es,
                committed,
            )[p] < #[trigger] numbers_of(es, committed)[q],
        forall|i: int|
            0 <= i < es.len() && is_orphan(#[trigger] es[i], committed) ==> numbers_of(
                es,
                committed,
            ).contains(i),
    decreases es.len(),
{
    if es.len() > 0 {
        let init = es.drop_last();
        lemma_numbers(init, committed, base);
        let was = numbers_of(init, committed);
        let now = numbers_of(es, committed);
        assert forall|p: int| 0 <= p < now.len() implies 0 <= #[trigger] now[p] < es.len()
            && is_orphan(es[now[p]], committed) && orphans_of(es, committed, base)[p] == orphan_at(
            es[now[p]],
            base,
            now[p],
        ) by {
            if p < was.len() {
                assert(now[p] == was[p]);
                assert(init[was[p]] == es[was[p]]);
            }
        }
        assert forall|p: int, q: int| 0 <= p < q < now.len() implies #[trigger] now[p]
            < #[trigger] now[q] by {
            assert(now[p] == was[p]);
            if q < was.len() {
                assert(now[q] == was[q]);
            }
        }
        assert forall|i: int| 0 <= i < es.len() && is_orphan(#[trigger] es[i], committed) implies
            now.contains(i) by {
            if i < init.len() {
                assert(init[i] == es[i]);
                let p = choose|p: int| 0 <= p < was.len() && was[p] == i;
                assert(now[p] == i);
            } else {
                assert(now[now.len() - 1] == i);
            }
        }
    }
}

/// Whether there is nothing to complete: there is no log, or its transaction is over.
pub open spec fn nothing_staged(s: Settings, t: Seq<Event>) -> bool {
    ||| s.anchor is None && t.len() == 0
    ||| t.len() == 1 && (t[0] matches Event::Read { off: _, len: _, reply: Ok(b) } && le_value(
        b,
    ) as u64 == 0)
    ||| t.len() == 2 && (t[1] matches Event::Read { off: _, len: _, reply: Ok(b) } && le_value(
        b.subrange(0, 8),
    ) as u64 != 0x6273_7461_636b_5741u64)
    ||| t.len() == 3 && exists|log: LogBytes| #[trigger] log_found(s, t, log) && log.progress == 0
}

/// Whether a completion did all that is to be done about this log, and nothing else: every
/// stranded block is given back, once its entry is marked; no other block is; and in the end the
/// log is at rest.
pub open spec fn completed(
    log: LogBytes,
    which: Seq<int>,
    s: Settings,
    before: TeardownView,
    new: TeardownView,
    t: Seq<Event>,
) -> bool {
    &&& log_found(s, t, log)
    &&& log.progress != 0
    &&& all_stranding(log, which)
    &&& forall|i: int| #[trigger] strands(log, i) ==> reclaimed_entry(log, i, s, before, new, t)
    &&& forall|j: int| 0 <= j < t.len() ==> is_stranded_block(log, #[trigger] t[j])
    &&& forall|p: int|
        before.frees().len() <= p < new.frees().len() ==> (#[trigger] new.frees()[p]).0 == s.file
            && strands_block(log, 0, new.frees()[p].1)
    &&& t.last() matches Event::Write { off, bytes, reply: Ok(_) }
    &&& off == log.off + 8 && bytes == seq![0u8]
}

proof fn lemma_completed(
    s: Settings,
    before: TeardownView,
    new: TeardownView,
    t: Seq<Event>,
    c: Completion,
    n: usize,
    log: LogBytes,
)
    requires
        finish_talk(before, new, s, t, c, Ok(n)),
        c.staged is Ok,
        c.staged->Ok_0 is Some,
        log.off == c.staged->Ok_0->0.range.start,
        log.progress == c.staged->Ok_0->0.header.txn_status,
        log.progress != 0,
        log.count == c.staged->Ok_0->0.entries@.len(),
        c.split == 3,
        log_found(s, t, log),
        forall|i: int|
            0 <= i < log.count ==> (#[trigger] c.staged->Ok_0->0.entries@[i]).read_from(
                log.entries.subrange(32 * i, 32 * i + 32),
            ),
    ensures
        exists|which: Seq<int>| which.len() == n && #[trigger]
            completed(log, which, s, before, new, t),
{
    let tx = c.staged->Ok_0->0;
    let es = tx.entries@;
    let committed = log.progress == 2;
    let base = log.off + 32;
    let os = orphans_of(es, committed, base);
    let script = finish_script(os, s.bulk, log.off);
    let ds = c.deeds;
    let hold = holder(before, s);
    let rest = t.skip(3);
    let which = numbers_of(es, committed);
    lemma_numbers(es, committed, base);
    assert(ran(script, hold, ds, Ok(())));
    assert forall|i: int| 0 <= i < es.len() implies {
        &&& is_orphan(#[trigger] es[i], committed) <==> strands(log, i)
        &&& es[i].file_id.0 == entry_file(log, i)
        &&& es[i].slice() == entry_block(log, i)
    } by {
        let b = log.entries.subrange(32 * i, 32 * i + 32);
        assert(es[i].read_from(b));
        assert(b[0] == log.entries[32 * i]);
        assert(b[1] == log.entries[32 * i + 1]);
        assert(b.subrange(8, 12) =~= log.entries.subrange(32 * i + 8, 32 * i + 12));
        assert(b.subrange(16, 24) =~= log.entries.subrange(32 * i + 16, 32 * i + 24));
        assert(b.subrange(24, 32) =~= log.entries.subrange(32 * i + 24, 32 * i + 32));
    }
    assert forall|k: int| 0 <= k < ds.len() implies outcome(#[trigger] ds[k]) is Ok by {
        if k == ds.len() - 1 {
            assert(ds[k] == ds.last());
        }
    }
    assert(all_stranding(log, which)) by {
        assert forall|p: int| 0 <= p < which.len() implies strands(log, #[trigger] which[p]) by {
            assert(is_orphan(es[which[p]], committed));
        }
        assert forall|i: int| #[trigger] strands(log, i) implies which.contains(i) by {
            assert(is_orphan(es[i], committed));
        }
    }
    assert forall|i: int| #[trigger] strands(log, i) implies reclaimed_entry(
        log,
        i,
        s,
        before,
        new,
        t,
    ) by {
        assert(is_orphan(es[i], committed));
        assert(which.contains(i));
        let p = choose|p: int| 0 <= p < which.len() && which[p] == i;
        assert(os[p] == orphan_at(es[i], base, i));
        let w = lemma_script_of(os, s.bulk, log.off, p);
        assert(does(ds[w.0], script[w.0], hold));
        assert(does(ds[w.1], script[w.1], hold));
        assert(outcome(ds[w.0]) is Ok);
        assert(outcome(ds[w.1]) is Ok);
        lemma_asked_at(ds, w.0);
        let m = 3 + asked_in(ds.take(w.0)).len() as int;
        assert(t[m] == rest[m - 3]);
        assert(marks_done(t[m], log, i));
        if ds[w.1] is Asked {
            lemma_asked_at(ds, w.1);
            lemma_asked_order(ds, w.0, w.1);
            let j = 3 + asked_in(ds.take(w.1)).len() as int;
            assert(t[j] == rest[j - 3]);
            assert(asks_back(t[j], entry_file(log, i), entry_block(log, i)));
            assert(went_well(t[j]));
        } else {
            let q = lemma_held_at(ds, w.1);
            let at: int = before.frees().len() + q;
            assert(new.frees()[at] == held_in(ds)[q]);
        }
    }
    assert forall|j: int| 0 <= j < t.len() implies is_stranded_block(log, #[trigger] t[j]) by {
        if j >= 3 {
            assert(t[j] == rest[j - 3]);
            let k = lemma_asked_from(ds, j - 3);
            assert(does(ds[k], script[k], hold));
            lemma_script_frees_orphans(os, s.bulk, log.off, k);
            match script[k] {
                Step::Free { file, range } => {
                    let p = choose|p: int|
                        0 <= p < os.len() && (#[trigger] os[p]).file == file && os[p].range
                            == range;
                    let i = which[p];
                    assert(is_orphan(es[i], committed));
                    assert(strands(log, i));
                },
                Step::FreeAll { ranges } => {
                    assert forall|q: int| 0 <= q < ranges.len() implies strands_block(
                        log,
                        0,
                        #[trigger] ranges[q],
                    ) by {
                        assert(is_local_orphan(os, ranges[q]));
                        let p = choose|p: int|
                            0 <= p < os.len() && (#[trigger] os[p]).file.0 == 0 && os[p].range
                                == ranges[q];
                        let i = which[p];
                        assert(is_orphan(es[i], committed));
                        assert(strands(log, i));
                    }
                },
                _ => {},
            }
        }
    }
    assert forall|p: int|
        before.frees().len() <= p < new.frees().len() implies (#[trigger] new.frees()[p]).0
        == s.file && strands_block(log, 0, new.frees()[p].1) by {
        let q = p - before.frees().len();
        assert(new.frees()[p] == held_in(ds)[q]);
        let k = lemma_held_from(ds, q);
        assert(does(ds[k], script[k], hold));
        lemma_script_frees_orphans(os, s.bulk, log.off, k);
        let range = ds[k]->Held_1;
        let file = script[k]->Free_file;
        let r = choose|r: int|
            0 <= r < os.len() && (#[trigger] os[r]).file == file && os[r].range == range;
        let i = which[r];
        assert(is_orphan(es[i], committed));
        assert(strands(log, i));
    }
    let last = ds.len() - 1;
    assert(does(ds[last], script[last], hold));
    assert(outcome(ds[last]) is Ok);
    lemma_asked_at(ds, last);
    assert(ds.take(last) =~= ds.drop_last());
    assert(t.last() == rest.last());
    assert(completed(log, which, s, before, new, t));
}

/// Whether a completion that counted `n` blocks found nothing staged, or did all that is to be
/// done about the log it found.
pub open spec fn all_reclaimed(
    s: Settings,
    before: TeardownView,
    new: TeardownView,
    t: Seq<Event>,
    n: int,
) -> bool {
    ||| n == 0 && nothing_staged(s, t) && new == before
    ||| exists|log: LogBytes, which: Seq<int>|
        which.len() == n && #[trigger] completed(log, which, s, before, new, t)
}

pub(crate) proof fn lemma_all_reclaimed(
    s: Settings,
    before: TeardownView,
    new: TeardownView,
    t: Seq<Event>,
    c: Completion,
    n: usize,
)
    requires
        finish_talk(before, new, s, t, c, Ok(n)),
    ensures
        all_reclaimed(s, before, new, t, n as int),
{
    crate::teardown::lemma_with_more(before, Seq::empty(), arbitrary());
    let head = t.take(c.split);
    if c.deeds.len() == 0 {
        assert(t.skip(c.split).len() == 0);
        assert(head =~= t);
    }
    if c.staged->Ok_0 is Some {
        let tx = c.staged->Ok_0->0;
        let b2 = head[2]->Read_reply->Ok_0;
        assert(c.split == 3);
        assert(t[0] == head[0] && t[1] == head[1] && t[2] == head[2]);
        let log = LogBytes {
            off: tx.range.start,
            progress: tx.header.txn_status,
            count: tx.entries@.len() as int,
            entries: b2,
        };
        assert(log_found(s, t, log));
        if log.progress != 0 {
            lemma_completed(s, before, new, t, c, n, log);
        }
    }
}

/// Completing after a crash gives back every block that the log strands, and no other block,
/// whether or not the allocator frees several at once; and says how many there were.
pub proof fn law_a_completion_gives_back_what_is_stranded<A: BStackRaiiAllocator>(
    ctx: &mut Teardown,
    a: &mut A,
    n: usize,
)
    requires
        call_ensures(finish::<A>, (ctx, a), Ok(n)),
    ensures
        all_reclaimed(
            old(a).spec_settings(),
            old(ctx)@,
            final(ctx)@,
            final(a).trace().skip(old(a).trace().len() as int),
            n as int,
        ),
{
    let s = old(a).spec_settings();
    let t = since(old(a).trace(), final(a).trace());
    let c = choose|c: Completion| #[trigger]
        finish_talk(old(ctx)@, final(ctx)@, s, t, c, Ok(n));
    lemma_all_reclaimed(s, old(ctx)@, final(ctx)@, t, c, n);
}

/// The same, for one who holds the lock of the log already.
pub proof fn law_a_locked_completion_gives_back_what_is_stranded<A: BStackRaiiAllocator>(
    ctx: &mut Teardown,
    a: &mut A,
    n: usize,
)
    requires
        call_ensures(finish_at_locked::<A>, (ctx, a), Ok(n)),
    ensures
        all_reclaimed(
            old(a).spec_settings(),
            old(ctx)@,
            final(ctx)@,
            final(a).trace().skip(old(a).trace().len() as int),
            n as int,
        ),
{
    let s = old(a).spec_settings();
    let t = since(old(a).trace(), final(a).trace());
    let c = choose|c: Completion| #[trigger]
        finish_talk(old(ctx)@, final(ctx)@, s, t, c, Ok(n));
    lemma_all_reclaimed(s, old(ctx)@, final(ctx)@, t, c, n);
}

/// Whether `ev` was refused with `e`.
pub open spec fn refused_with(ev: Event, e: Error) -> bool {
    match ev {
        Event::Read { reply: Err(x), .. } => x == e,
        Event::Write { reply: Err(x), .. } => x == e,
        Event::Alloc { reply: Err(x), .. } => x == e,
        Event::Dealloc { reply: Err(x), .. } => x == e,
        Event::DeallocBulk { reply: Err(x), .. } => x == e,
        Event::HostDealloc { reply: Some(Err(x)), .. } => x == e,
        _ => false,
    }
}

/// Whether a header was read that claims more than a log can hold.
pub open spec fn header_lies(t: Seq<Event>) -> bool {
    &&& t.len() == 2
    &&& t[1] matches Event::Read { len: 32, reply: Ok(b), .. }
    &&& le_value(b.subrange(24, 32)) as u64 > 0x10_0000 || le_value(b.subrange(16, 24)) as u64
        > le_value(b.subrange(24, 32)) as u64
}

/// Whether a completion that failed with `e` gave nothing back but what is stranded, and had a
/// reason to fail.
pub open spec fn went_no_further(s: Settings, t: Seq<Event>, e: Error) -> bool {
    &&& {
        ||| t.len() > 0 && refused_with(t.last(), e)
        ||| e == Error::CorruptWalCapacity && header_lies(t)
        ||| e == Error::BlockOffsetOverflow && t.len() <= 3
    }
    &&& t.len() > 3 ==> exists|log: LogBytes| #[trigger]
        log_found(s, t, log) && log.progress != 0 && forall|j: int|
            0 <= j < t.len() ==> is_stranded_block(log, #[trigger] t[j])
}

pub(crate) proof fn lemma_refused(
    s: Settings,
    before: TeardownView,
    new: TeardownView,
    t: Seq<Event>,
    c: Completion,
    e: Error,
)
    requires
        finish_talk(before, new, s, t, c, Err(e)),
    ensures
        went_no_further(s, t, e),
{
    let head = t.take(c.split);
    let rest = t.skip(c.split);
    if c.deeds.len() == 0 {
        assert(rest.len() == 0);
        assert(head =~= t);
    } else {
        let tx = c.staged->Ok_0->0;
        let es = tx.entries@;
        let b2 = head[2]->Read_reply->Ok_0;
        assert(t[0] == head[0] && t[1] == head[1] && t[2] == head[2]);
        let log = LogBytes {
            off: tx.range.start,
            progress: tx.header.txn_status,
            count: es.len() as int,
            entries: b2,
        };
        assert(log_found(s, t, log));
        let committed = log.progress == 2;
        let base = log.off + 32;
        let os = orphans_of(es, committed, base);
        let script = finish_script(os, s.bulk, log.off);
        let ds = c.deeds;
        let hold = holder(before, s);
        let which = numbers_of(es, committed);
        lemma_numbers(es, committed, base);
        let last = ds.len() - 1;
        assert(does(ds[last], script[last], hold));
        lemma_asked_at(ds, last);
        assert(ds.take(last) =~= ds.drop_last());
        assert(rest.last() == ds[last]->Asked_0);
        assert(t.last() == rest.last());
        assert forall|i: int| 0 <= i < es.len() implies {
            &&& is_orphan(#[trigger] es[i], committed) <==> strands(log, i)
            &&& es[i].file_id.0 == entry_file(log, i)
            &&& es[i].slice() == entry_block(log, i)
        } by {
            let b = log.entries.subrange(32 * i, 32 * i + 32);
            assert(es[i].read_from(b));
            assert(b[0] == log.entries[32 * i]);
            assert(b[1] == log.entries[32 * i + 1]);
            assert(b.subrange(8, 12) =~= log.entries.subrange(32 * i + 8, 32 * i + 12));
            assert(b.subrange(16, 24) =~= log.entries.subrange(32 * i + 16, 32 * i + 24));
            assert(b.subrange(24, 32) =~= log.entries.subrange(32 * i + 24, 32 * i + 32));
        }
        assert forall|j: int| 0 <= j < t.len() implies is_stranded_block(log, #[trigger] t[j]) by {
            if j >= 3 {
                assert(t[j] == rest[j - 3]);
                let k = lemma_asked_from(ds, j - 3);
                assert(does(ds[k], script[k], hold));
                lemma_script_frees_orphans(os, s.bulk, log.off, k);
                match script[k] {
                    Step::Free { file, range } => {
                        let p = choose|p: int|
                            0 <= p < os.len() && (#[trigger] os[p]).file == file && os[p].range
                                == range;
                        let i = which[p];
                        assert(is_orphan(es[i], committed));
                        assert(strands(log, i));
                    },
                    Step::FreeAll { ranges } => {
                        assert forall|q: int| 0 <= q < ranges.len() implies strands_block(
                            log,
                            0,
                            #[trigger] ranges[q],
                        ) by {
                            assert(is_local_orphan(os, ranges[q]));
                            let p = choose|p: int|
                                0 <= p < os.len() && (#[trigger] os[p]).file.0 == 0
                                    && os[p].range == ranges[q];
                            let i = which[p];
                            assert(is_orphan(es[i], committed));
                            assert(strands(log, i));
                        }
                    },
                    _ => {},
                }
            }
        }
    }
}

/// A completion fails only where a request is refused or the log is no log, and then at once;
/// until then too it gives nothing back that is not stranded.
pub proof fn law_a_failed_completion_goes_no_further<A: BStackRaiiAllocator>(
    ctx: &mut Teardown,
    a: &mut A,
    e: Error,
)
    requires
        call_ensures(finish::<A>, (ctx, a), Err(e)) || call_ensures(
            finish_at_locked::<A>,
            (ctx, a),
            Err(e),
        ),
    ensures
        went_no_further(
            old(a).spec_settings(),
            final(a).trace().skip(old(a).trace().len() as int),
            e,
        ),
{
    let s = old(a).spec_settings();
    let t = since(old(a).trace(), final(a).trace());
    let c = choose|c: Completion| #[trigger]
        finish_talk(old(ctx)@, final(ctx)@, s, t, c, Err(e));
    lemma_refused(s, old(ctx)@, final(ctx)@, t, c, e);
}

/// What is stranded by the outcome of a transaction is told from the entries: of a committed one
/// the pending frees, of another the pending blocks that were taken; each with its own block,
/// file and slot, in the order of the log.
pub proof fn law_the_outcome_says_what_is_stranded(
    entries: &Vec<WalEntry>,
    committed: bool,
    base: u64,
    r: Vec<Orphan>,
)
    requires
        base + 32 * entries@.len() <= u64::MAX,
        call_ensures(orphans, (entries, committed, base), r),
    ensures
        exists|which: Seq<int>|
            {
                &&& #[trigger] which.len() == r@.len()
                &&& forall|p: int|
                    0 <= p < which.len() ==> left_at(
                        entries@,
                        committed,
                        base as int,
                        #[trigger] which[p],
                        r@[p],
                    )
                &&& forall|p: int, q: int|
                    0 <= p < q < which.len() ==> #[trigger] which[p] < #[trigger] which[q]
                &&& forall|i: int|
                    0 <= i < entries@.len() && is_left(#[trigger] entries@[i], committed)
                        ==> which.contains(i)
            },
{
    let es = entries@;
    let which = numbers_of(es, committed);
    lemma_numbers(es, committed, base as int);
    assert forall|i: int| 0 <= i < es.len() implies is_left(#[trigger] es[i], committed)
        == is_orphan(es[i], committed) by {}
    assert(which.len() == r@.len());
}

/// Whether an entry is left to be reclaimed: it is pending, and is a free of a committed
/// transaction or a block taken by another.
pub open spec fn is_left(e: WalEntry, committed: bool) -> bool {
    e.status == 1 && e.op == (if committed {
        1u8
    } else {
        0u8
    })
}

/// Whether entry number `i` is left to be reclaimed, and `o` says where it is and which block it
/// names.
pub open spec fn left_at(
    es: Seq<WalEntry>,
    committed: bool,
    base: int,
    i: int,
    o: Orphan,
) -> bool {
    &&& 0 <= i < es.len()
    &&& is_left(es[i], committed)
    &&& o.slot == base + 32 * i
    &&& o.file == es[i].file_id
    &&& o.range.start == es[i].word_a
    &&& o.range.len == es[i].word_b
}

/// A recorded block goes in its own file: of the file at hand it goes as any free does, of
/// another that file is asked, and of no possible file nothing is asked.
pub proof fn law_a_recorded_block_goes_in_its_file<A: BStackRaiiAllocator>(
    ctx: &mut Teardown,
    a: &mut A,
    file_id: u64,
    slice: BStackRange,
    r: Result<(), Error>,
)
    requires
        call_ensures(free_recorded::<A>, (ctx, a, file_id, slice), r),
    ensures
        file_id == 0 ==> one_free(
            slice,
            old(a).spec_settings(),
            old(ctx)@,
            old(a).trace(),
            final(ctx)@,
            final(a).trace(),
            r,
        ),
        file_id != 0 ==> final(ctx)@ == old(ctx)@,
        file_id > u32::MAX ==> final(a).trace() == old(a).trace() && r is Ok,
        0 < file_id <= u32::MAX ==> exists|reply: Option<Result<(), Error>>|
            final(a).trace() == #[trigger] with_host_free(
                old(a).trace(),
                file_id as u32,
                slice,
                reply,
            ) && r == (match reply {
                Some(x) => x,
                None => Ok::<(), Error>(()),
            }),
{
    let asked = old(a).trace();
    lemma_extends(asked, final(a).trace());
    let t = since(asked, final(a).trace());
    let s = old(a).spec_settings();
    let d = choose|d: Deed| #[trigger]
        free_talk(file_id, slice, old(ctx)@, final(ctx)@, s, d, t, r);
    crate::teardown::lemma_with_more(old(ctx)@, Seq::empty(), (s.file, slice));
    reveal_with_fuel(asked_in, 3);
    reveal_with_fuel(held_in, 3);
    if file_id > u32::MAX {
        assert(asked + t =~= asked);
    } else if file_id > 0 {
        let reply = t[0]->HostDealloc_reply;
        assert(asked + t =~= with_host_free(asked, file_id as u32, slice, reply));
    } else if holds_back(old(ctx)@, s) {
        assert(asked + t =~= asked);
        let one = (s.file, slice);
        assert(old(ctx)@.frees() + seq![one] =~= old(ctx)@.frees().push(one));
    } else {
        assert(asked + t =~= asked.push(Event::Dealloc { range: slice, reply: r }));
    }
}

/// The conversation with one more free of a block of another file.
pub open spec fn with_host_free(
    asked: Seq<Event>,
    file: u32,
    range: BStackRange,
    reply: Option<Result<(), Error>>,
) -> Seq<Event> {
    asked.push(Event::HostDealloc { file: FileId(file), range, reply })
}

} // verus!
