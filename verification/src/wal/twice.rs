//! Completing twice: where a file gives back what was written to it, a second completion finds
//! nothing to do.
use vstd::pervasive::arbitrary;
use vstd::prelude::*;

use crate::allocator::{Event, Settings};
use crate::bytes::le_value;
use crate::error::Error;
use crate::teardown::{lemma_with_more, TeardownView};
use crate::wal::block::{load_talk, Staged, WalHeader};
use crate::wal::entry::WalStatus;
use crate::wal::recover::{
    asked_in, bulk_step, does, finish_script, finish_talk, foreign_orphans, free_steps,
    holder, law_orphans_are_what_the_outcome_strands, local_ranges, mark_steps, orphans_of,
    single_script, stranded, Completion, Deed, Orphan, Step,
};

verus! {

/// The content of a file after these requests, where it was `c` before: what was written last.
pub open spec fn after(c: spec_fn(int) -> u8, t: Seq<Event>) -> spec_fn(int) -> u8
    decreases t.len(),
{
    if t.len() == 0 {
        c
    } else {
        let was = after(c, t.drop_last());
        match t.last() {
            Event::Write { off, bytes, reply: Ok(_) } => |i: int|
                if off <= i < off + bytes.len() {
                    bytes[i - off]
                } else {
                    was(i)
                },
            _ => was,
        }
    }
}

/// Whether every read in `t` gives what is in the file, which holds `c` before.
pub open spec fn honest(c: spec_fn(int) -> u8, t: Seq<Event>) -> bool {
    forall|i: int|
        0 <= i < t.len() ==> (#[trigger] t[i] matches Event::Read { off, len, reply: Ok(b) } ==> {
            &&& b.len() == len
            &&& forall|k: int| 0 <= k < len ==> #[trigger] b[k] == after(c, t.take(i))(off + k)
        })
}

/// Whether every read in `t` succeeds.
pub open spec fn reads_succeed(t: Seq<Event>) -> bool {
    forall|i: int|
        0 <= i < t.len() ==> (#[trigger] t[i] matches Event::Read { off: _, len: _, reply }
            ==> reply is Ok)
}

/// Whether no write of `ev` touches the bytes from `lo` to `hi`.
pub open spec fn spares(ev: Event, lo: int, hi: int) -> bool {
    ev matches Event::Write { off, bytes, reply: _ } ==> off + bytes.len() <= lo || hi <= off
}

proof fn lemma_spared(c: spec_fn(int) -> u8, t: Seq<Event>, lo: int, hi: int, i: int)
    requires
        forall|k: int| 0 <= k < t.len() ==> spares(#[trigger] t[k], lo, hi),
        lo <= i < hi,
    ensures
        after(c, t)(i) == c(i),
    decreases t.len(),
{
    if t.len() > 0 {
        let init = t.drop_last();
        assert forall|k: int| 0 <= k < init.len() implies spares(#[trigger] init[k], lo, hi) by {
            assert(init[k] == t[k]);
        }
        lemma_spared(c, init, lo, hi, i);
        assert(spares(t[t.len() - 1], lo, hi));
    }
}

proof fn lemma_asked_spare(ds: Seq<Deed>, lo: int, hi: int)
    requires
        forall|k: int|
            0 <= k < ds.len() ==> (#[trigger] ds[k] matches Deed::Asked(ev) ==> spares(ev, lo, hi)),
    ensures
        forall|k: int| 0 <= k < asked_in(ds).len() ==> spares(#[trigger] asked_in(ds)[k], lo, hi),
    decreases ds.len(),
{
    if ds.len() > 0 {
        let init = ds.drop_last();
        assert forall|k: int| 0 <= k < init.len() implies (#[trigger] init[k] matches Deed::Asked(
            ev,
        ) ==> spares(ev, lo, hi)) by {
            assert(init[k] == ds[k]);
        }
        lemma_asked_spare(init, lo, hi);
        assert(ds[ds.len() - 1] matches Deed::Asked(ev) ==> spares(ev, lo, hi));
        assert forall|k: int| 0 <= k < asked_in(ds).len() implies spares(
            #[trigger] asked_in(ds)[k],
            lo,
            hi,
        ) by {
            if k < asked_in(init).len() {
                assert(asked_in(ds)[k] == asked_in(init)[k]);
            }
        }
    }
}

/// Whether a step, if it writes, writes one byte between `lo` and `hi`.
pub open spec fn marks_within(step: Step, lo: int, hi: int) -> bool {
    match step {
        Step::Mark { slot } => lo <= slot < hi,
        Step::Rest { off: _ } => false,
        _ => true,
    }
}

proof fn lemma_marks_within(os: Seq<Orphan>, bulk: bool, off: u64, lo: int, hi: int, j: int)
    requires
        forall|p: int| 0 <= p < os.len() ==> lo <= (#[trigger] os[p]).slot < hi,
        0 <= j < finish_script(os, bulk, off).len() - 1,
    ensures
        marks_within(finish_script(os, bulk, off)[j], lo, hi),
{
    let script = finish_script(os, bulk, off);
    if bulk {
        if j < os.len() {
            assert(script[j] == mark_steps(os)[j]);
        } else if j < os.len() + bulk_step(local_ranges(os)).len() {
            assert(script[j] == bulk_step(local_ranges(os))[j - os.len()]);
        } else {
            let k = j - os.len() - bulk_step(local_ranges(os)).len();
            assert(script[j] == free_steps(foreign_orphans(os))[k]);
        }
    } else {
        assert(script[j] == single_script(os)[j]);
        if j % 2 == 0 {
            assert(lo <= os[j / 2].slot < hi);
        }
    }
}

/// Whether the bytes `b` and `c` of a header agree, but for the status.
pub open spec fn same_but_status(b: Seq<u8>, c: Seq<u8>) -> bool {
    &&& b.len() == 32
    &&& c.len() == 32
    &&& forall|k: int| 0 <= k < 32 && k != 8 ==> #[trigger] b[k] == c[k]
}

proof fn lemma_same_header(b: Seq<u8>, c: Seq<u8>)
    requires
        same_but_status(b, c),
    ensures
        WalHeader::parse(b).magic == WalHeader::parse(c).magic,
        WalHeader::parse(b).count == WalHeader::parse(c).count,
        WalHeader::parse(b).capacity == WalHeader::parse(c).capacity,
{
    assert(b.subrange(0, 8) =~= c.subrange(0, 8));
    assert(b.subrange(16, 24) =~= c.subrange(16, 24));
    assert(b.subrange(24, 32) =~= c.subrange(24, 32));
}

proof fn lemma_loading_only_reads(
    s: Settings,
    t: Seq<Event>,
    r: Result<Option<Staged>, Error>,
)
    requires
        load_talk(s, t, r),
    ensures
        t.len() <= 3,
        forall|k: int| 0 <= k < t.len() ==> (#[trigger] t[k]) is Read,
{
}

/// What a completion that succeeded reads, in a file that held `c`: the anchor, and the header
/// where there is a log block.
proof fn lemma_first_reads(
    s: Settings,
    slot: u64,
    c: spec_fn(int) -> u8,
    t: Seq<Event>,
    split: int,
    staged: Result<Option<Staged>, Error>,
)
    requires
        s.anchor == Some(slot),
        0 <= split <= t.len(),
        load_talk(s, t.take(split), staged),
        honest(c, t),
    ensures
        split >= 1,
        t[0] matches Event::Read { off, len, reply } && off == slot && len == 8 && (reply matches Ok(
            b,
        ) ==> b.len() == 8 && forall|k: int| 0 <= k < 8 ==> #[trigger] b[k] == c(slot + k)),
        split >= 2 ==> (t[1] matches Event::Read { off, len, reply } && len == 32 && (
        t[0]->Read_reply matches Ok(b0) && off == le_value(b0) as u64) && (reply matches Ok(b)
            ==> b.len() == 32 && forall|k: int| 0 <= k < 32 ==> #[trigger] b[k] == c(off + k))),
{
    let l = t.take(split);
    assert(l[0] == t[0]);
    assert(t.take(0) =~= Seq::empty());
    if split >= 2 {
        assert(l[1] == t[1]);
        assert(t.take(1).drop_last() =~= Seq::empty());
        assert(t.take(1).last() == t[0]);
        assert(after(c, t.take(1)) == after(c, Seq::empty()));
    }
}

/// The bytes that a completion writes: none in the anchor, and in the header at most the
/// status, which is then that of no transaction.
proof fn lemma_completion_leaves_the_header(
    before: TeardownView,
    new: TeardownView,
    s: Settings,
    slot: u64,
    c: spec_fn(int) -> u8,
    t: Seq<Event>,
    done: Completion,
    n: usize,
    tx: Staged,
)
    requires
        s.anchor == Some(slot),
        finish_talk(before, new, s, t, done, Ok(n)),
        done.staged == Ok::<Option<Staged>, Error>(Some(tx)),
        clear_of(slot, tx),
    ensures
        forall|i: int| slot <= i < slot + 8 ==> #[trigger] after(c, t)(i) == c(i),
        forall|i: int|
            tx.range.start <= i < tx.range.start + 32 && i != tx.range.start + 8
                ==> #[trigger] after(c, t)(i) == c(i),
        tx.header.spec_txn_status() != WalStatus::Idle ==> after(c, t)(tx.range.start + 8) == 0,
        tx.header.spec_txn_status() == WalStatus::Idle ==> after(c, t)(tx.range.start + 8) == c(
            tx.range.start + 8,
        ),
{
    let off = tx.range.start as int;
    let load = t.take(done.split);
    let rest = t.skip(done.split);
    lemma_loading_only_reads(s, load, done.staged);
    assert(t =~= load + rest);
    let txn = tx.header.spec_txn_status();
    if txn == WalStatus::Idle {
        assert(rest =~= Seq::empty());
        assert forall|k: int, lo: int, hi: int| 0 <= k < t.len() implies #[trigger] spares(
            t[k],
            lo,
            hi,
        ) by {
            assert(load[k] == t[k]);
        }
        assert forall|i: int| #[trigger] after(c, t)(i) == c(i) by {
            lemma_spared(c, t, i, i + 1, i);
        }
    } else {
        let base = off + 32;
        let es = tx.entries@;
        let os = orphans_of(es, txn == WalStatus::Complete, base);
        let script = finish_script(os, s.bulk, tx.range.start);
        let ds = done.deeds;
        let m = ds.len() - 1;
        let hi = base + 32 * es.len();
        law_orphans_are_what_the_outcome_strands(es, txn == WalStatus::Complete, base);
        assert forall|p: int| 0 <= p < os.len() implies base <= (#[trigger] os[p]).slot < hi by {
            assert(stranded(es, txn == WalStatus::Complete, base, os[p]));
        }
        let init = ds.drop_last();
        assert(does(ds[m], script[m], holder(before, s)));
        assert(script[m] == Step::Rest { off: (off + 8) as u64 });
        let ev = ds[m]->Asked_0;
        assert(rest == asked_in(init).push(ev));
        let early = load + asked_in(init);
        assert(t.drop_last() =~= early);
        assert(t.last() == ev);
        assert forall|k: int| 0 <= k < init.len() implies (#[trigger] init[k] matches Deed::Asked(
            e,
        ) ==> spares(e, off, base) && spares(e, slot as int, slot + 8)) by {
            assert(init[k] == ds[k]);
            assert(does(ds[k], script[k], holder(before, s)));
            lemma_marks_within(os, s.bulk, tx.range.start, base, hi, k);
        }
        lemma_asked_spare(init, off, base);
        lemma_asked_spare(init, slot as int, slot + 8);
        assert forall|k: int| 0 <= k < early.len() implies spares(#[trigger] early[k], off, base)
            && spares(early[k], slot as int, slot + 8) by {
            if k < load.len() {
                assert(load[k] == early[k]);
            } else {
                assert(asked_in(init)[k - load.len()] == early[k]);
            }
        }
        assert forall|i: int| slot <= i < slot + 8 implies #[trigger] after(c, t)(i) == c(i) by {
            lemma_spared(c, early, slot as int, slot + 8, i);
        }
        assert forall|i: int| off <= i < off + 32 && i != off + 8 implies #[trigger] after(c, t)(i)
            == c(i) by {
            lemma_spared(c, early, off, base, i);
        }
    }
}

/// Whether the anchor lies outside the log block that was staged: an allocator keeps its anchor
/// to itself.
pub open spec fn clear_of(slot: u64, tx: Staged) -> bool {
    slot + 8 <= tx.range.start || tx.range.start + 32 + 32 * tx.entries@.len() <= slot
}

/// After a completion that succeeded, with nothing staged since, a second one frees nothing and
/// returns `0`, where its reads succeed and the file gives back what was written: no block is
/// freed twice.
pub proof fn law_second_completion_frees_nothing(
    s: Settings,
    c: spec_fn(int) -> u8,
    before1: TeardownView,
    new1: TeardownView,
    t1: Seq<Event>,
    done1: Completion,
    n: usize,
    before2: TeardownView,
    new2: TeardownView,
    t2: Seq<Event>,
    done2: Completion,
    r2: Result<usize, Error>,
)
    requires
        finish_talk(before1, new1, s, t1, done1, Ok(n)),
        finish_talk(before2, new2, s, t2, done2, r2),
        honest(c, t1),
        honest(after(c, t1), t2),
        reads_succeed(t2),
        s.anchor matches Some(slot) ==> (done1.staged matches Ok(Some(tx)) ==> clear_of(slot, tx)),
    ensures
        r2 == Ok::<usize, Error>(0),
        new2 == before2,
        forall|i: int| 0 <= i < t2.len() ==> (#[trigger] t2[i]) is Read,
{
    let l1 = t1.take(done1.split);
    let l2 = t2.take(done2.split);
    let d = after(c, t1);
    if let Some(slot) = s.anchor {
        lemma_first_reads(s, slot, c, t1, done1.split, done1.staged);
        lemma_first_reads(s, slot, d, t2, done2.split, done2.staged);
        assert(l1[0] == t1[0]);
        assert(l2[0] == t2[0]);
        let b1 = t1[0]->Read_reply->Ok_0;
        let b2 = t2[0]->Read_reply->Ok_0;
        let off = le_value(b1) as u64;
        match done1.staged {
            Ok(Some(tx)) => {
                assert(l1[1] == t1[1]);
                lemma_completion_leaves_the_header(
                    before1,
                    new1,
                    s,
                    slot,
                    c,
                    t1,
                    done1,
                    n,
                    tx,
                );
                assert(tx.range.start == off);
            },
            _ => {
                lemma_loading_only_reads(s, l1, done1.staged);
                assert(asked_in(done1.deeds) =~= Seq::empty());
                assert(t1 =~= l1);
                assert forall|i: int| #[trigger] d(i) == c(i) by {
                    lemma_spared(c, t1, i, i + 1, i);
                }
                if done1.split >= 2 {
                    assert(l1[1] == t1[1]);
                }
            },
        }
        assert forall|k: int| 0 <= k < 8 implies b1[k] == b2[k] by {
            assert(d(slot + k) == c(slot + k));
        }
        assert(b1 =~= b2);
        if off != 0 {
            assert(l1[1] == t1[1]);
            assert(l2[1] == t2[1]);
            let h1 = t1[1]->Read_reply->Ok_0;
            let h2 = t2[1]->Read_reply->Ok_0;
            assert forall|k: int| 0 <= k < 32 && k != 8 implies #[trigger] h1[k] == h2[k] by {
                assert(d(off + k) == c(off + k));
            }
            lemma_same_header(h1, h2);
            assert(h2[8] == d(off + 8));
            assert(h1[8] == c(off + 8));
            if l2.len() >= 3 {
                assert(l2[2] == t2[2]);
            }
        }
    }
    lemma_loading_only_reads(s, l2, done2.staged);
    lemma_with_more(before2, Seq::empty(), arbitrary());
    assert(done2.deeds =~= Seq::empty());
    assert(t2.skip(done2.split) =~= Seq::empty());
    assert(t2 =~= l2);
    assert forall|i: int| 0 <= i < t2.len() implies (#[trigger] t2[i]) is Read by {
        assert(l2[i] == t2[i]);
    }
}

} // verus!
