//! Completing a transaction: reclaim the blocks that its outcome orphaned.
use vstd::pervasive::arbitrary;
use vstd::prelude::*;

use crate::allocator::{
    extends, lemma_extends, lemma_since, since, BStackRaiiAllocator, Event, Settings,
};
use crate::error::Error;
use crate::range::{BStackRange, FileId};
use crate::teardown::{
    collects, dealloc_range, kept, lemma_with_more, with_more, Teardown, TeardownView,
};
use crate::wal::block::{load_at, load_talk, wal_set_idle, Staged};
use crate::wal::entry::{WalEntry, WalOp, WalStatus};

verus! {

/// A block to be reclaimed: where its entry lies, the file, and the block.
#[derive(Clone, Copy, Debug, PartialEq, Eq, Structural)]
pub struct Orphan {
    pub slot: u64,
    pub file: FileId,
    pub range: BStackRange,
}

/// Whether the outcome of the transaction orphans the block of `e`: a pending `Dealloc` of a
/// committed transaction, a pending `Alloc` of an abandoned one.
pub open spec fn is_orphan(e: WalEntry, committed: bool) -> bool {
    e.spec_status() == WalStatus::Pending && e.spec_op() == Some(
        if committed {
            WalOp::Dealloc
        } else {
            WalOp::Alloc
        },
    )
}

/// The orphan of entry number `i`, where the entries start at `base`.
pub open spec fn orphan_at(e: WalEntry, base: int, i: int) -> Orphan {
    Orphan { slot: (base + 32 * i) as u64, file: e.file_id, range: e.slice() }
}

/// The orphans among the entries, in the order of the log.
pub open spec fn orphans_of(es: Seq<WalEntry>, committed: bool, base: int) -> Seq<Orphan>
    decreases es.len(),
{
    if es.len() == 0 {
        Seq::empty()
    } else {
        let init = orphans_of(es.drop_last(), committed, base);
        if is_orphan(es.last(), committed) {
            init.push(orphan_at(es.last(), base, es.len() - 1))
        } else {
            init
        }
    }
}

/// The orphans of a transaction, in the order of the log.
pub fn orphans(entries: &Vec<WalEntry>, committed: bool, base: u64) -> (r: Vec<Orphan>)
    requires
        base + 32 * entries@.len() <= u64::MAX,
    ensures
        r@ == orphans_of(entries@, committed, base as int),
{
    let mut out: Vec<Orphan> = Vec::new();
    let mut i: usize = 0;
    while i < entries.len()
        invariant
            i <= entries@.len(),
            base + 32 * entries@.len() <= u64::MAX,
            out@ == orphans_of(entries@.take(i as int), committed, base as int),
        decreases entries@.len() - i,
    {
        let e: WalEntry = entries[i];
        proof {
            assert(entries@.take(i + 1).drop_last() =~= entries@.take(i as int));
        }
        if e.status() == WalStatus::Pending {
            let slice = if committed {
                e.as_dealloc()
            } else {
                e.as_alloc()
            };
            if let Some(range) = slice {
                out.push(Orphan { slot: base + 32 * (i as u64), file: e.file_id, range });
            }
        }
        i += 1;
    }
    assert(entries@.take(i as int) =~= entries@);
    out
}

/// One step of a completion.
pub enum Step {
    /// Mark the entry at `slot` as done.
    Mark { slot: u64 },
    /// Give a block of `file` back.
    Free { file: FileId, range: BStackRange },
    /// Give several blocks of the log's own file back in one indivisible step.
    FreeAll { ranges: Seq<BStackRange> },
    /// Mark the log block as holding no transaction.
    Rest { off: u64 },
}

/// What was done about a step.
pub enum Deed {
    /// This was asked, and answered.
    Asked(Event),
    /// The free was collected.
    Held(FileId, BStackRange),
}

/// Whose frees a collection under way takes up, where it takes up those of this file.
pub open spec fn holder(v: TeardownView, s: Settings) -> Option<FileId> {
    if collects(v, s) {
        Some(s.file)
    } else {
        None
    }
}

/// Whether `d` does the step `s`. A free in the log's own file is collected where there is a
/// `holder`.
pub open spec fn does(d: Deed, s: Step, holder: Option<FileId>) -> bool {
    match s {
        Step::Mark { slot } => d matches Deed::Asked(Event::Write { off, bytes, reply: _ }) && off
            == slot && bytes == seq![2u8],
        Step::Free { file, range } => if file.0 == 0 {
            match holder {
                Some(f) => d == Deed::Held(f, range),
                None => d matches Deed::Asked(Event::Dealloc { range: r, reply: _ }) && r == range,
            }
        } else {
            d matches Deed::Asked(Event::HostDealloc { file: f, range: r, reply: _ }) && f == file
                && r == range
        },
        Step::FreeAll { ranges } => d matches Deed::Asked(
            Event::DeallocBulk { ranges: rs, reply: _ },
        ) && rs == ranges,
        Step::Rest { off: o } => d matches Deed::Asked(Event::Write { off, bytes, reply: _ })
            && off == o && bytes == seq![0u8],
    }
}

/// Whether a step succeeded. A free in a file that is not open is passed over: that block is
/// left where it is.
pub open spec fn outcome(d: Deed) -> Result<(), Error> {
    match d {
        Deed::Held(_, _) => Ok(()),
        Deed::Asked(ev) => match ev {
            Event::Write { off, bytes, reply } => reply,
            Event::Dealloc { range, reply } => reply,
            Event::DeallocBulk { ranges, reply } => reply,
            Event::HostDealloc { file, range, reply } => match reply {
                Some(x) => x,
                None => Ok(()),
            },
            _ => Ok(()),
        },
    }
}

/// What was asked, in order.
pub open spec fn asked_in(ds: Seq<Deed>) -> Seq<Event>
    decreases ds.len(),
{
    if ds.len() == 0 {
        Seq::empty()
    } else {
        match ds.last() {
            Deed::Asked(ev) => asked_in(ds.drop_last()).push(ev),
            Deed::Held(_, _) => asked_in(ds.drop_last()),
        }
    }
}

/// What was collected, in order.
pub open spec fn held_in(ds: Seq<Deed>) -> Seq<(FileId, BStackRange)>
    decreases ds.len(),
{
    if ds.len() == 0 {
        Seq::empty()
    } else {
        match ds.last() {
            Deed::Asked(_) => held_in(ds.drop_last()),
            Deed::Held(f, range) => held_in(ds.drop_last()).push((f, range)),
        }
    }
}

/// Whether these deeds are all that happened: `t` is what was asked, and `new` what is
/// collected.
pub open spec fn done_by(
    ds: Seq<Deed>,
    before: TeardownView,
    new: TeardownView,
    t: Seq<Event>,
) -> bool {
    t == asked_in(ds) && new == with_more(before, held_in(ds))
}

proof fn lemma_single_deed(d: Deed)
    ensures
        asked_in(seq![d]) == (match d {
            Deed::Asked(ev) => seq![ev],
            Deed::Held(_, _) => Seq::empty(),
        }),
        held_in(seq![d]) == (match d {
            Deed::Asked(_) => Seq::empty(),
            Deed::Held(f, range) => seq![(f, range)],
        }),
{
    reveal_with_fuel(asked_in, 2);
    reveal_with_fuel(held_in, 2);
    assert(seq![d].drop_last() =~= Seq::empty());
    match d {
        Deed::Asked(ev) => {
            assert(Seq::empty().push(ev) =~= seq![ev]);
        },
        Deed::Held(f, range) => {
            assert(Seq::empty().push((f, range)) =~= seq![(f, range)]);
        },
    }
}

proof fn lemma_one_more_deed(
    ds: Seq<Deed>,
    d: Deed,
    v: TeardownView,
    mid: TeardownView,
    new: TeardownView,
    t: Seq<Event>,
    t2: Seq<Event>,
    s: Settings,
)
    requires
        done_by(ds, v, mid, t),
        done_by(seq![d], mid, new, t2),
        d matches Deed::Held(f, _) ==> v.sink is Some,
    ensures
        done_by(ds.push(d), v, new, t + t2),
        holder(new, s) == holder(v, s),
        kept(v, new),
{
    assert(ds.push(d).drop_last() =~= ds);
    lemma_single_deed(d);
    match d {
        Deed::Asked(ev) => {
            assert(t + t2 =~= t.push(ev));
            lemma_with_more(mid, Seq::empty(), arbitrary());
            lemma_with_more(v, held_in(ds), arbitrary());
        },
        Deed::Held(f, range) => {
            assert(t + t2 =~= t);
            lemma_with_more(mid, Seq::empty(), (f, range));
            assert(Seq::empty().push((f, range)) =~= seq![(f, range)]);
            lemma_with_more(v, held_in(ds), (f, range));
            lemma_with_more(v, held_in(ds).push((f, range)), arbitrary());
        },
    }
}

proof fn lemma_no_deed(v: TeardownView)
    ensures
        done_by(Seq::empty(), v, v, Seq::empty()),
        kept(v, v),
{
    lemma_with_more(v, Seq::empty(), arbitrary());
}

/// Whether `ds` is a run of `script`: its steps in order, up to the end or to the first that
/// fails, whose failure is then the result.
pub open spec fn ran(
    script: Seq<Step>,
    holder: Option<FileId>,
    ds: Seq<Deed>,
    r: Result<(), Error>,
) -> bool {
    &&& ds.len() <= script.len()
    &&& forall|i: int| 0 <= i < ds.len() ==> does(#[trigger] ds[i], script[i], holder)
    &&& forall|i: int| 0 <= i < ds.len() - 1 ==> outcome(#[trigger] ds[i]) is Ok
    &&& match r {
        Ok(_) => ds.len() == script.len() && (ds.len() > 0 ==> outcome(ds.last()) is Ok),
        Err(e) => ds.len() > 0 && outcome(ds.last()) == Err::<(), Error>(e),
    }
}

/// The steps for an allocator that frees one block at a time: each orphan is marked, then
/// given back.
pub open spec fn single_script(os: Seq<Orphan>) -> Seq<Step> {
    Seq::new(
        2 * os.len(),
        |i: int|
            if i % 2 == 0 {
                Step::Mark { slot: os[i / 2].slot }
            } else {
                Step::Free { file: os[i / 2].file, range: os[i / 2].range }
            },
    )
}

/// The orphans of the log's own file, in order.
pub open spec fn local_ranges(os: Seq<Orphan>) -> Seq<BStackRange>
    decreases os.len(),
{
    if os.len() == 0 {
        Seq::empty()
    } else if os.last().file.0 == 0 {
        local_ranges(os.drop_last()).push(os.last().range)
    } else {
        local_ranges(os.drop_last())
    }
}

/// The orphans of other files, in order.
pub open spec fn foreign_orphans(os: Seq<Orphan>) -> Seq<Orphan>
    decreases os.len(),
{
    if os.len() == 0 {
        Seq::empty()
    } else if os.last().file.0 != 0 {
        foreign_orphans(os.drop_last()).push(os.last())
    } else {
        foreign_orphans(os.drop_last())
    }
}

pub open spec fn mark_steps(os: Seq<Orphan>) -> Seq<Step> {
    Seq::new(os.len(), |i: int| Step::Mark { slot: os[i].slot })
}

pub open spec fn free_steps(os: Seq<Orphan>) -> Seq<Step> {
    Seq::new(os.len(), |i: int| Step::Free { file: os[i].file, range: os[i].range })
}

/// The step that gives all blocks of the log's own file back at once, if there are any.
pub open spec fn bulk_step(ranges: Seq<BStackRange>) -> Seq<Step> {
    if ranges.len() == 0 {
        Seq::empty()
    } else {
        seq![Step::FreeAll { ranges }]
    }
}

/// The steps for an allocator that frees several blocks at once: every orphan is marked, then
/// those of the own file go together, then the others one by one.
pub open spec fn bulk_script(os: Seq<Orphan>) -> Seq<Step> {
    mark_steps(os) + bulk_step(local_ranges(os)) + free_steps(foreign_orphans(os))
}

/// The steps that complete a transaction with the orphans `os` in the block at `off`.
pub open spec fn finish_script(os: Seq<Orphan>, bulk: bool, off: u64) -> Seq<Step> {
    (if bulk {
        bulk_script(os)
    } else {
        single_script(os)
    }).push(Step::Rest { off: (off + 8) as u64 })
}

/// What it is to free one recorded block.
pub open spec fn free_talk(
    file_id: u64,
    slice: BStackRange,
    before: TeardownView,
    new: TeardownView,
    s: Settings,
    d: Deed,
    t: Seq<Event>,
    r: Result<(), Error>,
) -> bool {
    match FileId::spec_from_u64(file_id) {
        Some(file) => {
            &&& does(d, Step::Free { file, range: slice }, holder(before, s))
            &&& done_by(seq![d], before, new, t)
            &&& r == outcome(d)
        },
        None => t.len() == 0 && new == before && r == Ok::<(), Error>(()),
    }
}

/// Free one recorded block, in the file it lies in. A block of a file that is not open, or that
/// no file can be, is left where it is.
pub fn free_recorded<A: BStackRaiiAllocator>(
    ctx: &mut Teardown,
    a: &mut A,
    file_id: u64,
    slice: BStackRange,
) -> (r: Result<(), Error>)
    ensures
        final(a).spec_settings() == old(a).spec_settings(),
        extends(old(a).trace(), final(a).trace()),
        kept(old(ctx)@, final(ctx)@),
        exists|d: Deed| #[trigger]
            free_talk(
                file_id,
                slice,
                old(ctx)@,
                final(ctx)@,
                old(a).spec_settings(),
                d,
                since(old(a).trace(), final(a).trace()),
                r,
            ),
{
    let ghost before = a.trace();
    let ghost was = ctx@;
    let ghost s = a.spec_settings();
    proof {
        lemma_with_more(was, Seq::empty(), (s.file, slice));
    }
    if file_id == 0 {
        let r = dealloc_range(ctx, a, slice);
        proof {
            lemma_extends(before, a.trace());
            let t = since(before, a.trace());
            let d = if collects(was, s) {
                Deed::Held(s.file, slice)
            } else {
                Deed::Asked(t[0])
            };
            lemma_single_deed(d);
            assert(Seq::empty().push((s.file, slice)) =~= seq![(s.file, slice)]);
            if collects(was, s) {
                assert(t =~= Seq::empty());
            } else {
                assert(t =~= asked_in(seq![d]));
            }
            assert(FileId::spec_from_u64(0) == Some(FileId(0)));
            assert(free_talk(file_id, slice, was, ctx@, s, d, t, r));
        }
        return r;
    }
    let id = match FileId::from_u64(file_id) {
        None => {
            proof {
                assert(a.trace() =~= before + Seq::empty());
                lemma_since(before, Seq::empty());
                assert(free_talk(
                    file_id,
                    slice,
                    was,
                    ctx@,
                    s,
                    arbitrary(),
                    Seq::empty(),
                    Ok(()),
                ));
            }
            return Ok(());
        },
        Some(id) => id,
    };
    let reply = a.host_dealloc(id, slice);
    let r = match reply {
        Some(res) => res,
        None => Ok(()),
    };
    proof {
        let ev = Event::HostDealloc { file: id, range: slice, reply };
        let d = Deed::Asked(ev);
        assert(a.trace() =~= before + seq![ev]);
        lemma_since(before, seq![ev]);
        lemma_single_deed(d);
        assert(free_talk(file_id, slice, was, ctx@, s, d, seq![ev], r));
    }
    r
}

/// Mark the entry at `slot` as done.
fn mark<A: BStackRaiiAllocator>(a: &mut A, slot: u64) -> (r: Result<(), Error>)
    ensures
        final(a).spec_settings() == old(a).spec_settings(),
        final(a).trace() == old(a).trace().push(
            Event::Write { off: slot, bytes: seq![2u8], reply: r },
        ),
{
    let mut byte: Vec<u8> = Vec::new();
    byte.push(WalStatus::Complete.code());
    assert(byte@ =~= seq![2u8]);
    a.set(slot, byte)
}

/// One more request is one more deed.
proof fn lemma_one_more_request(
    ds: Seq<Deed>,
    ev: Event,
    v: TeardownView,
    mid: TeardownView,
    t: Seq<Event>,
    s: Settings,
)
    requires
        done_by(ds, v, mid, t),
    ensures
        done_by(ds.push(Deed::Asked(ev)), v, mid, t.push(ev)),
        holder(mid, s) == holder(v, s),
        kept(v, mid),
{
    let d = Deed::Asked(ev);
    lemma_single_deed(d);
    lemma_with_more(mid, Seq::empty(), arbitrary());
    lemma_one_more_deed(ds, d, v, mid, mid, t, seq![ev], s);
    assert(t + seq![ev] =~= t.push(ev));
}

/// Whether the orphans were reclaimed by these deeds, which are a run of `script`.
pub open spec fn reclaimed(
    script: Seq<Step>,
    before: TeardownView,
    new: TeardownView,
    s: Settings,
    ds: Seq<Deed>,
    t: Seq<Event>,
    r: Result<(), Error>,
) -> bool {
    ran(script, holder(before, s), ds, r) && done_by(ds, before, new, t)
}

/// Reclaim the orphans one at a time, marking each first.
fn reclaim_single<A: BStackRaiiAllocator>(ctx: &mut Teardown, a: &mut A, os: &Vec<Orphan>) -> (r:
    Result<(), Error>)
    ensures
        final(a).spec_settings() == old(a).spec_settings(),
        extends(old(a).trace(), final(a).trace()),
        kept(old(ctx)@, final(ctx)@),
        exists|ds: Seq<Deed>| #[trigger]
            reclaimed(
                single_script(os@),
                old(ctx)@,
                final(ctx)@,
                old(a).spec_settings(),
                ds,
                since(old(a).trace(), final(a).trace()),
                r,
            ),
{
    let ghost before = a.trace();
    let ghost was = ctx@;
    let ghost s = a.spec_settings();
    let ghost mut t: Seq<Event> = Seq::empty();
    let ghost mut ds: Seq<Deed> = Seq::empty();
    let ghost script = single_script(os@);
    proof {
        lemma_no_deed(was);
        assert(a.trace() =~= before + t);
        lemma_since(before, t);
    }
    let mut i: usize = 0;
    while i < os.len()
        invariant
            i <= os@.len(),
            script == single_script(os@),
            s == old(a).spec_settings(),
            was == old(ctx)@,
            before == old(a).trace(),
            a.spec_settings() == s,
            a.trace() == before + t,
            since(before, a.trace()) == t,
            extends(before, a.trace()),
            done_by(ds, was, ctx@, t),
            kept(was, ctx@),
            ds.len() == 2 * i,
            forall|k: int| 0 <= k < ds.len() ==> does(#[trigger] ds[k], script[k], holder(was, s)),
            forall|k: int| 0 <= k < ds.len() ==> outcome(#[trigger] ds[k]) is Ok,
        decreases os@.len() - i,
    {
        let o: Orphan = os[i];
        let marked = mark(a, o.slot);
        proof {
            let ev = Event::Write { off: o.slot, bytes: seq![2u8], reply: marked };
            assert((2 * i) % 2 == 0 && (2 * i) / 2 == i as int);
            assert(does(Deed::Asked(ev), script[2 * i], holder(was, s)));
            lemma_one_more_request(ds, ev, was, ctx@, t, s);
            ds = ds.push(Deed::Asked(ev));
            t = t.push(ev);
            assert(a.trace() =~= before + t);
            lemma_since(before, t);
        }
        if let Err(e) = marked {
            assert(reclaimed(script, was, ctx@, s, ds, t, Err(e)));
            return Err(e);
        }
        let ghost mid = a.trace();
        let ghost mid_ctx = ctx@;
        let freed = free_recorded(ctx, a, o.file.as_u64(), o.range);
        proof {
            lemma_extends(mid, a.trace());
            let t2 = since(mid, a.trace());
            let d = choose|d: Deed| #[trigger]
                free_talk(o.file.0 as u64, o.range, mid_ctx, ctx@, s, d, t2, freed);
            assert((2 * i + 1) % 2 == 1 && (2 * i + 1) / 2 == i as int);
            assert(holder(mid_ctx, s) == holder(was, s));
            assert(does(d, script[2 * i + 1], holder(was, s)));
            lemma_one_more_deed(ds, d, was, mid_ctx, ctx@, t, t2, s);
            ds = ds.push(d);
            t = t + t2;
            assert(a.trace() =~= before + t);
            lemma_since(before, t);
        }
        if let Err(e) = freed {
            assert(reclaimed(script, was, ctx@, s, ds, t, Err(e)));
            return Err(e);
        }
        i += 1;
    }
    assert(reclaimed(script, was, ctx@, s, ds, t, Ok(())));
    Ok(())
}

/// Mark all orphans, then reclaim those of the own file at once, then the others.
fn reclaim_bulk<A: BStackRaiiAllocator>(ctx: &mut Teardown, a: &mut A, os: &Vec<Orphan>) -> (r:
    Result<(), Error>)
    ensures
        final(a).spec_settings() == old(a).spec_settings(),
        extends(old(a).trace(), final(a).trace()),
        kept(old(ctx)@, final(ctx)@),
        exists|ds: Seq<Deed>| #[trigger]
            reclaimed(
                bulk_script(os@),
                old(ctx)@,
                final(ctx)@,
                old(a).spec_settings(),
                ds,
                since(old(a).trace(), final(a).trace()),
                r,
            ),
{
    let ghost before = a.trace();
    let ghost was = ctx@;
    let ghost s = a.spec_settings();
    let ghost mut t: Seq<Event> = Seq::empty();
    let ghost mut ds: Seq<Deed> = Seq::empty();
    let ghost script = bulk_script(os@);
    proof {
        lemma_no_deed(was);
        assert(a.trace() =~= before + t);
        lemma_since(before, t);
    }
    let mut local: Vec<BStackRange> = Vec::new();
    let mut foreign: Vec<Orphan> = Vec::new();
    let mut i: usize = 0;
    while i < os.len()
        invariant
            i <= os@.len(),
            script == bulk_script(os@),
            s == old(a).spec_settings(),
            was == old(ctx)@,
            ctx@ == was,
            before == old(a).trace(),
            a.spec_settings() == s,
            a.trace() == before + t,
            since(before, a.trace()) == t,
            extends(before, a.trace()),
            done_by(ds, was, ctx@, t),
            kept(was, ctx@),
            ds.len() == i,
            forall|k: int| 0 <= k < ds.len() ==> does(#[trigger] ds[k], script[k], holder(was, s)),
            forall|k: int| 0 <= k < ds.len() ==> outcome(#[trigger] ds[k]) is Ok,
            local@ == local_ranges(os@.take(i as int)),
            foreign@ == foreign_orphans(os@.take(i as int)),
        decreases os@.len() - i,
    {
        let o: Orphan = os[i];
        let marked = mark(a, o.slot);
        proof {
            let ev = Event::Write { off: o.slot, bytes: seq![2u8], reply: marked };
            assert(does(Deed::Asked(ev), script[i as int], holder(was, s)));
            lemma_one_more_request(ds, ev, was, ctx@, t, s);
            ds = ds.push(Deed::Asked(ev));
            t = t.push(ev);
            assert(a.trace() =~= before + t);
            lemma_since(before, t);
            assert(os@.take(i + 1).drop_last() =~= os@.take(i as int));
        }
        if let Err(e) = marked {
            assert(reclaimed(script, was, ctx@, s, ds, t, Err(e)));
            return Err(e);
        }
        if o.file.is_self() {
            local.push(o.range);
        } else {
            foreign.push(o);
        }
        i += 1;
    }
    assert(os@.take(i as int) =~= os@);
    let ghost locals = local@;
    if local.len() > 0 {
        let freed = a.dealloc_bulk(local);
        proof {
            let ev = Event::DeallocBulk { ranges: locals, reply: freed };
            assert(does(Deed::Asked(ev), script[os@.len() as int], holder(was, s)));
            lemma_one_more_request(ds, ev, was, ctx@, t, s);
            ds = ds.push(Deed::Asked(ev));
            t = t.push(ev);
            assert(a.trace() =~= before + t);
            lemma_since(before, t);
        }
        if let Err(e) = freed {
            assert(reclaimed(script, was, ctx@, s, ds, t, Err(e)));
            return Err(e);
        }
    }
    let ghost start = ds.len() as int;
    let mut k: usize = 0;
    while k < foreign.len()
        invariant
            k <= foreign@.len(),
            foreign@ == foreign_orphans(os@),
            script == bulk_script(os@),
            start == os@.len() + bulk_step(local_ranges(os@)).len(),
            s == old(a).spec_settings(),
            was == old(ctx)@,
            before == old(a).trace(),
            a.spec_settings() == s,
            a.trace() == before + t,
            since(before, a.trace()) == t,
            extends(before, a.trace()),
            done_by(ds, was, ctx@, t),
            kept(was, ctx@),
            ds.len() == start + k,
            forall|j: int| 0 <= j < ds.len() ==> does(#[trigger] ds[j], script[j], holder(was, s)),
            forall|j: int| 0 <= j < ds.len() ==> outcome(#[trigger] ds[j]) is Ok,
        decreases foreign@.len() - k,
    {
        let o: Orphan = foreign[k];
        let ghost mid = a.trace();
        let ghost mid_ctx = ctx@;
        let freed = free_recorded(ctx, a, o.file.as_u64(), o.range);
        proof {
            lemma_extends(mid, a.trace());
            let t2 = since(mid, a.trace());
            let d = choose|d: Deed| #[trigger]
                free_talk(o.file.0 as u64, o.range, mid_ctx, ctx@, s, d, t2, freed);
            assert(script[start + k] == free_steps(foreign@)[k as int]);
            assert(holder(mid_ctx, s) == holder(was, s));
            assert(does(d, script[start + k], holder(was, s)));
            lemma_one_more_deed(ds, d, was, mid_ctx, ctx@, t, t2, s);
            ds = ds.push(d);
            t = t + t2;
            assert(a.trace() =~= before + t);
            lemma_since(before, t);
        }
        if let Err(e) = freed {
            assert(reclaimed(script, was, ctx@, s, ds, t, Err(e)));
            return Err(e);
        }
        k += 1;
    }
    assert(reclaimed(script, was, ctx@, s, ds, t, Ok(())));
    Ok(())
}

/// How a completion went: what was staged, as the first `split` events say, and what was done
/// about it.
pub struct Completion {
    pub staged: Result<Option<Staged>, Error>,
    pub split: int,
    pub deeds: Seq<Deed>,
}

/// The conversation that completes a transaction in the way that `c` says: read it, and then,
/// unless there is none, run the steps for its orphans.
pub open spec fn finish_talk(
    before: TeardownView,
    new: TeardownView,
    s: Settings,
    t: Seq<Event>,
    c: Completion,
    r: Result<usize, Error>,
) -> bool {
    &&& 0 <= c.split <= t.len()
    &&& load_talk(s, t.take(c.split), c.staged)
    &&& done_by(c.deeds, before, new, t.skip(c.split))
    &&& match c.staged {
        Err(e) => c.deeds.len() == 0 && r == Err::<usize, Error>(e),
        Ok(None) => c.deeds.len() == 0 && r == Ok::<usize, Error>(0),
        Ok(Some(tx)) => {
            let txn = tx.header.spec_txn_status();
            if txn == WalStatus::Idle {
                c.deeds.len() == 0 && r == Ok::<usize, Error>(0)
            } else if tx.range.start + 32 + 32 * tx.entries@.len() > u64::MAX {
                c.deeds.len() == 0 && r == Err::<usize, Error>(Error::BlockOffsetOverflow)
            } else {
                let os = orphans_of(
                    tx.entries@,
                    txn == WalStatus::Complete,
                    tx.range.start + 32,
                );
                ran(
                    finish_script(os, s.bulk, tx.range.start),
                    holder(before, s),
                    c.deeds,
                    match r {
                        Ok(n) => Ok(()),
                        Err(e) => Err(e),
                    },
                ) && (r matches Ok(n) ==> n == os.len())
            }
        },
    }
}

/// Complete the staged transaction: reclaim what its outcome orphaned, and mark the log block
/// as free to use. Returns how many blocks were reclaimed. The caller holds the file's lock.
pub fn finish_at_locked<A: BStackRaiiAllocator>(ctx: &mut Teardown, a: &mut A) -> (r: Result<
    usize,
    Error,
>)
    ensures
        final(a).spec_settings() == old(a).spec_settings(),
        extends(old(a).trace(), final(a).trace()),
        kept(old(ctx)@, final(ctx)@),
        exists|c: Completion| #[trigger]
            finish_talk(
                old(ctx)@,
                final(ctx)@,
                old(a).spec_settings(),
                since(old(a).trace(), final(a).trace()),
                c,
                r,
            ),
{
    let ghost before = a.trace();
    let ghost was = ctx@;
    let ghost s = a.spec_settings();
    let loaded = load_at(a);
    let ghost t1 = since(before, a.trace());
    let ghost n1 = t1.len() as int;
    let ghost none = Completion { staged: loaded, split: n1, deeds: Seq::empty() };
    proof {
        lemma_extends(before, a.trace());
        lemma_no_deed(was);
        assert(t1.take(n1) =~= t1);
        assert(t1.skip(n1) =~= Seq::empty());
    }
    let tx = match loaded {
        Err(e) => {
            assert(finish_talk(was, was, s, t1, none, Err::<usize, Error>(e)));
            return Err(e);
        },
        Ok(None) => {
            assert(finish_talk(was, was, s, t1, none, Ok::<usize, Error>(0)));
            return Ok(0);
        },
        Ok(Some(tx)) => tx,
    };
    let txn = tx.header.txn_status();
    if txn == WalStatus::Idle {
        assert(finish_talk(was, was, s, t1, none, Ok::<usize, Error>(0)));
        return Ok(0);
    }
    let committed: bool = txn == WalStatus::Complete;
    let base: u64 = tx.range.start + 32;
    let n: u64 = tx.entries.len() as u64;
    if n * 32 > u64::MAX - base {
        assert(finish_talk(
            was,
            was,
            s,
            t1,
            none,
            Err::<usize, Error>(Error::BlockOffsetOverflow),
        ));
        return Err(Error::BlockOffsetOverflow);
    }
    let os = orphans(&tx.entries, committed, base);
    let completed: usize = os.len();
    let ghost mid = a.trace();
    let ghost part = if s.bulk {
        bulk_script(os@)
    } else {
        single_script(os@)
    };
    let ghost script = finish_script(os@, s.bulk, tx.range.start);
    let done = if a.settings().bulk {
        reclaim_bulk(ctx, a, &os)
    } else {
        reclaim_single(ctx, a, &os)
    };
    let ghost t2 = since(mid, a.trace());
    let ghost ds = choose|ds: Seq<Deed>| #[trigger] reclaimed(part, was, ctx@, s, ds, t2, done);
    proof {
        assert(reclaimed(part, was, ctx@, s, ds, t2, done));
        lemma_extends(mid, a.trace());
        assert(a.trace() =~= before + (t1 + t2));
        lemma_since(before, t1 + t2);
        assert((t1 + t2).take(n1) =~= t1);
        assert((t1 + t2).skip(n1) =~= t2);
    }
    if let Err(e) = done {
        proof {
            let c = Completion { staged: loaded, split: n1, deeds: ds };
            assert(ran(script, holder(was, s), ds, Err(e)));
            assert(finish_talk(was, ctx@, s, t1 + t2, c, Err::<usize, Error>(e)));
        }
        return Err(e);
    }
    let rested = wal_set_idle(a, tx.range.start);
    let r: Result<usize, Error> = match rested {
        Err(e) => Err(e),
        Ok(_) => Ok(completed),
    };
    proof {
        let ev = Event::Write {
            off: (tx.range.start + 8) as u64,
            bytes: seq![0u8],
            reply: rested,
        };
        let t3 = t2.push(ev);
        let all = ds.push(Deed::Asked(ev));
        lemma_one_more_request(ds, ev, was, ctx@, t2, s);
        assert(a.trace() =~= before + (t1 + t3));
        lemma_since(before, t1 + t3);
        assert((t1 + t3).take(n1) =~= t1);
        assert((t1 + t3).skip(n1) =~= t3);
        assert(ran(script, holder(was, s), all, rested));
        let c = Completion { staged: loaded, split: n1, deeds: all };
        assert(finish_talk(was, ctx@, s, t1 + t3, c, r));
    }
    r
}

/// Complete what a crash left behind, once after the file was opened. The exclusive borrow is
/// the lock on the log.
pub fn finish<A: BStackRaiiAllocator>(ctx: &mut Teardown, a: &mut A) -> (r: Result<usize, Error>)
    ensures
        final(a).spec_settings() == old(a).spec_settings(),
        extends(old(a).trace(), final(a).trace()),
        kept(old(ctx)@, final(ctx)@),
        exists|c: Completion| #[trigger]
            finish_talk(
                old(ctx)@,
                final(ctx)@,
                old(a).spec_settings(),
                since(old(a).trace(), final(a).trace()),
                c,
                r,
            ),
{
    finish_at_locked(ctx, a)
}

/// Whether `o` is the orphan of one of the entries.
pub open spec fn stranded(es: Seq<WalEntry>, committed: bool, base: int, o: Orphan) -> bool {
    exists|i: int|
        0 <= i < es.len() && is_orphan(#[trigger] es[i], committed) && o == orphan_at(
            es[i],
            base,
            i,
        )
}

/// The orphans of a committed transaction are its pending `Dealloc` entries and no others,
/// those of an abandoned one its pending `Alloc` entries and no others, each once.
pub proof fn law_orphans_are_what_the_outcome_strands(
    es: Seq<WalEntry>,
    committed: bool,
    base: int,
)
    requires
        0 <= base,
        base + 32 * es.len() <= u64::MAX,
    ensures
        forall|i: int|
            0 <= i < es.len() && is_orphan(#[trigger] es[i], committed) ==> orphans_of(
                es,
                committed,
                base,
            ).contains(orphan_at(es[i], base, i)),
        forall|p: int|
            0 <= p < orphans_of(es, committed, base).len() ==> stranded(
                es,
                committed,
                base,
                #[trigger] orphans_of(es, committed, base)[p],
            ),
        forall|p: int, q: int|
            0 <= p < q < orphans_of(es, committed, base).len() ==> (#[trigger] orphans_of(
                es,
                committed,
                base,
            )[p]).slot < (#[trigger] orphans_of(es, committed, base)[q]).slot,
    decreases es.len(),
{
    let os = orphans_of(es, committed, base);
    if es.len() > 0 {
        let init = es.drop_last();
        let before = orphans_of(init, committed, base);
        let last = es.len() - 1;
        law_orphans_are_what_the_outcome_strands(init, committed, base);
        assert forall|i: int|
            0 <= i < es.len() && is_orphan(#[trigger] es[i], committed) implies os.contains(
            orphan_at(es[i], base, i),
        ) by {
            if i < last {
                assert(is_orphan(init[i], committed));
                let k = choose|k: int|
                    0 <= k < before.len() && before[k] == orphan_at(init[i], base, i);
                assert(os[k] == orphan_at(es[i], base, i));
            } else {
                assert(os[os.len() - 1] == orphan_at(es[i], base, i));
            }
        }
        assert forall|p: int| 0 <= p < os.len() implies stranded(
            es,
            committed,
            base,
            #[trigger] os[p],
        ) by {
            if p < before.len() {
                assert(stranded(init, committed, base, before[p]));
                let i = choose|i: int|
                    0 <= i < init.len() && is_orphan(#[trigger] init[i], committed) && before[p]
                        == orphan_at(init[i], base, i);
                assert(is_orphan(es[i], committed));
            } else {
                assert(is_orphan(es[last], committed));
            }
        }
        assert forall|p: int, q: int| 0 <= p < q < os.len() implies (#[trigger] os[p]).slot < (
        #[trigger] os[q]).slot by {
            if q < before.len() {
                assert(before[p].slot < before[q].slot);
            } else {
                assert(stranded(init, committed, base, before[p]));
                let i = choose|i: int|
                    0 <= i < init.len() && is_orphan(#[trigger] init[i], committed) && before[p]
                        == orphan_at(init[i], base, i);
                assert(base + 32 * i < base + 32 * last);
            }
        }
    }
}

/// The entries once those at `slots` are marked as done.
pub open spec fn after_marks(es: Seq<WalEntry>, base: int, slots: Set<u64>) -> Seq<WalEntry> {
    Seq::new(
        es.len(),
        |i: int|
            if slots.contains((base + 32 * i) as u64) {
                WalEntry { status: 2, ..es[i] }
            } else {
                es[i]
            },
    )
}

/// The entries that the first `k` steps of `script` mark as done.
pub open spec fn marks_of(script: Seq<Step>, k: int) -> Set<u64> {
    Set::new(|slot: u64| exists|j: int| 0 <= j < k && #[trigger] script[j] == Step::Mark { slot })
}

/// Whether a step gives back the block of `o`.
pub open spec fn frees(step: Step, o: Orphan) -> bool {
    match step {
        Step::Free { file, range } => file == o.file && range == o.range,
        Step::FreeAll { ranges } => o.file.0 == 0 && ranges.contains(o.range),
        _ => false,
    }
}

/// Whether no two orphans name one block.
pub open spec fn distinct_blocks(os: Seq<Orphan>) -> bool {
    forall|p: int, q: int|
        0 <= p < q < os.len() ==> !((#[trigger] os[p]).file == (#[trigger] os[q]).file && os[p].range
            == os[q].range)
}

/// A crash never leads to a block being given back twice: after a crash at any point of a
/// completion, no block that was given back before the crash is among those that the next
/// completion reclaims.
pub proof fn law_no_block_is_freed_twice(
    es: Seq<WalEntry>,
    committed: bool,
    bulk: bool,
    off: u64,
    k: int,
    j: int,
    p2: int,
)
    requires
        off + 32 + 32 * es.len() <= u64::MAX,
        distinct_blocks(orphans_of(es, committed, off + 32)),
        0 <= j < k <= finish_script(orphans_of(es, committed, off + 32), bulk, off).len(),
        0 <= p2 < orphans_of(
            after_marks(
                es,
                off + 32,
                marks_of(finish_script(orphans_of(es, committed, off + 32), bulk, off), k),
            ),
            committed,
            off + 32,
        ).len(),
    ensures
        !frees(
            finish_script(orphans_of(es, committed, off + 32), bulk, off)[j],
            orphans_of(
                after_marks(
                    es,
                    off + 32,
                    marks_of(finish_script(orphans_of(es, committed, off + 32), bulk, off), k),
                ),
                committed,
                off + 32,
            )[p2],
        ),
{
    let base = off + 32;
    let os = orphans_of(es, committed, base);
    let script = finish_script(os, bulk, off);
    let marks = marks_of(script, k);
    let es2 = after_marks(es, base, marks);
    let os2 = orphans_of(es2, committed, base);
    law_orphans_are_what_the_outcome_strands(es, committed, base);
    law_orphans_are_what_the_outcome_strands(es2, committed, base);
    let o2 = os2[p2];
    assert(stranded(es2, committed, base, o2));
    let i = choose|i: int|
        0 <= i < es2.len() && is_orphan(#[trigger] es2[i], committed) && o2 == orphan_at(
            es2[i],
            base,
            i,
        );
    let slot = (base + 32 * i) as u64;
    assert(!marks.contains(slot));
    assert(es2[i] == es[i]);
    assert(is_orphan(es[i], committed));
    let p = choose|p: int| 0 <= p < os.len() && os[p] == orphan_at(es[i], base, i);
    assert(os[p] == o2);
    if frees(script[j], o2) {
        if bulk {
            if j >= os.len() {
                assert(script[p] == Step::Mark { slot });
                assert(marks.contains(slot));
            }
        } else {
            if j < 2 * os.len() && j % 2 == 1 {
                let q = j / 2;
                assert(q == p) by {
                    if q < p {
                        assert(!(os[q].file == os[p].file && os[q].range == os[p].range));
                    } else if p < q {
                        assert(!(os[p].file == os[q].file && os[p].range == os[q].range));
                    }
                }
                assert(script[j - 1] == Step::Mark { slot });
                assert(marks.contains(slot));
            }
        }
    }
}

/// A completion that ran to its end leaves nothing to reclaim.
pub proof fn law_complete_run_leaves_no_orphan(
    es: Seq<WalEntry>,
    committed: bool,
    bulk: bool,
    off: u64,
)
    requires
        off + 32 + 32 * es.len() <= u64::MAX,
    ensures
        ({
            let script = finish_script(orphans_of(es, committed, off + 32), bulk, off);
            orphans_of(
                after_marks(es, off + 32, marks_of(script, script.len() as int)),
                committed,
                off + 32,
            ).len() == 0
        }),
{
    let base = off + 32;
    let os = orphans_of(es, committed, base);
    let script = finish_script(os, bulk, off);
    let marks = marks_of(script, script.len() as int);
    let es2 = after_marks(es, base, marks);
    let os2 = orphans_of(es2, committed, base);
    law_orphans_are_what_the_outcome_strands(es, committed, base);
    law_orphans_are_what_the_outcome_strands(es2, committed, base);
    if os2.len() > 0 {
        assert(stranded(es2, committed, base, os2[0]));
        let i = choose|i: int|
            0 <= i < es2.len() && is_orphan(#[trigger] es2[i], committed) && os2[0] == orphan_at(
                es2[i],
                base,
                i,
            );
        let slot = (base + 32 * i) as u64;
        assert(es2[i] == es[i]);
        assert(is_orphan(es[i], committed));
        let p = choose|p: int| 0 <= p < os.len() && os[p] == orphan_at(es[i], base, i);
        if bulk {
            assert(script[p] == Step::Mark { slot });
        } else {
            assert((2 * p) % 2 == 0 && (2 * p) / 2 == p);
            assert(script[2 * p] == Step::Mark { slot });
        }
        assert(marks.contains(slot));
        assert(false);
    }
}

} // verus!
