//! Releasing a whole tree of blocks.
//!
//! While a release that the log covers is under way, the blocks to be freed are collected and
//! committed together. The nesting of owners is bounded, so that a cycle ends in an error.
use vstd::pervasive::arbitrary;
use vstd::prelude::*;

use crate::allocator::{
    extends, lemma_extends, lemma_since, since, BStackRaiiAllocator, Event, Settings,
};
use crate::error::Error;
use crate::range::{BStackRange, FileId};
use crate::traits::{BStackBlock, BStackDrop};
use crate::wal::block::{persist_at, persist_talk, WAL_COUNTABLE};
use crate::wal::entry::{WalEntry, WalLog, WalOp, WalStatus};
use crate::wal::recover::{finish_at_locked, finish_talk, orphans_of, Completion};

verus! {

/// How deep owners may be nested.
pub const MAX_TEARDOWN_DEPTH: u32 = 500;

/// Frees collected for one transaction, and the file that collects them.
pub struct TeardownSink {
    pub stack: u64,
    pub frees: Vec<(FileId, BStackRange)>,
}

/// The state of a release: the collection, if one is under way, and the nesting.
pub struct Teardown {
    sink: Option<TeardownSink>,
    depth: u32,
}

/// [`Teardown`] as mathematical values.
pub struct TeardownView {
    pub sink: Option<(u64, Seq<(FileId, BStackRange)>)>,
    pub depth: nat,
}

impl TeardownView {
    /// The file that collects.
    pub open spec fn collector(self) -> u64 {
        match self.sink {
            Some(k) => k.0,
            None => 0,
        }
    }

    /// What was collected so far.
    pub open spec fn frees(self) -> Seq<(FileId, BStackRange)> {
        match self.sink {
            Some(k) => k.1,
            None => Seq::empty(),
        }
    }
}

impl View for Teardown {
    type V = TeardownView;

    closed spec fn view(&self) -> TeardownView {
        TeardownView {
            sink: match self.sink {
                Some(s) => Some((s.stack, s.frees@)),
                None => None,
            },
            depth: self.depth as nat,
        }
    }
}

/// Whether `new` differs from `before` at most by more frees collected.
pub open spec fn kept(before: TeardownView, new: TeardownView) -> bool {
    &&& new.depth == before.depth
    &&& match (before.sink, new.sink) {
        (None, None) => true,
        (Some(b), Some(n)) => b.0 == n.0 && b.1.len() <= n.1.len() && n.1.take(b.1.len() as int)
            == b.1,
        _ => false,
    }
}

/// Whether frees through an allocator with the settings `s` are collected: those of the file
/// that collects, and those that name another file.
pub open spec fn collects(v: TeardownView, s: Settings) -> bool {
    v.sink matches Some(k) && (!s.file.spec_is_self() || s.stack == k.0)
}

/// The state after `range` was collected through an allocator with the settings `s`.
pub open spec fn collected(v: TeardownView, s: Settings, range: BStackRange) -> TeardownView {
    TeardownView {
        sink: Some((v.collector(), v.frees().push((s.file, range)))),
        depth: v.depth,
    }
}

/// The state after these frees were collected too, if a collection is under way.
pub open spec fn with_more(v: TeardownView, more: Seq<(FileId, BStackRange)>) -> TeardownView {
    match v.sink {
        Some(k) => TeardownView { sink: Some((k.0, k.1 + more)), depth: v.depth },
        None => v,
    }
}

/// Collecting nothing changes nothing, and one more after others is one more at the end.
pub proof fn lemma_with_more(
    v: TeardownView,
    more: Seq<(FileId, BStackRange)>,
    one: (FileId, BStackRange),
)
    ensures
        with_more(v, Seq::empty()) == v,
        kept(v, with_more(v, more)),
        v.sink is Some ==> with_more(v, more.push(one)) == (TeardownView {
            sink: Some((v.collector(), with_more(v, more).frees().push(one))),
            depth: v.depth,
        }),
{
    if let Some(k) = v.sink {
        assert(k.1 + Seq::empty() =~= k.1);
        assert(k.1 + more.push(one) =~= (k.1 + more).push(one));
        assert((k.1 + more).take(k.1.len() as int) =~= k.1);
    }
}

/// What it is to free one block: it is collected, or given back at once.
pub open spec fn dealloc_talk(
    before: TeardownView,
    new: TeardownView,
    s: Settings,
    range: BStackRange,
    t: Seq<Event>,
    r: Result<(), Error>,
) -> bool {
    if collects(before, s) {
        t.len() == 0 && new == collected(before, s, range) && r == Ok::<(), Error>(())
    } else {
        &&& t.len() == 1
        &&& t[0] matches Event::Dealloc { range: x, reply }
        &&& x == range
        &&& r == reply
        &&& new == before
    }
}

impl Teardown {
    pub fn new() -> (r: Teardown)
        ensures
            r@ == (TeardownView { sink: None, depth: 0 }),
    {
        Teardown { sink: None, depth: 0 }
    }

    /// Whether frees are being collected.
    pub fn is_active(&self) -> (r: bool)
        ensures
            r == (self@.sink is Some),
    {
        self.sink.is_some()
    }

    /// Start to collect frees for the file `stack`.
    pub fn install(&mut self, stack: u64)
        ensures
            final(self)@ == (TeardownView {
                sink: Some((stack, Seq::<(FileId, BStackRange)>::empty())),
                depth: old(self)@.depth,
            }),
    {
        self.sink = Some(TeardownSink { stack, frees: Vec::new() });
    }

    /// Stop collecting, and hand out what was collected.
    pub fn take(&mut self) -> (r: Vec<(FileId, BStackRange)>)
        ensures
            final(self)@ == (TeardownView { sink: None, depth: old(self)@.depth }),
            r@ == (match old(self)@.sink {
                Some(k) => k.1,
                None => Seq::empty(),
            }),
    {
        let mut held: Option<TeardownSink> = None;
        core::mem::swap(&mut self.sink, &mut held);
        match held {
            Some(s) => s.frees,
            None => Vec::new(),
        }
    }

    /// Collect `range`, if it belongs to the collection, and say whether it does.
    pub fn collect<A: BStackRaiiAllocator>(&mut self, a: &A, range: BStackRange) -> (r: bool)
        ensures
            r == collects(old(self)@, a.spec_settings()),
            final(self)@ == (if r {
                collected(old(self)@, a.spec_settings(), range)
            } else {
                old(self)@
            }),
    {
        let s = a.settings();
        let mut held: Option<TeardownSink> = None;
        core::mem::swap(&mut self.sink, &mut held);
        match held {
            None => false,
            Some(mut sink) => {
                let mine: bool = !s.file.is_self() || s.stack == sink.stack;
                if mine {
                    sink.frees.push((s.file, range));
                }
                self.sink = Some(sink);
                mine
            },
        }
    }

    /// Go one owner deeper. Refused at the bound.
    pub fn enter(&mut self) -> (r: Result<(), Error>)
        ensures
            match r {
                Ok(_) => old(self)@.depth < MAX_TEARDOWN_DEPTH && final(self)@ == (TeardownView {
                    sink: old(self)@.sink,
                    depth: old(self)@.depth + 1,
                }),
                Err(e) => e == Error::TeardownTooDeep && old(self)@.depth >= MAX_TEARDOWN_DEPTH
                    && final(self)@ == old(self)@,
            },
    {
        if self.depth >= MAX_TEARDOWN_DEPTH {
            return Err(Error::TeardownTooDeep);
        }
        self.depth = self.depth + 1;
        Ok(())
    }

    /// Come back from one owner.
    pub fn leave(&mut self)
        ensures
            final(self)@ == (TeardownView {
                sink: old(self)@.sink,
                depth: if old(self)@.depth > 0 {
                    (old(self)@.depth - 1) as nat
                } else {
                    0
                },
            }),
    {
        if self.depth > 0 {
            self.depth = self.depth - 1;
        }
    }
}

/// Going deeper and coming back changes nothing.
pub proof fn law_leave_undoes_enter(v: TeardownView)
    requires
        v.depth < MAX_TEARDOWN_DEPTH,
    ensures
        (TeardownView {
            sink: v.sink,
            depth: if v.depth + 1 > 0 {
                (v.depth + 1 - 1) as nat
            } else {
                0
            },
        }) == v,
{
}

/// A free of another file's own allocator is never collected for this file: only frees of the
/// collecting file, and frees that name their file, are.
pub proof fn law_only_own_or_named_frees_are_collected(v: TeardownView, s: Settings)
    requires
        collects(v, s),
    ensures
        s.file == FileId(0) ==> s.stack == v.collector(),
{
}

/// Free the block at `range`: collected while a collection is under way to which it belongs,
/// given back at once otherwise.
pub fn dealloc_range<A: BStackRaiiAllocator>(
    ctx: &mut Teardown,
    a: &mut A,
    range: BStackRange,
) -> (r: Result<(), Error>)
    ensures
        final(a).spec_settings() == old(a).spec_settings(),
        extends(old(a).trace(), final(a).trace()),
        kept(old(ctx)@, final(ctx)@),
        dealloc_talk(
            old(ctx)@,
            final(ctx)@,
            old(a).spec_settings(),
            range,
            since(old(a).trace(), final(a).trace()),
            r,
        ),
{
    let ghost before = a.trace();
    let ghost was = ctx@;
    proof {
        lemma_since(before, Seq::empty());
        assert(before + Seq::empty() =~= before);
    }
    if ctx.collect(a, range) {
        assert(ctx@.frees().take(was.frees().len() as int) =~= was.frees());
        return Ok(());
    }
    assert(was.sink matches Some(k) ==> k.1.take(k.1.len() as int) =~= k.1);
    let r = a.dealloc(range);
    proof {
        let t = seq![Event::Dealloc { range, reply: r }];
        assert(a.trace() =~= before + t);
        lemma_since(before, t);
    }
    r
}

/// Whether the block at `range` has been freed last: it is the last that was collected, or
/// giving it back was the last request.
pub open spec fn freed_last(ctx: TeardownView, s: Settings, t: Seq<Event>, range: BStackRange) -> bool {
    if collects(ctx, s) {
        ctx.frees().len() > 0 && ctx.frees().last() == (s.file, range)
    } else {
        t.len() > 0 && (t.last() matches Event::Dealloc { range: x, reply } && x == range && reply
            is Ok)
    }
}

/// The same state, one owner deeper.
pub open spec fn deeper(v: TeardownView) -> TeardownView {
    TeardownView { sink: v.sink, depth: v.depth + 1 }
}

/// How the release of a block went: what it owns was released in the first `k` events, which
/// left the state `ctx` and ended in `outcome`.
pub struct Parting {
    pub k: int,
    pub ctx: TeardownView,
    pub outcome: Result<(), Error>,
}

/// The conversation that releases the block at `range` in the way that `p` says: what it owns
/// goes first, and the block itself only where all of that went.
pub open spec fn parted<T: BStackBlock>(
    range: BStackRange,
    before: TeardownView,
    new: TeardownView,
    s: Settings,
    t: Seq<Event>,
    r: Result<(), Error>,
    p: Parting,
) -> bool {
    &&& 0 <= p.k <= t.len()
    &&& T::children_talk(range, before, p.ctx, s, t.take(p.k), p.outcome)
    &&& match p.outcome {
        Err(e) => p.k == t.len() && new == p.ctx && r == Err::<(), Error>(e),
        Ok(_) => dealloc_talk(p.ctx, new, s, range, t.skip(p.k), r),
    }
}

/// The conversation that releases the block at `range` and all that it owns.
pub open spec fn drop_talk<T: BStackBlock>(
    range: BStackRange,
    before: TeardownView,
    new: TeardownView,
    s: Settings,
    t: Seq<Event>,
    r: Result<(), Error>,
) -> bool {
    exists|p: Parting| #[trigger] parted::<T>(range, before, new, s, t, r, p)
}

/// The conversation that releases an owned block one owner deeper, as far as the bound allows.
pub open spec fn owned_talk<T: BStackBlock>(
    range: BStackRange,
    before: TeardownView,
    new: TeardownView,
    s: Settings,
    t: Seq<Event>,
    r: Result<(), Error>,
) -> bool {
    if before.depth >= MAX_TEARDOWN_DEPTH {
        t.len() == 0 && new == before && r == Err::<(), Error>(Error::TeardownTooDeep)
    } else {
        drop_talk::<T>(range, deeper(before), deeper(new), s, t, r)
    }
}

/// A block that was released was freed last, after all that it owns.
pub proof fn law_block_is_freed_last<T: BStackBlock>(
    range: BStackRange,
    before: TeardownView,
    new: TeardownView,
    s: Settings,
    t: Seq<Event>,
    r: Result<(), Error>,
)
    requires
        drop_talk::<T>(range, before, new, s, t, r),
        r is Ok,
    ensures
        freed_last(new, s, t, range),
{
    let p = choose|p: Parting| #[trigger] parted::<T>(range, before, new, s, t, r, p);
    if !collects(p.ctx, s) {
        assert(t.skip(p.k)[0] == t.last());
    }
}

/// Release the block at `range` and all that it owns: what it owns first, the block itself
/// last. Where something that it owns cannot be released, the block stays.
pub fn drop_block<T: BStackBlock, A: BStackRaiiAllocator>(
    range: BStackRange,
    ctx: &mut Teardown,
    a: &mut A,
) -> (r: Result<(), Error>)
    ensures
        final(a).spec_settings() == old(a).spec_settings(),
        extends(old(a).trace(), final(a).trace()),
        kept(old(ctx)@, final(ctx)@),
        drop_talk::<T>(
            range,
            old(ctx)@,
            final(ctx)@,
            old(a).spec_settings(),
            since(old(a).trace(), final(a).trace()),
            r,
        ),
{
    let ghost before = a.trace();
    let ghost was = ctx@;
    let ghost s = a.spec_settings();
    let children = T::bstack_drop_children(range, ctx, a);
    let ghost mid = a.trace();
    let ghost mid_ctx = ctx@;
    let ghost t1 = since(before, mid);
    let ghost p = Parting { k: t1.len() as int, ctx: mid_ctx, outcome: children };
    proof {
        lemma_extends(before, mid);
        assert(t1.take(p.k) =~= t1);
    }
    if let Err(e) = children {
        assert(parted::<T>(range, was, mid_ctx, s, t1, Err(e), p));
        return Err(e);
    }
    let r = dealloc_range(ctx, a, range);
    proof {
        lemma_extends(mid, a.trace());
        let t2 = since(mid, a.trace());
        let t = t1 + t2;
        assert(a.trace() =~= before + t);
        lemma_since(before, t);
        assert(t.take(p.k) =~= t1);
        assert(t.skip(p.k) =~= t2);
        assert(parted::<T>(range, was, ctx@, s, t, r, p));
        if was.sink is Some {
            let b = was.frees();
            assert(ctx@.frees().take(b.len() as int) =~= mid_ctx.frees().take(b.len() as int));
        }
    }
    r
}

/// Whether `es` are pending `Dealloc` entries for exactly these blocks, in order.
pub open spec fn free_entries(es: Seq<WalEntry>, frees: Seq<(FileId, BStackRange)>) -> bool {
    &&& es.len() == frees.len()
    &&& forall|i: int|
        0 <= i < es.len() ==> (#[trigger] es[i]).made(
            WalStatus::Pending,
            WalOp::Dealloc,
            frees[i].0,
            frees[i].1,
        )
}

/// The conversation that commits frees: stage them as a committed transaction, and complete
/// it.
pub open spec fn commit_talk(
    before: TeardownView,
    new: TeardownView,
    s: Settings,
    frees: Seq<(FileId, BStackRange)>,
    es: Seq<WalEntry>,
    k: int,
    staged: Result<BStackRange, Error>,
    t: Seq<Event>,
    r: Result<(), Error>,
) -> bool {
    &&& free_entries(es, frees)
    &&& 0 <= k <= t.len()
    &&& match staged {
        Err(e) => {
            &&& k == t.len()
            &&& r == Err::<(), Error>(e)
            &&& persist_talk(before, new, s, es, WalStatus::Complete, t, staged)
        },
        Ok(_) => exists|mid: TeardownView, c: Completion, n: Result<usize, Error>| #[trigger]
            completed_talk(before, mid, new, s, es, k, staged, t, c, n) && r == match n {
                Ok(_) => Ok::<(), Error>(()),
                Err(e) => Err(e),
            },
    }
}

/// The conversation that stages a committed transaction, in its first `k` events, and completes
/// it.
pub open spec fn completed_talk(
    before: TeardownView,
    mid: TeardownView,
    new: TeardownView,
    s: Settings,
    es: Seq<WalEntry>,
    k: int,
    staged: Result<BStackRange, Error>,
    t: Seq<Event>,
    c: Completion,
    n: Result<usize, Error>,
) -> bool {
    &&& persist_talk(before, mid, s, es, WalStatus::Complete, t.take(k), staged)
    &&& finish_talk(mid, new, s, t.skip(k), c, n)
}

/// Free the blocks as one transaction: stage a `Dealloc` entry for each in the log, committed,
/// and complete the transaction as recovery would. Nothing is asked where there is nothing to
/// free.
pub fn commit_frees<A: BStackRaiiAllocator>(
    ctx: &mut Teardown,
    a: &mut A,
    frees: &Vec<(FileId, BStackRange)>,
) -> (r: Result<(), Error>)
    requires
        frees@.len() <= WAL_COUNTABLE,
    ensures
        final(a).spec_settings() == old(a).spec_settings(),
        extends(old(a).trace(), final(a).trace()),
        kept(old(ctx)@, final(ctx)@),
        if frees@.len() == 0 {
            &&& final(a).trace() == old(a).trace()
            &&& final(ctx)@ == old(ctx)@
            &&& r == Ok::<(), Error>(())
        } else {
            exists|es: Seq<WalEntry>, k: int, staged: Result<BStackRange, Error>| #[trigger]
                commit_talk(
                    old(ctx)@,
                    final(ctx)@,
                    old(a).spec_settings(),
                    frees@,
                    es,
                    k,
                    staged,
                    since(old(a).trace(), final(a).trace()),
                    r,
                )
        },
{
    let ghost before = a.trace();
    let ghost s = a.spec_settings();
    proof {
        lemma_since(before, Seq::empty());
        assert(before + Seq::empty() =~= before);
        lemma_with_more(ctx@, Seq::empty(), arbitrary());
    }
    if frees.len() == 0 {
        return Ok(());
    }
    let mut log = WalLog::with_capacity(frees.len());
    let mut i: usize = 0;
    while i < frees.len()
        invariant
            i <= frees@.len(),
            log@.len() == i,
            forall|j: int|
                0 <= j < i ==> (#[trigger] log@[j]).made(
                    WalStatus::Pending,
                    WalOp::Dealloc,
                    frees@[j].0,
                    frees@[j].1,
                ),
        decreases frees@.len() - i,
    {
        log.append(WalEntry::dealloc_in(WalStatus::Pending, frees[i].0, frees[i].1));
        i += 1;
    }
    let ghost es = log@;
    let ghost was = ctx@;
    let staged = persist_at(ctx, a, &log, WalStatus::Complete);
    let ghost mid = a.trace();
    let ghost mid_ctx = ctx@;
    let ghost t1 = since(before, mid);
    proof {
        lemma_extends(before, mid);
        assert(t1.take(t1.len() as int) =~= t1);
    }
    if let Err(e) = staged {
        assert(commit_talk(was, ctx@, s, frees@, es, t1.len() as int, staged, t1, Err(e)));
        return Err(e);
    }
    let done = finish_at_locked(ctx, a);
    let r: Result<(), Error> = match done {
        Ok(_) => Ok(()),
        Err(e) => Err(e),
    };
    proof {
        let t2 = since(mid, a.trace());
        let k = t1.len() as int;
        lemma_extends(mid, a.trace());
        assert(a.trace() =~= before + (t1 + t2));
        lemma_since(before, t1 + t2);
        assert((t1 + t2).take(k) =~= t1);
        assert((t1 + t2).skip(k) =~= t2);
        let c = choose|c: Completion| #[trigger] finish_talk(mid_ctx, ctx@, s, t2, c, done);
        assert(completed_talk(was, mid_ctx, ctx@, s, es, k, staged, t1 + t2, c, done));
        assert(commit_talk(was, ctx@, s, frees@, es, k, staged, t1 + t2, r));
        lemma_kept_twice(was, mid_ctx, ctx@);
    }
    r
}

proof fn lemma_kept_twice(a: TeardownView, b: TeardownView, c: TeardownView)
    requires
        kept(a, b),
        kept(b, c),
    ensures
        kept(a, c),
{
    if let Some(k) = a.sink {
        assert(c.frees().take(k.1.len() as int) =~= b.frees().take(k.1.len() as int));
    }
}

/// The conversation after a collecting release that ended in `result`: where it failed nothing
/// more is asked and nothing is freed, so that no half of a tree goes; otherwise all that was
/// collected is freed as one transaction.
pub open spec fn concluded(
    before: TeardownView,
    new: TeardownView,
    s: Settings,
    result: Result<(), Error>,
    frees: Seq<(FileId, BStackRange)>,
    t: Seq<Event>,
    r: Result<(), Error>,
) -> bool {
    match result {
        Err(e) => r == Err::<(), Error>(e) && t.len() == 0 && new == before,
        Ok(_) => if frees.len() == 0 {
            r == Ok::<(), Error>(()) && t.len() == 0 && new == before
        } else if frees.len() > WAL_COUNTABLE {
            r == Err::<(), Error>(Error::NoSpace) && t.len() == 0 && new == before
        } else {
            exists|
                es: Seq<WalEntry>,
                k: int,
                staged: Result<BStackRange, Error>,
            | #[trigger]
                commit_talk(before, new, s, frees, es, k, staged, t, r)
        },
    }
}

/// Conclude a collecting release that ended in `result`: see [`concluded`].
pub fn conclude_teardown<A: BStackRaiiAllocator>(
    ctx: &mut Teardown,
    a: &mut A,
    result: Result<(), Error>,
    frees: &Vec<(FileId, BStackRange)>,
) -> (r: Result<(), Error>)
    ensures
        final(a).spec_settings() == old(a).spec_settings(),
        extends(old(a).trace(), final(a).trace()),
        kept(old(ctx)@, final(ctx)@),
        concluded(
            old(ctx)@,
            final(ctx)@,
            old(a).spec_settings(),
            result,
            frees@,
            since(old(a).trace(), final(a).trace()),
            r,
        ),
{
    proof {
        lemma_since(a.trace(), Seq::empty());
        assert(a.trace() + Seq::empty() =~= a.trace());
    }
    proof {
        lemma_with_more(ctx@, Seq::empty(), arbitrary());
    }
    if let Err(e) = result {
        return Err(e);
    }
    if frees.len() as u64 > WAL_COUNTABLE {
        return Err(Error::NoSpace);
    }
    commit_frees(ctx, a, frees)
}

/// The state in which frees of the stack numbered `stack` are collected.
pub open spec fn collecting(v: TeardownView, stack: u64) -> TeardownView {
    TeardownView { sink: Some((stack, Seq::empty())), depth: v.depth }
}

/// How a release as one transaction went: it collected its frees in the first `k` events, which
/// left the state `ctx` and ended in `outcome`.
pub struct Collected {
    pub k: int,
    pub ctx: TeardownView,
    pub outcome: Result<(), Error>,
}

/// The conversation that releases something as one transaction in the way that `c` says, where
/// `release` is the conversation that releases it.
pub open spec fn collected_talk(
    release: spec_fn(TeardownView, TeardownView, Seq<Event>, Result<(), Error>) -> bool,
    before: TeardownView,
    new: TeardownView,
    s: Settings,
    t: Seq<Event>,
    r: Result<(), Error>,
    c: Collected,
) -> bool {
    &&& 0 <= c.k <= t.len()
    &&& release(collecting(before, s.stack), c.ctx, t.take(c.k), c.outcome)
    &&& concluded(before, new, s, c.outcome, c.ctx.frees(), t.skip(c.k), r)
}

/// The conversation that releases something as one transaction: its frees are collected, and
/// then committed together. Inside another such release, or with an allocator that keeps no log,
/// it is a plain release.
pub open spec fn teardown_talk(
    release: spec_fn(TeardownView, TeardownView, Seq<Event>, Result<(), Error>) -> bool,
    before: TeardownView,
    new: TeardownView,
    s: Settings,
    t: Seq<Event>,
    r: Result<(), Error>,
) -> bool {
    if before.sink is Some || s.anchor is None {
        release(before, new, t, r)
    } else {
        exists|c: Collected| #[trigger] collected_talk(release, before, new, s, t, r, c)
    }
}

/// The conversation that releases `handle`.
pub open spec fn release_of<D: BStackDrop>(handle: D, s: Settings) -> spec_fn(
    TeardownView,
    TeardownView,
    Seq<Event>,
    Result<(), Error>,
) -> bool {
    |before: TeardownView, new: TeardownView, t: Seq<Event>, r: Result<(), Error>|
        handle.release_talk(before, new, s, t, r)
}

/// Release `handle` and all that it owns as one transaction, so that a crash in the middle is
/// completed on the next open. Inside another such release, or with an allocator that keeps no
/// log, it is a plain release.
pub fn wal_teardown<T: BStackDrop, A: BStackRaiiAllocator>(
    handle: T,
    ctx: &mut Teardown,
    a: &mut A,
) -> (r: Result<(), Error>)
    ensures
        final(a).spec_settings() == old(a).spec_settings(),
        extends(old(a).trace(), final(a).trace()),
        kept(old(ctx)@, final(ctx)@),
        teardown_talk(
            release_of(handle, old(a).spec_settings()),
            old(ctx)@,
            final(ctx)@,
            old(a).spec_settings(),
            since(old(a).trace(), final(a).trace()),
            r,
        ),
{
    if ctx.is_active() {
        return handle.bstack_drop(ctx, a);
    }
    if a.settings().anchor.is_none() {
        return handle.bstack_drop(ctx, a);
    }
    let ghost before = a.trace();
    let ghost s = a.spec_settings();
    let ghost was = ctx@;
    ctx.install(a.settings().stack);
    assert(ctx@ == collecting(was, s.stack));
    let result = handle.bstack_drop(ctx, a);
    let ghost mid = a.trace();
    let ghost t1 = since(before, mid);
    let ghost c = Collected { k: t1.len() as int, ctx: ctx@, outcome: result };
    let frees = ctx.take();
    let r = conclude_teardown(ctx, a, result, &frees);
    proof {
        lemma_extends(before, mid);
        lemma_extends(mid, a.trace());
        let t2 = since(mid, a.trace());
        let t = t1 + t2;
        assert(a.trace() =~= before + t);
        lemma_since(before, t);
        assert(t.take(c.k) =~= t1);
        assert(t.skip(c.k) =~= t2);
        assert(collected_talk(release_of(handle, s), was, ctx@, s, t, r, c));
    }
    r
}

/// A release as one transaction that fails before its commit frees nothing: no half of a tree
/// goes.
pub proof fn law_failed_collection_frees_nothing(
    before: TeardownView,
    new: TeardownView,
    s: Settings,
    e: Error,
    frees: Seq<(FileId, BStackRange)>,
    t: Seq<Event>,
    r: Result<(), Error>,
)
    requires
        concluded(before, new, s, Err(e), frees, t, r),
    ensures
        t.len() == 0,
        r == Err::<(), Error>(e),
{
}

/// A release that a crash cuts off after its commit is completed by recovery, not leaked: what
/// the staged log leaves to be reclaimed are exactly the collected frees, each in its file and
/// in the same order.
pub proof fn law_recovery_completes_a_committed_release(
    es: Seq<WalEntry>,
    frees: Seq<(FileId, BStackRange)>,
    base: int,
)
    requires
        free_entries(es, frees),
    ensures
        orphans_of(es, true, base).len() == frees.len(),
        forall|i: int|
            0 <= i < frees.len() ==> {
                &&& (#[trigger] orphans_of(es, true, base)[i]).file == frees[i].0
                &&& orphans_of(es, true, base)[i].range == frees[i].1
            },
    decreases es.len(),
{
    if es.len() > 0 {
        let n = es.len() - 1;
        let init = es.drop_last();
        let early = frees.drop_last();
        assert forall|i: int| 0 <= i < init.len() implies (#[trigger] init[i]).made(
            WalStatus::Pending,
            WalOp::Dealloc,
            early[i].0,
            early[i].1,
        ) by {
            assert(es[i].made(WalStatus::Pending, WalOp::Dealloc, frees[i].0, frees[i].1));
        }
        law_recovery_completes_a_committed_release(init, early, base);
        assert(es[n].made(WalStatus::Pending, WalOp::Dealloc, frees[n].0, frees[n].1));
        let os = orphans_of(es, true, base);
        let before = orphans_of(init, true, base);
        assert forall|i: int| 0 <= i < frees.len() implies {
            &&& (#[trigger] os[i]).file == frees[i].0
            &&& os[i].range == frees[i].1
        } by {
            if i < n {
                assert(os[i] == before[i]);
                assert(early[i] == frees[i]);
            }
        }
    }
}

} // verus!
