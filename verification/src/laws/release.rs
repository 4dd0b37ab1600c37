//! Releasing: what goes with a block, and when a counted block goes.
use vstd::prelude::*;

use crate::allocator::{lemma_extends, since, BStackRaiiAllocator, CounterOp, Event, Settings};
use crate::error::Error;
use crate::handle::{
    counted_talk, release_strong_talk, release_weak_talk, released_both, strong_release_ctrl,
    took_one, was_last, OwnedRef, StrongRef, StrongWeakRef, WeakRef,
};
use crate::range::{BStackRange, FileId};
use crate::teardown::{dealloc_range, drop_block, parted, Parting, Teardown, TeardownView};
use crate::traits::{BStackBlock, BStackDrop, BStackWeakable};

use super::{goes_on, held, holds_back, one_free, with_step};

verus! {

/// How what a block owns was released: what had been asked by then, the state, and the outcome.
pub struct Emptied {
    pub asked: Seq<Event>,
    pub ctx: TeardownView,
    pub outcome: Result<(), Error>,
}

/// Whether the block at `range` went as a whole: first all that it owns, and then, only where
/// that succeeded, the block itself and nothing else.
pub open spec fn went_whole<T: BStackBlock>(
    range: BStackRange,
    s: Settings,
    before: TeardownView,
    asked: Seq<Event>,
    new: TeardownView,
    asked_now: Seq<Event>,
    r: Result<(), Error>,
    e: Emptied,
) -> bool {
    &&& goes_on(asked, e.asked)
    &&& T::children_talk(range, before, e.ctx, s, e.asked.skip(asked.len() as int), e.outcome)
    &&& match e.outcome {
        Err(x) => asked_now == e.asked && new == e.ctx && r == Err::<(), Error>(x),
        Ok(_) => one_free(range, s, e.ctx, e.asked, new, asked_now, r),
    }
}

/// One owner deeper.
pub open spec fn nested(v: TeardownView) -> TeardownView {
    TeardownView { sink: v.sink, depth: v.depth + 1 }
}

/// A free gives back the block that it names, and no other.
pub proof fn law_a_free_is_of_one_block<A: BStackRaiiAllocator>(
    ctx: &mut Teardown,
    a: &mut A,
    range: BStackRange,
    r: Result<(), Error>,
)
    requires
        call_ensures(dealloc_range::<A>, (ctx, a, range), r),
    ensures
        one_free(
            range,
            old(a).spec_settings(),
            old(ctx)@,
            old(a).trace(),
            final(ctx)@,
            final(a).trace(),
            r,
        ),
{
    lemma_extends(old(a).trace(), final(a).trace());
    let t = since(old(a).trace(), final(a).trace());
    if t.len() == 1 {
        assert(old(a).trace() + t =~= old(a).trace().push(t[0]));
    } else {
        assert(old(a).trace() + t =~= old(a).trace());
    }
}

pub(crate) proof fn lemma_went<T: BStackBlock>(
    range: BStackRange,
    before: TeardownView,
    new: TeardownView,
    s: Settings,
    asked: Seq<Event>,
    t: Seq<Event>,
    r: Result<(), Error>,
    p: Parting,
)
    requires
        parted::<T>(range, before, new, s, t, r, p),
    ensures
        went_whole::<T>(
            range,
            s,
            before,
            asked,
            new,
            asked + t,
            r,
            Emptied { asked: asked + t.take(p.k), ctx: p.ctx, outcome: p.outcome },
        ),
{
    let mid = asked + t.take(p.k);
    assert(mid.take(asked.len() as int) =~= asked);
    assert(mid.skip(asked.len() as int) =~= t.take(p.k));
    assert(t =~= t.take(p.k) + t.skip(p.k));
    if p.outcome is Ok {
        if t.skip(p.k).len() == 1 {
            assert(asked + t =~= mid.push(t.skip(p.k)[0]));
        } else {
            assert(asked + t =~= mid);
        }
    } else {
        assert(asked + t =~= mid);
    }
}

/// A block is released as a whole: all that it owns first, and the block last.
pub proof fn law_a_block_goes_whole<T: BStackBlock, A: BStackRaiiAllocator>(
    range: BStackRange,
    ctx: &mut Teardown,
    a: &mut A,
    r: Result<(), Error>,
)
    requires
        call_ensures(drop_block::<T, A>, (range, ctx, a), r),
    ensures
        exists|e: Emptied| #[trigger]
            went_whole::<T>(
                range,
                old(a).spec_settings(),
                old(ctx)@,
                old(a).trace(),
                final(ctx)@,
                final(a).trace(),
                r,
                e,
            ),
{
    let s = old(a).spec_settings();
    let t = since(old(a).trace(), final(a).trace());
    lemma_extends(old(a).trace(), final(a).trace());
    let p = choose|p: Parting| #[trigger]
        parted::<T>(range, old(ctx)@, final(ctx)@, s, t, r, p);
    lemma_went::<T>(range, old(ctx)@, final(ctx)@, s, old(a).trace(), t, r, p);
}

/// The sole owner takes its block with it, as a whole.
pub proof fn law_an_owner_takes_its_block<T: BStackBlock, A: BStackRaiiAllocator>(
    owner: OwnedRef<T>,
    ctx: &mut Teardown,
    a: &mut A,
    r: Result<(), Error>,
)
    requires
        call_ensures(OwnedRef::<T>::bstack_drop::<A>, (owner, ctx, a), r),
        old(ctx)@.depth < 500,
    ensures
        exists|e: Emptied| #[trigger]
            went_whole::<T>(
                owner@,
                old(a).spec_settings(),
                nested(old(ctx)@),
                old(a).trace(),
                nested(final(ctx)@),
                final(a).trace(),
                r,
                e,
            ),
{
    let s = old(a).spec_settings();
    let t = since(old(a).trace(), final(a).trace());
    lemma_extends(old(a).trace(), final(a).trace());
    let p = choose|p: Parting| #[trigger]
        parted::<T>(owner@, nested(old(ctx)@), nested(final(ctx)@), s, t, r, p);
    lemma_went::<T>(
        owner@,
        nested(old(ctx)@),
        nested(final(ctx)@),
        s,
        old(a).trace(),
        t,
        r,
        p,
    );
}

/// Whether one owner of a counted block gave up its share of the count at `off`: the count goes
/// down by one, and nothing else happens, unless it was the last: that one takes the block at
/// `range` with it, as a whole.
pub open spec fn gave_up_share<T: BStackBlock>(
    range: BStackRange,
    off: int,
    s: Settings,
    before: TeardownView,
    asked: Seq<Event>,
    new: TeardownView,
    asked_now: Seq<Event>,
    r: Result<(), Error>,
    reply: Result<u64, Error>,
) -> bool {
    let counted = with_step(asked, off, CounterOp::Sub(1), reply);
    match reply {
        Err(x) => asked_now == counted && new == before && r == Err::<(), Error>(x),
        Ok(n) => if n == 1 {
            exists|e: Emptied| #[trigger]
                went_whole::<T>(
                    range,
                    s,
                    nested(before),
                    counted,
                    nested(new),
                    asked_now,
                    r,
                    e,
                )
        } else {
            asked_now == counted && new == before && (r is Ok <==> n > 1)
        },
    }
}

pub(crate) proof fn lemma_share<T: BStackBlock>(
    range: BStackRange,
    s: Settings,
    before: TeardownView,
    asked: Seq<Event>,
    new: TeardownView,
    t: Seq<Event>,
    r: Result<(), Error>,
)
    requires
        counted_talk::<T>(range, before, new, s, t, r),
        before.depth < 500,
        range.start + 24 <= u64::MAX,
    ensures
        exists|reply: Result<u64, Error>| #[trigger]
            gave_up_share::<T>(range, range.start + 16, s, before, asked, new, asked + t, r, reply),
{
    let ev = t[0];
    let reply = ev->Process_reply;
    let off = range.start + 16;
    let counted = with_step(asked, off, CounterOp::Sub(1), reply);
    let seen = choose|reply: Result<u64, Error>| #[trigger] took_one(t[0], off as u64, reply);
    assert(took_one(t[0], off as u64, seen));
    assert(t =~= seq![ev] + t.skip(1));
    assert(asked + t =~= counted + t.skip(1));
    if reply == Ok::<u64, Error>(1) {
        assert(was_last(range.start, 16, t));
        let p = choose|p: Parting| #[trigger]
            parted::<T>(range, nested(before), nested(new), s, t.skip(1), r, p);
        lemma_went::<T>(range, nested(before), nested(new), s, counted, t.skip(1), r, p);
    } else {
        assert(counted + t.skip(1) =~= counted);
    }
    assert(gave_up_share::<T>(range, off, s, before, asked, new, asked + t, r, reply));
}

/// One owner of a counted block takes one off the count that lies in the block, and nothing
/// else, unless it is the last: that one takes the block with it, with all that it owns.
pub proof fn law_the_last_owner_takes_the_block<T: BStackBlock, A: BStackRaiiAllocator>(
    owner: StrongRef<T>,
    ctx: &mut Teardown,
    a: &mut A,
    r: Result<(), Error>,
)
    requires
        call_ensures(StrongRef::<T>::bstack_drop::<A>, (owner, ctx, a), r),
        old(ctx)@.depth < 500,
        owner@.start + 24 <= u64::MAX,
    ensures
        exists|reply: Result<u64, Error>| #[trigger]
            gave_up_share::<T>(
                owner@,
                owner@.start + 16,
                old(a).spec_settings(),
                old(ctx)@,
                old(a).trace(),
                final(ctx)@,
                final(a).trace(),
                r,
                reply,
            ),
{
    lemma_extends(old(a).trace(), final(a).trace());
    lemma_share::<T>(
        owner@,
        old(a).spec_settings(),
        old(ctx)@,
        old(a).trace(),
        final(ctx)@,
        since(old(a).trace(), final(a).trace()),
        r,
    );
}

/// Whether one weak count of the control block at `ctrl` was given up: the count goes down by
/// one, and with the last one the control block goes, and nothing else.
pub open spec fn gave_up_weak(
    ctrl: BStackRange,
    s: Settings,
    before: TeardownView,
    asked: Seq<Event>,
    new: TeardownView,
    asked_now: Seq<Event>,
    r: Result<(), Error>,
    reply: Result<u64, Error>,
) -> bool {
    let counted = with_step(asked, ctrl.start + 24, CounterOp::Sub(1), reply);
    match reply {
        Err(x) => asked_now == counted && new == before && r == Err::<(), Error>(x),
        Ok(n) => if n == 1 {
            one_free(ctrl, s, before, counted, new, asked_now, r)
        } else {
            asked_now == counted && new == before && (r is Ok <==> n > 1)
        },
    }
}

pub(crate) proof fn lemma_weak(
    ctrl: BStackRange,
    s: Settings,
    before: TeardownView,
    asked: Seq<Event>,
    new: TeardownView,
    t: Seq<Event>,
    r: Result<(), Error>,
)
    requires
        release_weak_talk(ctrl, before, new, s, t, r),
        ctrl.start + 32 <= u64::MAX,
    ensures
        exists|reply: Result<u64, Error>| #[trigger]
            gave_up_weak(ctrl, s, before, asked, new, asked + t, r, reply),
{
    let ev = t[0];
    let reply = ev->Process_reply;
    let off = ctrl.start + 24;
    let counted = with_step(asked, off, CounterOp::Sub(1), reply);
    let seen = choose|reply: Result<u64, Error>| #[trigger] took_one(t[0], off as u64, reply);
    assert(took_one(t[0], off as u64, seen));
    assert(t =~= seq![ev] + t.skip(1));
    assert(asked + t =~= counted + t.skip(1));
    if reply == Ok::<u64, Error>(1) {
        assert(was_last(ctrl.start, 24, t));
        if t.skip(1).len() == 1 {
            assert(asked + t =~= counted.push(t.skip(1)[0]));
        } else {
            assert(asked + t =~= counted);
        }
    } else {
        assert(counted + t.skip(1) =~= counted);
    }
    assert(gave_up_weak(ctrl, s, before, asked, new, asked + t, r, reply));
}

/// A weak reference takes one off the weak count of its control block; with the last one the
/// control block goes, and nothing else.
pub proof fn law_the_last_reference_takes_the_control_block<
    T: BStackWeakable,
    A: BStackRaiiAllocator,
>(weak: WeakRef<T>, ctx: &mut Teardown, a: &mut A, r: Result<(), Error>)
    requires
        call_ensures(WeakRef::<T>::bstack_drop::<A>, (weak, ctx, a), r),
        weak@.start + 32 <= u64::MAX,
    ensures
        exists|reply: Result<u64, Error>| #[trigger]
            gave_up_weak(
                weak@,
                old(a).spec_settings(),
                old(ctx)@,
                old(a).trace(),
                final(ctx)@,
                final(a).trace(),
                r,
                reply,
            ),
{
    lemma_extends(old(a).trace(), final(a).trace());
    lemma_weak(
        weak@,
        old(a).spec_settings(),
        old(ctx)@,
        old(a).trace(),
        final(ctx)@,
        since(old(a).trace(), final(a).trace()),
        r,
    );
}

/// How the data block of the last strong reference went: what had been asked by then, the state,
/// and the outcome.
pub struct DataGone {
    pub asked: Seq<Event>,
    pub ctx: TeardownView,
    pub outcome: Result<(), Error>,
}

/// Whether the last strong reference went: the data block as a whole, and, only where that
/// succeeded, the weak count that the strong references held together.
pub open spec fn last_strong_went<T: BStackBlock>(
    data: BStackRange,
    ctrl: BStackRange,
    s: Settings,
    before: TeardownView,
    asked: Seq<Event>,
    new: TeardownView,
    asked_now: Seq<Event>,
    r: Result<(), Error>,
    g: DataGone,
) -> bool {
    &&& exists|e: Emptied| #[trigger]
        went_whole::<T>(data, s, nested(before), asked, g.ctx, g.asked, g.outcome, e)
    &&& match g.outcome {
        Err(x) => asked_now == g.asked && nested(new) == g.ctx && r == Err::<(), Error>(x),
        Ok(_) => exists|reply: Result<u64, Error>| #[trigger]
            gave_up_weak(ctrl, s, g.ctx, g.asked, nested(new), asked_now, r, reply),
    }
}

/// Whether a strong reference to a block with a control block was given up: the strong count
/// goes down by one, and nothing else happens, unless it was the last.
pub open spec fn gave_up_strong<T: BStackBlock>(
    data: BStackRange,
    ctrl: BStackRange,
    s: Settings,
    before: TeardownView,
    asked: Seq<Event>,
    new: TeardownView,
    asked_now: Seq<Event>,
    r: Result<(), Error>,
    reply: Result<u64, Error>,
) -> bool {
    let counted = with_step(asked, ctrl.start + 16, CounterOp::Sub(1), reply);
    match reply {
        Err(x) => asked_now == counted && new == before && r == Err::<(), Error>(x),
        Ok(n) => if n == 1 {
            exists|g: DataGone| #[trigger]
                last_strong_went::<T>(data, ctrl, s, before, counted, new, asked_now, r, g)
        } else {
            asked_now == counted && new == before && (r is Ok <==> n > 1)
        },
    }
}

pub(crate) proof fn lemma_strong<T: BStackBlock>(
    data: BStackRange,
    ctrl: BStackRange,
    s: Settings,
    before: TeardownView,
    asked: Seq<Event>,
    new: TeardownView,
    t: Seq<Event>,
    r: Result<(), Error>,
)
    requires
        release_strong_talk::<T>(data, ctrl, before, new, s, t, r),
        before.depth < 500,
        ctrl.start + 32 <= u64::MAX,
    ensures
        exists|reply: Result<u64, Error>| #[trigger]
            gave_up_strong::<T>(data, ctrl, s, before, asked, new, asked + t, r, reply),
{
    let ev = t[0];
    let reply = ev->Process_reply;
    let off = ctrl.start + 16;
    let counted = with_step(asked, off, CounterOp::Sub(1), reply);
    let seen = choose|reply: Result<u64, Error>| #[trigger] took_one(t[0], off as u64, reply);
    assert(took_one(t[0], off as u64, seen));
    assert(t =~= seq![ev] + t.skip(1));
    assert(asked + t =~= counted + t.skip(1));
    if reply == Ok::<u64, Error>(1) {
        assert(was_last(ctrl.start, 16, t));
        let (mid, k, gone) = choose|mid: TeardownView, k: int, gone: Result<(), Error>| #[trigger]
            released_both::<T>(data, ctrl, s, before, mid, new, t, k, gone, r);
        let t1 = t.subrange(1, k);
        let p = choose|p: Parting| #[trigger]
            parted::<T>(data, nested(before), mid, s, t1, gone, p);
        lemma_went::<T>(data, nested(before), mid, s, counted, t1, gone, p);
        let g = DataGone { asked: counted + t1, ctx: mid, outcome: gone };
        if gone is Ok {
            lemma_weak(ctrl, s, mid, g.asked, nested(new), t.skip(k), r);
            assert(asked + t =~= g.asked + t.skip(k));
        } else {
            assert(asked + t =~= g.asked);
        }
        assert(last_strong_went::<T>(data, ctrl, s, before, counted, new, asked + t, r, g));
    } else {
        assert(counted + t.skip(1) =~= counted);
    }
    assert(gave_up_strong::<T>(data, ctrl, s, before, asked, new, asked + t, r, reply));
}

/// A strong reference takes one off the strong count of its control block. The last one takes
/// the data block with it, with all that it owns, and then gives up the one weak count that the
/// strong references held together, with which the control block may go.
pub proof fn law_the_last_strong_reference_takes_the_data<
    T: BStackWeakable,
    A: BStackRaiiAllocator,
>(owner: StrongWeakRef<T>, ctx: &mut Teardown, a: &mut A, r: Result<(), Error>)
    requires
        call_ensures(StrongWeakRef::<T>::bstack_drop::<A>, (owner, ctx, a), r),
        old(ctx)@.depth < 500,
        owner.ctrl().start + 32 <= u64::MAX,
    ensures
        exists|reply: Result<u64, Error>| #[trigger]
            gave_up_strong::<T>(
                owner.data(),
                owner.ctrl(),
                old(a).spec_settings(),
                old(ctx)@,
                old(a).trace(),
                final(ctx)@,
                final(a).trace(),
                r,
                reply,
            ),
{
    lemma_extends(old(a).trace(), final(a).trace());
    lemma_strong::<T>(
        owner.data(),
        owner.ctrl(),
        old(a).spec_settings(),
        old(ctx)@,
        old(a).trace(),
        final(ctx)@,
        since(old(a).trace(), final(a).trace()),
        r,
    );
}

/// The same of a strong reference that is given by its two blocks.
pub proof fn law_the_last_strong_release_takes_the_data<T: BStackBlock, A: BStackRaiiAllocator>(
    ctx: &mut Teardown,
    a: &mut A,
    data: BStackRange,
    ctrl: BStackRange,
    r: Result<(), Error>,
)
    requires
        call_ensures(strong_release_ctrl::<T, A>, (ctx, a, data, ctrl), r),
        old(ctx)@.depth < 500,
        ctrl.start + 32 <= u64::MAX,
    ensures
        exists|reply: Result<u64, Error>| #[trigger]
            gave_up_strong::<T>(
                data,
                ctrl,
                old(a).spec_settings(),
                old(ctx)@,
                old(a).trace(),
                final(ctx)@,
                final(a).trace(),
                r,
                reply,
            ),
{
    lemma_extends(old(a).trace(), final(a).trace());
    lemma_strong::<T>(
        data,
        ctrl,
        old(a).spec_settings(),
        old(ctx)@,
        old(a).trace(),
        final(ctx)@,
        since(old(a).trace(), final(a).trace()),
        r,
    );
}

/// Owners nest to a bound and no deeper: a cycle of owners ends in an error, and nothing of it
/// is asked of the file.
pub proof fn law_a_cycle_of_owners_ends<T: BStackBlock, A: BStackRaiiAllocator>(
    owner: OwnedRef<T>,
    ctx: &mut Teardown,
    a: &mut A,
    r: Result<(), Error>,
)
    requires
        call_ensures(OwnedRef::<T>::bstack_drop::<A>, (owner, ctx, a), r),
        old(ctx)@.depth >= 500,
    ensures
        r == Err::<(), Error>(Error::TeardownTooDeep),
        final(ctx)@ == old(ctx)@,
        final(a).trace() == old(a).trace(),
{
    lemma_extends(old(a).trace(), final(a).trace());
    assert(old(a).trace() + since(old(a).trace(), final(a).trace()) =~= old(a).trace());
}

/// Going one owner deeper is allowed below the bound, and only there.
pub proof fn law_nesting_is_counted(ctx: &mut Teardown, r: Result<(), Error>)
    requires
        call_ensures(Teardown::enter, (ctx,), r),
    ensures
        final(ctx)@.sink == old(ctx)@.sink,
        r is Ok <==> old(ctx)@.depth < 500,
        final(ctx)@.depth == old(ctx)@.depth + (if r is Ok {
            1int
        } else {
            0
        }),
        r matches Err(e) ==> e == Error::TeardownTooDeep,
{
}

/// Coming back takes the count down again, and keeps what was collected.
pub proof fn law_coming_back_is_counted(ctx: &mut Teardown)
    requires
        call_ensures(Teardown::leave, (ctx,), ()),
    ensures
        final(ctx)@.sink == old(ctx)@.sink,
        old(ctx)@.depth > 0 ==> final(ctx)@.depth == old(ctx)@.depth - 1,
        old(ctx)@.depth == 0 ==> final(ctx)@.depth == 0,
{
}

/// What was held back is handed out, all of it and in order, and nothing is held back any more.
pub proof fn law_what_was_held_back_is_handed_out(
    ctx: &mut Teardown,
    r: Vec<(FileId, BStackRange)>,
)
    requires
        call_ensures(Teardown::take, (ctx,), r),
    ensures
        final(ctx)@.sink is None,
        final(ctx)@.depth == old(ctx)@.depth,
        old(ctx)@.sink matches Some(k) ==> r@ == k.1,
        old(ctx)@.sink is None ==> r@.len() == 0,
{
}

/// A free is held back exactly where it belongs to the collection.
pub proof fn law_a_free_is_held_back_where_it_belongs<A: BStackRaiiAllocator>(
    ctx: &mut Teardown,
    a: &A,
    range: BStackRange,
    r: bool,
)
    requires
        call_ensures(Teardown::collect::<A>, (ctx, a, range), r),
    ensures
        r == holds_back(old(ctx)@, a.spec_settings()),
        final(ctx)@ == (if r {
            held(old(ctx)@, a.spec_settings(), range)
        } else {
            old(ctx)@
        }),
{
}

/// Why a counter at `base + delta` cannot be: the sum, or the end of the counter, is past all
/// offsets.
pub open spec fn why_no_counter(base: u64, delta: int) -> Option<Error> {
    if base + delta > u64::MAX {
        Some(Error::BlockOffsetOverflow)
    } else if base + delta + 8 > u64::MAX {
        Some(Error::RefcountOffsetOverflow)
    } else {
        None
    }
}

/// A reference to a block whose counter cannot be is refused, and nothing is asked: that of an
/// owner.
pub proof fn law_an_impossible_owner_is_refused<T: BStackBlock, A: BStackRaiiAllocator>(
    one: StrongRef<T>,
    ctx: &mut Teardown,
    a: &mut A,
    r: Result<(), Error>,
    e: Error,
)
    requires
        old(ctx)@.depth < 500,
        why_no_counter(one@.start, 16) == Some(e),
        call_ensures(StrongRef::<T>::bstack_drop::<A>, (one, ctx, a), r),
    ensures
        r == Err::<(), Error>(e),
        final(ctx)@ == old(ctx)@,
        final(a).trace() == old(a).trace(),
{
    lemma_extends(old(a).trace(), final(a).trace());
    assert(old(a).trace() + since(old(a).trace(), final(a).trace()) =~= old(a).trace());
}

/// The same of a weak reference.
pub proof fn law_an_impossible_weak_reference_is_refused<
    T: BStackWeakable,
    A: BStackRaiiAllocator,
>(
    weak: WeakRef<T>,
    ctx: &mut Teardown,
    a: &mut A,
    r: Result<(), Error>,
    e: Error,
)
    requires
        why_no_counter(weak@.start, 24) == Some(e),
        call_ensures(WeakRef::<T>::bstack_drop::<A>, (weak, ctx, a), r),
    ensures
        r == Err::<(), Error>(e),
        final(ctx)@ == old(ctx)@,
        final(a).trace() == old(a).trace(),
{
    lemma_extends(old(a).trace(), final(a).trace());
    assert(old(a).trace() + since(old(a).trace(), final(a).trace()) =~= old(a).trace());
}

/// The same of a strong reference with a control block.
pub proof fn law_an_impossible_strong_reference_is_refused<
    T: BStackBlock,
    A: BStackRaiiAllocator,
>(
    ctx: &mut Teardown,
    a: &mut A,
    data: BStackRange,
    ctrl: BStackRange,
    r: Result<(), Error>,
    e: Error,
)
    requires
        old(ctx)@.depth < 500,
        why_no_counter(ctrl.start, 16) == Some(e),
        call_ensures(strong_release_ctrl::<T, A>, (ctx, a, data, ctrl), r),
    ensures
        r == Err::<(), Error>(e),
        final(ctx)@ == old(ctx)@,
        final(a).trace() == old(a).trace(),
{
    lemma_extends(old(a).trace(), final(a).trace());
    assert(old(a).trace() + since(old(a).trace(), final(a).trace()) =~= old(a).trace());
}

/// Counted owners nest to the same bound: past it no count changes.
pub proof fn law_a_cycle_of_counted_owners_ends<T: BStackBlock, A: BStackRaiiAllocator>(
    one: StrongRef<T>,
    ctx: &mut Teardown,
    a: &mut A,
    r: Result<(), Error>,
)
    requires
        call_ensures(StrongRef::<T>::bstack_drop::<A>, (one, ctx, a), r),
        old(ctx)@.depth >= 500,
    ensures
        r == Err::<(), Error>(Error::TeardownTooDeep),
        final(ctx)@ == old(ctx)@,
        final(a).trace() == old(a).trace(),
{
    lemma_extends(old(a).trace(), final(a).trace());
    assert(old(a).trace() + since(old(a).trace(), final(a).trace()) =~= old(a).trace());
}

/// So do those with a control block.
pub proof fn law_a_cycle_of_strong_references_ends<T: BStackBlock, A: BStackRaiiAllocator>(
    ctx: &mut Teardown,
    a: &mut A,
    data: BStackRange,
    ctrl: BStackRange,
    r: Result<(), Error>,
)
    requires
        call_ensures(strong_release_ctrl::<T, A>, (ctx, a, data, ctrl), r),
        old(ctx)@.depth >= 500,
    ensures
        r == Err::<(), Error>(Error::TeardownTooDeep),
        final(ctx)@ == old(ctx)@,
        final(a).trace() == old(a).trace(),
{
    lemma_extends(old(a).trace(), final(a).trace());
    assert(old(a).trace() + since(old(a).trace(), final(a).trace()) =~= old(a).trace());
}

} // verus!
