//! The references that a block can hold, and how each is released.
use vstd::prelude::*;

use crate::allocator::{
    bytes_view, extends, lemma_extends, lemma_since, since, BStackRaiiAllocator, CounterOp, Event,
    Settings,
};
use crate::bytes::{get_u64, le_value};
use crate::error::Error;
use crate::layout::{
    checked_off, CTRL_BACKPTR_OFFSET, CTRL_STRONG_OFFSET, CTRL_WEAK_OFFSET, RC_REFCOUNT_OFFSET,
};
use crate::range::BStackRange;
use crate::refcount::{fetch_sub, step_reply};
use crate::reference::BStackRef;
use crate::teardown::{
    dealloc_range, dealloc_talk, deeper, drop_block, drop_talk, kept, owned_talk, Teardown,
    TeardownView, MAX_TEARDOWN_DEPTH,
};
use crate::traits::{BStackBlock, BStackDrop, BStackWeakable};

verus! {

/// The sole owner of a block.
pub struct OwnedRef<T>(BStackRef<T>);

impl<T> View for OwnedRef<T> {
    type V = BStackRange;

    closed spec fn view(&self) -> BStackRange {
        self.0@
    }
}

impl<T> OwnedRef<T> {
    pub fn new(inner: BStackRef<T>) -> (r: OwnedRef<T>)
        ensures
            r@ == inner@,
    {
        OwnedRef(inner)
    }
}

/// One of the owners of a counted block.
pub struct StrongRef<T>(BStackRef<T>);

impl<T> View for StrongRef<T> {
    type V = BStackRange;

    closed spec fn view(&self) -> BStackRange {
        self.0@
    }
}

impl<T> StrongRef<T> {
    pub fn new(inner: BStackRef<T>) -> (r: StrongRef<T>)
        ensures
            r@ == inner@,
    {
        StrongRef(inner)
    }
}

/// One of the owners of a counted block that weak references can lead to.
pub struct StrongWeakRef<T: BStackWeakable> {
    data: BStackRef<T>,
    ctrl: BStackRange,
}

/// A weak reference: it keeps the control block, not the data.
pub struct WeakRef<T: BStackWeakable> {
    ctrl: BStackRange,
    target: std::marker::PhantomData<T>,
}

/// What is known before the first step of a counter: an error, or the offset of the counter.
pub open spec fn counter_offset(base: u64, delta: u64) -> Result<u64, Error> {
    if base + delta > u64::MAX {
        Err(Error::BlockOffsetOverflow)
    } else if base + delta + 8 > u64::MAX {
        Err(Error::RefcountOffsetOverflow)
    } else {
        Ok((base + delta) as u64)
    }
}

/// Whether `ev` is the step that takes one off the counter at `off`, answered by `reply`.
pub open spec fn took_one(ev: Event, off: u64, reply: Result<u64, Error>) -> bool {
    ev == (Event::Process { off, op: CounterOp::Sub(1), reply })
}

/// The conversation that takes one off the counter at `base + delta`, where it does not end
/// in the counter being found at one: what is returned, and that nothing else happens.
pub open spec fn not_last_talk(
    base: u64,
    delta: u64,
    before: TeardownView,
    new: TeardownView,
    t: Seq<Event>,
    r: Result<(), Error>,
) -> bool {
    match counter_offset(base, delta) {
        Err(e) => t.len() == 0 && new == before && r == Err::<(), Error>(e),
        Ok(off) => {
            &&& t.len() >= 1
            &&& exists|reply: Result<u64, Error>| #[trigger]
                took_one(t[0], off, reply) && match reply {
                    Err(e) => t.len() == 1 && new == before && r == Err::<(), Error>(e),
                    Ok(0) => t.len() == 1 && new == before && r == Err::<(), Error>(
                        Error::RefcountUnderflow,
                    ),
                    Ok(1) => true,
                    Ok(_) => t.len() == 1 && new == before && r == Ok::<(), Error>(()),
                }
        },
    }
}

/// Whether `t` starts with a step that found the counter at `base + delta` at one.
pub open spec fn was_last(base: u64, delta: u64, t: Seq<Event>) -> bool {
    counter_offset(base, delta) matches Ok(off) && t.len() >= 1 && took_one(t[0], off, Ok(1))
}

/// The whole conversation that releases one weak count of the control block at `ctrl`: the
/// last count takes the control block with it.
pub open spec fn release_weak_talk(
    ctrl: BStackRange,
    before: TeardownView,
    new: TeardownView,
    s: Settings,
    t: Seq<Event>,
    r: Result<(), Error>,
) -> bool {
    &&& not_last_talk(ctrl.start, 24, before, new, t, r)
    &&& was_last(ctrl.start, 24, t) ==> dealloc_talk(before, new, s, ctrl, t.skip(1), r)
}

/// Take one off the counter at `base + delta`.
fn take_one<A: BStackRaiiAllocator>(a: &mut A, base: u64, delta: u64) -> (r: Result<u64, Error>)
    ensures
        final(a).spec_settings() == old(a).spec_settings(),
        extends(old(a).trace(), final(a).trace()),
        match counter_offset(base, delta) {
            Err(e) => final(a).trace() == old(a).trace() && r == Err::<u64, Error>(e),
            Ok(off) => {
                let t = since(old(a).trace(), final(a).trace());
                &&& t.len() == 1
                &&& took_one(t[0], off, step_reply(t))
                &&& r == match step_reply(t) {
                    Err(e) => Err::<u64, Error>(e),
                    Ok(0) => Err(Error::RefcountUnderflow),
                    Ok(n) => Ok(n),
                }
            },
        },
{
    let ghost before = a.trace();
    proof {
        lemma_since(before, Seq::empty());
        assert(before + Seq::empty() =~= before);
    }
    let off: u64 = match checked_off(base, delta) {
        Err(e) => {
            return Err(e);
        },
        Ok(off) => off,
    };
    let r = fetch_sub(a, off, 1);
    proof {
        if off + 8 <= u64::MAX {
            let t = seq![a.trace().last()];
            assert(a.trace() =~= before + t);
            lemma_since(before, t);
        }
    }
    r
}

/// Release one weak count of the control block at `ctrl`.
fn release_weak<A: BStackRaiiAllocator>(ctx: &mut Teardown, a: &mut A, ctrl: BStackRange) -> (r:
    Result<(), Error>)
    ensures
        final(a).spec_settings() == old(a).spec_settings(),
        extends(old(a).trace(), final(a).trace()),
        kept(old(ctx)@, final(ctx)@),
        release_weak_talk(
            ctrl,
            old(ctx)@,
            final(ctx)@,
            old(a).spec_settings(),
            since(old(a).trace(), final(a).trace()),
            r,
        ),
{
    let ghost before = a.trace();
    let ghost was = ctx@;
    assert(was.sink matches Some(k) ==> k.1.take(k.1.len() as int) =~= k.1);
    proof {
        lemma_since(before, Seq::empty());
        assert(before + Seq::empty() =~= before);
    }
    let taken = take_one(a, ctrl.start, CTRL_WEAK_OFFSET);
    let ghost mid = a.trace();
    let ghost t1 = since(before, mid);
    proof {
        lemma_extends(before, mid);
        if counter_offset(ctrl.start, 24) is Ok {
            assert(took_one(t1[0], counter_offset(ctrl.start, 24)->Ok_0, step_reply(t1)));
        }
    }
    match taken {
        Err(e) => Err(e),
        Ok(n) => {
            if n == 1 {
                let r = dealloc_range(ctx, a, ctrl);
                proof {
                    lemma_extends(mid, a.trace());
                    let t2 = since(mid, a.trace());
                    assert(a.trace() =~= before + (t1 + t2));
                    lemma_since(before, t1 + t2);
                    assert((t1 + t2).skip(1) =~= t2);
                    assert(took_one(
                        (t1 + t2)[0],
                        counter_offset(ctrl.start, 24)->Ok_0,
                        step_reply(t1),
                    ));
                }
                r
            } else {
                Ok(())
            }
        },
    }
}

impl<T: BStackBlock> BStackDrop for OwnedRef<T> {
    open spec fn release_talk(
        &self,
        before: TeardownView,
        new: TeardownView,
        s: Settings,
        t: Seq<Event>,
        r: Result<(), Error>,
    ) -> bool {
        owned_talk::<T>(self@, before, new, s, t, r)
    }

    /// The block goes, with all that it owns.
    fn bstack_drop<A: BStackRaiiAllocator>(self, ctx: &mut Teardown, a: &mut A) -> (r: Result<
        (),
        Error,
    >) {
        let ghost was = ctx@;
        assert(was.sink matches Some(k) ==> k.1.take(k.1.len() as int) =~= k.1);
        proof {
            lemma_since(a.trace(), Seq::empty());
            assert(a.trace() + Seq::empty() =~= a.trace());
        }
        if let Err(e) = ctx.enter() {
            return Err(e);
        }
        assert(ctx@ == deeper(was));
        let r = drop_block::<T, A>(self.0.into_range(), ctx, a);
        let ghost inner = ctx@;
        ctx.leave();
        assert(deeper(ctx@) == inner);
        r
    }
}

/// The conversation that releases one strong reference to the counted block at `data`, which
/// has its count in itself: the last takes the block with it.
pub open spec fn counted_talk<T: BStackBlock>(
    data: BStackRange,
    before: TeardownView,
    new: TeardownView,
    s: Settings,
    t: Seq<Event>,
    r: Result<(), Error>,
) -> bool {
    if before.depth >= MAX_TEARDOWN_DEPTH {
        t.len() == 0 && new == before && r == Err::<(), Error>(Error::TeardownTooDeep)
    } else {
        &&& not_last_talk(data.start, 16, before, new, t, r)
        &&& was_last(data.start, 16, t) ==> drop_talk::<T>(
            data,
            deeper(before),
            deeper(new),
            s,
            t.skip(1),
            r,
        )
    }
}

impl<T: BStackBlock> BStackDrop for StrongRef<T> {
    open spec fn release_talk(
        &self,
        before: TeardownView,
        new: TeardownView,
        s: Settings,
        t: Seq<Event>,
        r: Result<(), Error>,
    ) -> bool {
        counted_talk::<T>(self@, before, new, s, t, r)
    }

    /// The count goes down by one; the last owner takes the block with it.
    fn bstack_drop<A: BStackRaiiAllocator>(self, ctx: &mut Teardown, a: &mut A) -> (r: Result<
        (),
        Error,
    >) {
        let ghost before = a.trace();
        let ghost was = ctx@;
        assert(was.sink matches Some(k) ==> k.1.take(k.1.len() as int) =~= k.1);
        proof {
            lemma_since(before, Seq::empty());
            assert(before + Seq::empty() =~= before);
        }
        if let Err(e) = ctx.enter() {
            return Err(e);
        }
        let data = self.0.into_range();
        let taken = take_one(a, data.start, RC_REFCOUNT_OFFSET);
        let ghost mid = a.trace();
        let ghost t1 = since(before, mid);
        proof {
            lemma_extends(before, mid);
            if counter_offset(data.start, 16) is Ok {
                assert(took_one(t1[0], counter_offset(data.start, 16)->Ok_0, step_reply(t1)));
            }
        }
        let r = match taken {
            Err(e) => Err(e),
            Ok(n) => {
                if n == 1 {
                    let r = drop_block::<T, A>(data, ctx, a);
                    proof {
                        lemma_extends(mid, a.trace());
                        let t2 = since(mid, a.trace());
                        assert(a.trace() =~= before + (t1 + t2));
                        lemma_since(before, t1 + t2);
                        assert((t1 + t2).skip(1) =~= t2);
                        assert(took_one(
                            (t1 + t2)[0],
                            counter_offset(data.start, 16)->Ok_0,
                            step_reply(t1),
                        ));
                    }
                    r
                } else {
                    Ok(())
                }
            },
        };
        let ghost inner = ctx@;
        ctx.leave();
        assert(deeper(ctx@) == inner);
        r
    }
}

/// The end of the release of the last strong reference: the data block goes first, up to event
/// number `k`, which leaves the state `mid` and ends in `gone`; and then the weak count that the
/// strong owners held together.
pub open spec fn released_both<T: BStackBlock>(
    data: BStackRange,
    ctrl: BStackRange,
    s: Settings,
    before: TeardownView,
    mid: TeardownView,
    new: TeardownView,
    t: Seq<Event>,
    k: int,
    gone: Result<(), Error>,
    r: Result<(), Error>,
) -> bool {
    &&& 1 <= k <= t.len()
    &&& drop_talk::<T>(data, deeper(before), mid, s, t.subrange(1, k), gone)
    &&& match gone {
        Err(e) => k == t.len() && deeper(new) == mid && r == Err::<(), Error>(e),
        Ok(_) => release_weak_talk(ctrl, mid, deeper(new), s, t.skip(k), r),
    }
}

/// The conversation that releases one strong reference of a block with a control block.
pub open spec fn release_strong_talk<T: BStackBlock>(
    data: BStackRange,
    ctrl: BStackRange,
    before: TeardownView,
    new: TeardownView,
    s: Settings,
    t: Seq<Event>,
    r: Result<(), Error>,
) -> bool {
    if before.depth >= MAX_TEARDOWN_DEPTH {
        t.len() == 0 && new == before && r == Err::<(), Error>(Error::TeardownTooDeep)
    } else {
        &&& not_last_talk(ctrl.start, 16, before, new, t, r)
        &&& was_last(ctrl.start, 16, t) ==> exists|
            mid: TeardownView,
            k: int,
            gone: Result<(), Error>,
        | #[trigger]
            released_both::<T>(data, ctrl, s, before, mid, new, t, k, gone, r)
    }
}

/// Release one strong reference of the block at `data` with the control block at `ctrl`. The
/// last strong owner frees the data, and then gives up the weak count that the strong owners
/// held together; the control block goes with the last weak count.
pub fn strong_release_ctrl<T: BStackBlock, A: BStackRaiiAllocator>(
    ctx: &mut Teardown,
    a: &mut A,
    data: BStackRange,
    ctrl: BStackRange,
) -> (r: Result<(), Error>)
    ensures
        final(a).spec_settings() == old(a).spec_settings(),
        extends(old(a).trace(), final(a).trace()),
        kept(old(ctx)@, final(ctx)@),
        release_strong_talk::<T>(
            data,
            ctrl,
            old(ctx)@,
            final(ctx)@,
            old(a).spec_settings(),
            since(old(a).trace(), final(a).trace()),
            r,
        ),
{
    let ghost before = a.trace();
    let ghost was = ctx@;
    let ghost s = a.spec_settings();
    assert(was.sink matches Some(k) ==> k.1.take(k.1.len() as int) =~= k.1);
    proof {
        lemma_since(before, Seq::empty());
        assert(before + Seq::empty() =~= before);
    }
    if let Err(e) = ctx.enter() {
        return Err(e);
    }
    let taken = take_one(a, ctrl.start, CTRL_STRONG_OFFSET);
    let ghost mid = a.trace();
    let ghost t1 = since(before, mid);
    proof {
        lemma_extends(before, mid);
        if counter_offset(ctrl.start, 16) is Ok {
            assert(took_one(t1[0], counter_offset(ctrl.start, 16)->Ok_0, step_reply(t1)));
        }
    }
    let last: bool = match taken {
        Err(e) => {
            ctx.leave();
            return Err(e);
        },
        Ok(n) => n == 1,
    };
    if !last {
        ctx.leave();
        return Ok(());
    }
    let gone = drop_block::<T, A>(data, ctx, a);
    let ghost mid2 = a.trace();
    let ghost mid_ctx = ctx@;
    let ghost t2 = since(mid, mid2);
    proof {
        lemma_extends(mid, mid2);
        assert(mid2 =~= before + (t1 + t2));
        lemma_since(before, t1 + t2);
        assert(took_one((t1 + t2)[0], counter_offset(ctrl.start, 16)->Ok_0, step_reply(t1)));
    }
    if let Err(e) = gone {
        ctx.leave();
        proof {
            let t = t1 + t2;
            assert(t.subrange(1, t.len() as int) =~= t2);
            assert(deeper(ctx@) == mid_ctx);
            assert(released_both::<T>(
                data,
                ctrl,
                s,
                was,
                mid_ctx,
                ctx@,
                t,
                t.len() as int,
                gone,
                Err(e),
            ));
        }
        return Err(e);
    }
    let r = release_weak(ctx, a, ctrl);
    let ghost inner = ctx@;
    ctx.leave();
    proof {
        lemma_extends(mid2, a.trace());
        let t3 = since(mid2, a.trace());
        let t = t1 + t2 + t3;
        assert(a.trace() =~= before + t);
        lemma_since(before, t);
        assert(took_one(t[0], counter_offset(ctrl.start, 16)->Ok_0, step_reply(t1)));
        let k = (t1.len() + t2.len()) as int;
        assert(t.subrange(1, k) =~= t2);
        assert(t.skip(k) =~= t3);
        assert(deeper(ctx@) == inner);
        assert(released_both::<T>(data, ctrl, s, was, mid_ctx, ctx@, t, k, gone, r));
        if was.sink is Some {
            let b = was.frees();
            assert(ctx@.frees().take(b.len() as int) =~= mid_ctx.frees().take(b.len() as int));
        }
    }
    r
}

/// The conversation that finds the control block of the data block at `data`.
pub open spec fn ctrl_talk(
    data: BStackRange,
    control_size: u64,
    t: Seq<Event>,
    r: Result<BStackRange, Error>,
) -> bool {
    if data.start + 16 > u64::MAX {
        t.len() == 0 && r == Err::<BStackRange, Error>(Error::BlockOffsetOverflow)
    } else {
        &&& t.len() == 1
        &&& t[0] matches Event::Read { off, len, reply }
        &&& off == data.start + 16 && len == 8
        &&& r == match reply {
            Err(e) => Err::<BStackRange, Error>(e),
            Ok(b) => Ok(BStackRange { start: le_value(b) as u64, len: control_size }),
        }
    }
}

/// Where the control block of the data block at `data` is.
pub(crate) fn read_ctrl_ref<A: BStackRaiiAllocator>(a: &mut A, data: BStackRange, control_size: u64) -> (r:
    Result<BStackRange, Error>)
    ensures
        final(a).spec_settings() == old(a).spec_settings(),
        extends(old(a).trace(), final(a).trace()),
        ctrl_talk(data, control_size, since(old(a).trace(), final(a).trace()), r),
{
    let ghost before = a.trace();
    proof {
        lemma_since(before, Seq::empty());
        assert(before + Seq::empty() =~= before);
    }
    let pos: u64 = match checked_off(data.start, CTRL_BACKPTR_OFFSET) {
        Err(e) => {
            return Err(e);
        },
        Ok(pos) => pos,
    };
    let got = a.get(pos, 8);
    proof {
        let t = seq![Event::Read { off: pos, len: 8, reply: bytes_view(got) }];
        assert(a.trace() =~= before + t);
        lemma_since(before, t);
    }
    match got {
        Err(e) => Err(e),
        Ok(buf) => {
            assert(buf@.subrange(0, 8) =~= buf@);
            Ok(BStackRange::new(get_u64(buf.as_slice()), control_size))
        },
    }
}

impl<T: BStackWeakable> StrongWeakRef<T> {
    /// Where the data block is.
    pub closed spec fn data(&self) -> BStackRange {
        self.data@
    }

    /// Where the control block is.
    pub closed spec fn ctrl(&self) -> BStackRange {
        self.ctrl
    }

    /// The strong reference to the data block, once its control block is found.
    pub fn from_disk<A: BStackRaiiAllocator>(data_ref: BStackRef<T>, a: &mut A) -> (r: Result<
        StrongWeakRef<T>,
        Error,
    >)
        ensures
            final(a).spec_settings() == old(a).spec_settings(),
            extends(old(a).trace(), final(a).trace()),
            ctrl_talk(
                data_ref@,
                T::spec_control_size(),
                since(old(a).trace(), final(a).trace()),
                match r {
                    Ok(s) => Ok(s.ctrl()),
                    Err(e) => Err(e),
                },
            ),
            r matches Ok(s) ==> s.data() == data_ref@,
    {
        let range = data_ref.range();
        match read_ctrl_ref(a, range, T::control_size()) {
            Err(e) => Err(e),
            Ok(ctrl) => Ok(StrongWeakRef { data: data_ref, ctrl }),
        }
    }

    /// Where the data block is.
    pub fn data_ref(&self) -> (r: BStackRange)
        ensures
            r == self.data(),
    {
        self.data.range()
    }

    /// Where the control block is.
    pub fn ctrl_ref(&self) -> (r: BStackRange)
        ensures
            r == self.ctrl(),
    {
        self.ctrl
    }
}

impl<T: BStackWeakable> BStackDrop for StrongWeakRef<T> {
    open spec fn release_talk(
        &self,
        before: TeardownView,
        new: TeardownView,
        s: Settings,
        t: Seq<Event>,
        r: Result<(), Error>,
    ) -> bool {
        release_strong_talk::<T>(self.data(), self.ctrl(), before, new, s, t, r)
    }

    /// One strong reference goes: see [`strong_release_ctrl`].
    fn bstack_drop<A: BStackRaiiAllocator>(self, ctx: &mut Teardown, a: &mut A) -> (r: Result<
        (),
        Error,
    >) {
        strong_release_ctrl::<T, A>(ctx, a, self.data.range(), self.ctrl)
    }
}

impl<T: BStackWeakable> View for WeakRef<T> {
    type V = BStackRange;

    closed spec fn view(&self) -> BStackRange {
        self.ctrl
    }
}

impl<T: BStackWeakable> WeakRef<T> {
    /// The weak reference held in the control block at `ctrl`.
    pub fn new(ctrl: BStackRange) -> (r: WeakRef<T>)
        ensures
            r@ == ctrl,
    {
        WeakRef { ctrl, target: std::marker::PhantomData }
    }

    /// Where the control block is.
    pub fn ctrl_ref(&self) -> (r: BStackRange)
        ensures
            r == self@,
    {
        self.ctrl
    }

    /// The weak reference to the data block, once its control block is found.
    pub fn from_disk<A: BStackRaiiAllocator>(data_ref: BStackRef<T>, a: &mut A) -> (r: Result<
        WeakRef<T>,
        Error,
    >)
        ensures
            final(a).spec_settings() == old(a).spec_settings(),
            extends(old(a).trace(), final(a).trace()),
            ctrl_talk(
                data_ref@,
                T::spec_control_size(),
                since(old(a).trace(), final(a).trace()),
                match r {
                    Ok(w) => Ok(w@),
                    Err(e) => Err(e),
                },
            ),
    {
        match read_ctrl_ref(a, data_ref.range(), T::control_size()) {
            Err(e) => Err(e),
            Ok(ctrl) => Ok(WeakRef::new(ctrl)),
        }
    }
}

impl<T: BStackWeakable> BStackDrop for WeakRef<T> {
    open spec fn release_talk(
        &self,
        before: TeardownView,
        new: TeardownView,
        s: Settings,
        t: Seq<Event>,
        r: Result<(), Error>,
    ) -> bool {
        release_weak_talk(self@, before, new, s, t, r)
    }

    /// The weak count goes down by one; the last takes the control block with it. The data
    /// block is not touched.
    fn bstack_drop<A: BStackRaiiAllocator>(self, ctx: &mut Teardown, a: &mut A) -> (r: Result<
        (),
        Error,
    >) {
        release_weak(ctx, a, self.ctrl)
    }
}

/// What the release of a strong reference does goes by the count that the file reports: above
/// one only the count changes; at one the data block goes, and with it the weak count of the
/// strong owners; at zero the release is refused.
pub proof fn law_strong_release_goes_by_the_count<T: BStackBlock>(
    data: BStackRange,
    ctrl: BStackRange,
    before: TeardownView,
    new: TeardownView,
    s: Settings,
    t: Seq<Event>,
    r: Result<(), Error>,
    off: u64,
    n: u64,
)
    requires
        before.depth < MAX_TEARDOWN_DEPTH,
        release_strong_talk::<T>(data, ctrl, before, new, s, t, r),
        counter_offset(ctrl.start, 16) == Ok::<u64, Error>(off),
        took_one(t[0], off, Ok(n)),
    ensures
        n > 1 ==> t.len() == 1 && new == before && r is Ok,
        n == 1 ==> exists|mid: TeardownView, k: int, gone: Result<(), Error>| #[trigger]
            released_both::<T>(data, ctrl, s, before, mid, new, t, k, gone, r),
        n == 0 ==> t.len() == 1 && new == before && r == Err::<(), Error>(
            Error::RefcountUnderflow,
        ),
{
}

/// What the release of a weak reference does goes by the count that the file reports: above one
/// only the count changes; at one the control block goes; at zero the release is refused.
pub proof fn law_weak_release_goes_by_the_count(
    ctrl: BStackRange,
    before: TeardownView,
    new: TeardownView,
    s: Settings,
    t: Seq<Event>,
    r: Result<(), Error>,
    off: u64,
    n: u64,
)
    requires
        release_weak_talk(ctrl, before, new, s, t, r),
        counter_offset(ctrl.start, 24) == Ok::<u64, Error>(off),
        took_one(t[0], off, Ok(n)),
    ensures
        n > 1 ==> t.len() == 1 && new == before && r is Ok,
        n == 1 ==> dealloc_talk(before, new, s, ctrl, t.skip(1), r),
        n == 0 ==> t.len() == 1 && new == before && r == Err::<(), Error>(
            Error::RefcountUnderflow,
        ),
{
}

/// The two counters of a control block, and which of its blocks are still there.
pub struct Shared {
    pub strong: u64,
    pub weak: u64,
    pub data_live: bool,
    pub ctrl_live: bool,
}

/// Whether the counters count `strongs` strong and `weaks` weak references: the strong owners
/// together hold one weak count.
pub open spec fn counts(s: Shared, strongs: nat, weaks: nat) -> bool {
    &&& s.strong == strongs
    &&& s.weak == weaks + (if strongs > 0 {
        1nat
    } else {
        0nat
    })
    &&& s.data_live == (strongs > 0)
    &&& s.ctrl_live == (strongs > 0 || weaks > 0)
}

/// One weak count is released.
pub open spec fn weak_released(s: Shared) -> Shared {
    Shared {
        weak: CounterOp::Sub(1).spec_apply(s.weak),
        ctrl_live: s.ctrl_live && s.weak != 1,
        ..s
    }
}

/// One strong reference is released.
pub open spec fn strong_released(s: Shared) -> Shared {
    let after = Shared {
        strong: CounterOp::Sub(1).spec_apply(s.strong),
        data_live: s.data_live && s.strong != 1,
        ..s
    };
    if s.strong == 1 {
        weak_released(after)
    } else {
        after
    }
}

/// A weak reference is turned into a strong one, if anything is left to refer to.
pub open spec fn upgraded(s: Shared) -> Shared {
    Shared { strong: CounterOp::IncrementIfNonzero.spec_apply(s.strong), ..s }
}

/// The data block lives exactly as long as a strong reference, and the control block exactly
/// as long as any reference, whatever is released or upgraded, in whatever order.
pub proof fn law_blocks_live_as_long_as_their_references(s: Shared, strongs: nat, weaks: nat)
    requires
        counts(s, strongs, weaks),
        strongs < u64::MAX,
    ensures
        strongs > 0 ==> counts(strong_released(s), (strongs - 1) as nat, weaks),
        weaks > 0 ==> counts(weak_released(s), strongs, (weaks - 1) as nat),
        strongs > 0 ==> counts(upgraded(s), strongs + 1, weaks),
        strongs == 0 ==> upgraded(s) == s,
{
}

} // verus!
