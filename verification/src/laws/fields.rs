//! Releasing what a field refers to, by what the field holds.
use vstd::prelude::*;

use crate::allocator::{lemma_extends, since, BStackRaiiAllocator, Event, Settings};
use crate::bytes::le_value;
use crate::error::Error;
use crate::fields::{drop_owned_field, drop_strong_field, drop_weak_field};
use crate::foreign::{
    counted_drop_talk, foreign_drop_owned, foreign_drop_strong, foreign_drop_weak, strong_drop_talk,
};
use crate::range::BStackRange;
use crate::teardown::{owned_talk, parted, Parting, Teardown, TeardownView};
use crate::traits::{BStackBlock, BStackShared, BStackWeakable};

use super::release::{
    gave_up_share, gave_up_strong, gave_up_weak, lemma_share, lemma_strong, lemma_weak, lemma_went,
    nested, went_whole, Emptied,
};

verus! {

/// Whether the owned block at `range` went as a whole.
pub open spec fn owned_went<T: BStackBlock>(
    range: BStackRange,
    s: Settings,
    before: TeardownView,
    asked: Seq<Event>,
    new: TeardownView,
    asked_now: Seq<Event>,
    r: Result<(), Error>,
) -> bool {
    exists|e: Emptied| #[trigger]
        went_whole::<T>(range, s, nested(before), asked, nested(new), asked_now, r, e)
}

/// Whether one strong reference to the block at `data` was given up, by way of its control block
/// where it has one.
pub open spec fn strong_went<T: BStackShared>(
    data: BStackRange,
    s: Settings,
    before: TeardownView,
    asked: Seq<Event>,
    new: TeardownView,
    asked_now: Seq<Event>,
    r: Result<(), Error>,
    found: Result<Seq<u8>, Error>,
) -> bool {
    match T::spec_control() {
        None => exists|reply: Result<u64, Error>| #[trigger]
            gave_up_share::<T>(data, data.start + 16, s, before, asked, new, asked_now, r, reply),
        Some(size) => {
            let looked = asked.push(
                Event::Read { off: (data.start + 16) as u64, len: 8, reply: found },
            );
            match found {
                Err(e) => asked_now == looked && new == before && r == Err::<(), Error>(e),
                Ok(b) => {
                    let ctrl = BStackRange { start: le_value(b) as u64, len: size };
                    ctrl.start + 32 <= u64::MAX ==> exists|reply: Result<u64, Error>| #[trigger]
                        gave_up_strong::<T>(data, ctrl, s, before, looked, new, asked_now, r, reply)
                },
            }
        },
    }
}

pub(crate) proof fn lemma_owned<T: BStackBlock>(
    range: BStackRange,
    s: Settings,
    before: TeardownView,
    asked: Seq<Event>,
    new: TeardownView,
    t: Seq<Event>,
    r: Result<(), Error>,
)
    requires
        owned_talk::<T>(range, before, new, s, t, r),
        before.depth < 500,
    ensures
        owned_went::<T>(range, s, before, asked, new, asked + t, r),
{
    let p = choose|p: Parting| #[trigger]
        parted::<T>(range, nested(before), nested(new), s, t, r, p);
    lemma_went::<T>(range, nested(before), nested(new), s, asked, t, r, p);
}

pub(crate) proof fn lemma_strong_went<T: BStackShared>(
    data: BStackRange,
    s: Settings,
    before: TeardownView,
    asked: Seq<Event>,
    new: TeardownView,
    t: Seq<Event>,
    r: Result<(), Error>,
)
    requires
        strong_drop_talk::<T>(data, before, new, s, t, r),
        before.depth < 500,
        data.start + 24 <= u64::MAX,
    ensures
        exists|found: Result<Seq<u8>, Error>| #[trigger]
            strong_went::<T>(data, s, before, asked, new, asked + t, r, found),
{
    match T::spec_control() {
        None => {
            lemma_share::<T>(data, s, before, asked, new, t, r);
            let any: Result<Seq<u8>, Error> = Err(Error::NoSpace);
            assert(strong_went::<T>(data, s, before, asked, new, asked + t, r, any));
        },
        Some(size) => {
            let (got, k) = choose|got: Result<Option<BStackRange>, Error>, k: int| #[trigger]
                counted_drop_talk::<T>(data, before, new, s, t, r, got, k);
            let ev = t.take(k)[0];
            assert(t.take(k).len() == 1);
            assert(ev == t[0]);
            let found = ev->Read_reply;
            let looked = asked.push(ev);
            assert(t =~= seq![ev] + t.skip(1));
            assert(asked + t =~= looked + t.skip(1));
            if let Ok(b) = found {
                let ctrl = BStackRange { start: le_value(b) as u64, len: size };
                if ctrl.start + 32 <= u64::MAX {
                    lemma_strong::<T>(data, ctrl, s, before, looked, new, t.skip(1), r);
                }
            } else {
                assert(looked + t.skip(1) =~= looked);
            }
            assert(strong_went::<T>(data, s, before, asked, new, asked + t, r, found));
        },
    }
}

/// A field that owns a block takes the block with it, with all that it owns; a field that can be
/// empty, and is, takes nothing.
pub proof fn law_an_owning_field_takes_its_block<T: BStackBlock, A: BStackRaiiAllocator>(
    ctx: &mut Teardown,
    a: &mut A,
    off: u64,
    nullable: bool,
    r: Result<(), Error>,
)
    requires
        call_ensures(drop_owned_field::<T, A>, (ctx, a, off, nullable), r),
        old(ctx)@.depth < 500,
    ensures
        if nullable && off == 0 {
            final(a).trace() == old(a).trace() && final(ctx)@ == old(ctx)@ && r is Ok
        } else {
            owned_went::<T>(
                BStackRange { start: off, len: T::spec_on_disk_size() },
                old(a).spec_settings(),
                old(ctx)@,
                old(a).trace(),
                final(ctx)@,
                final(a).trace(),
                r,
            )
        },
{
    if !(nullable && off == 0) {
        lemma_extends(old(a).trace(), final(a).trace());
        lemma_owned::<T>(
            BStackRange { start: off, len: T::spec_on_disk_size() },
            old(a).spec_settings(),
            old(ctx)@,
            old(a).trace(),
            final(ctx)@,
            since(old(a).trace(), final(a).trace()),
            r,
        );
    }
}

/// A field with a strong reference gives up that reference; a field that can be empty, and is,
/// gives up nothing.
pub proof fn law_a_strong_field_gives_up_its_share<T: BStackShared, A: BStackRaiiAllocator>(
    ctx: &mut Teardown,
    a: &mut A,
    off: u64,
    nullable: bool,
    r: Result<(), Error>,
)
    requires
        call_ensures(drop_strong_field::<T, A>, (ctx, a, off, nullable), r),
        old(ctx)@.depth < 500,
        off + 24 <= u64::MAX,
    ensures
        if nullable && off == 0 {
            final(a).trace() == old(a).trace() && final(ctx)@ == old(ctx)@ && r is Ok
        } else {
            exists|found: Result<Seq<u8>, Error>| #[trigger]
                strong_went::<T>(
                    BStackRange { start: off, len: T::spec_on_disk_size() },
                    old(a).spec_settings(),
                    old(ctx)@,
                    old(a).trace(),
                    final(ctx)@,
                    final(a).trace(),
                    r,
                    found,
                )
        },
{
    if !(nullable && off == 0) {
        lemma_extends(old(a).trace(), final(a).trace());
        lemma_strong_went::<T>(
            BStackRange { start: off, len: T::spec_on_disk_size() },
            old(a).spec_settings(),
            old(ctx)@,
            old(a).trace(),
            final(ctx)@,
            since(old(a).trace(), final(a).trace()),
            r,
        );
    }
}

/// A weak field that is set gives up its weak count, and one that is not gives up nothing.
pub proof fn law_a_weak_field_gives_up_its_count<T: BStackWeakable, A: BStackRaiiAllocator>(
    ctx: &mut Teardown,
    a: &mut A,
    off: u64,
    r: Result<(), Error>,
)
    requires
        call_ensures(drop_weak_field::<T, A>, (ctx, a, off), r),
        off + 32 <= u64::MAX,
    ensures
        if off == 0 {
            final(a).trace() == old(a).trace() && final(ctx)@ == old(ctx)@ && r is Ok
        } else {
            exists|reply: Result<u64, Error>| #[trigger]
                gave_up_weak(
                    BStackRange { start: off, len: T::spec_control_size() },
                    old(a).spec_settings(),
                    old(ctx)@,
                    old(a).trace(),
                    final(ctx)@,
                    final(a).trace(),
                    r,
                    reply,
                )
        },
{
    if off != 0 {
        lemma_extends(old(a).trace(), final(a).trace());
        lemma_weak(
            BStackRange { start: off, len: T::spec_control_size() },
            old(a).spec_settings(),
            old(ctx)@,
            old(a).trace(),
            final(ctx)@,
            since(old(a).trace(), final(a).trace()),
            r,
        );
    }
}

/// Releasing the block at an offset takes it with all that it owns.
pub proof fn law_an_offset_is_released_whole<T: BStackBlock, A: BStackRaiiAllocator>(
    ctx: &mut Teardown,
    a: &mut A,
    off: u64,
    r: Result<(), Error>,
)
    requires
        call_ensures(foreign_drop_owned::<T, A>, (ctx, a, off), r),
        old(ctx)@.depth < 500,
    ensures
        owned_went::<T>(
            BStackRange { start: off, len: T::spec_on_disk_size() },
            old(a).spec_settings(),
            old(ctx)@,
            old(a).trace(),
            final(ctx)@,
            final(a).trace(),
            r,
        ),
{
    lemma_extends(old(a).trace(), final(a).trace());
    lemma_owned::<T>(
        BStackRange { start: off, len: T::spec_on_disk_size() },
        old(a).spec_settings(),
        old(ctx)@,
        old(a).trace(),
        final(ctx)@,
        since(old(a).trace(), final(a).trace()),
        r,
    );
}

/// Releasing a strong reference by its offset gives up that reference.
pub proof fn law_an_offset_gives_up_its_share<T: BStackShared, A: BStackRaiiAllocator>(
    ctx: &mut Teardown,
    a: &mut A,
    off: u64,
    r: Result<(), Error>,
)
    requires
        call_ensures(foreign_drop_strong::<T, A>, (ctx, a, off), r),
        old(ctx)@.depth < 500,
        off + 24 <= u64::MAX,
    ensures
        exists|found: Result<Seq<u8>, Error>| #[trigger]
            strong_went::<T>(
                BStackRange { start: off, len: T::spec_on_disk_size() },
                old(a).spec_settings(),
                old(ctx)@,
                old(a).trace(),
                final(ctx)@,
                final(a).trace(),
                r,
                found,
            ),
{
    lemma_extends(old(a).trace(), final(a).trace());
    lemma_strong_went::<T>(
        BStackRange { start: off, len: T::spec_on_disk_size() },
        old(a).spec_settings(),
        old(ctx)@,
        old(a).trace(),
        final(ctx)@,
        since(old(a).trace(), final(a).trace()),
        r,
    );
}

/// Releasing a weak reference by the offset of its control block gives up one weak count.
pub proof fn law_an_offset_gives_up_its_count<T: BStackWeakable, A: BStackRaiiAllocator>(
    ctx: &mut Teardown,
    a: &mut A,
    off: u64,
    r: Result<(), Error>,
)
    requires
        call_ensures(foreign_drop_weak::<T, A>, (ctx, a, off), r),
        off + 32 <= u64::MAX,
    ensures
        exists|reply: Result<u64, Error>| #[trigger]
            gave_up_weak(
                BStackRange { start: off, len: T::spec_control_size() },
                old(a).spec_settings(),
                old(ctx)@,
                old(a).trace(),
                final(ctx)@,
                final(a).trace(),
                r,
                reply,
            ),
{
    lemma_extends(old(a).trace(), final(a).trace());
    lemma_weak(
        BStackRange { start: off, len: T::spec_control_size() },
        old(a).spec_settings(),
        old(ctx)@,
        old(a).trace(),
        final(ctx)@,
        since(old(a).trace(), final(a).trace()),
        r,
    );
}

/// A field is released to the same bound as its owner: past it nothing is asked.
pub proof fn law_an_owning_field_nests_to_the_bound<T: BStackBlock, A: BStackRaiiAllocator>(
    ctx: &mut Teardown,
    a: &mut A,
    off: u64,
    nullable: bool,
    r: Result<(), Error>,
)
    requires
        call_ensures(drop_owned_field::<T, A>, (ctx, a, off, nullable), r),
        old(ctx)@.depth >= 500,
    ensures
        final(ctx)@ == old(ctx)@,
        final(a).trace() == old(a).trace(),
        nullable && off == 0 ==> r is Ok,
        !(nullable && off == 0) ==> r == Err::<(), Error>(Error::TeardownTooDeep),
{
    lemma_extends(old(a).trace(), final(a).trace());
    let t = since(old(a).trace(), final(a).trace());
    if !(nullable && off == 0) {
        assert(old(a).trace() + t =~= old(a).trace());
    }
}

} // verus!
