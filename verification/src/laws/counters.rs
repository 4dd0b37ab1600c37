//! Counting references: what is counted up and down, and by how much.
use vstd::prelude::*;

use crate::allocator::{lemma_extends, since, BStackRaiiAllocator, CounterOp, Event};
use crate::bytes::{le_value, lemma_le_value_of_bytes, lemma_pow256_4_8};
use crate::construct::{pin_talk, set_weak_field, upgrade_weak_field, Upgraded};
use crate::error::Error;
use crate::foreign::{add_one_talk, clone_strong_talk, foreign_clone_strong, foreign_clone_weak};
use crate::handback::ReplaceError;
use crate::handle::{release_weak_talk, WeakRef};
use crate::range::BStackRange;
use crate::refcount::{fetch_add, fetch_sub, increment_if_nonzero, increment_talk, load, loaded};
use crate::teardown::Teardown;
use crate::traits::{BStackShared, BStackWeakable};

use super::release::{gave_up_weak, lemma_weak};
use super::with_step;

verus! {

/// A step of a counter adds or takes away what it says, or leaves the counter as it is where the
/// outcome would not fit; and it never brings a counter back from zero.
pub proof fn law_a_step_changes_by_what_it_says(op: CounterOp, cur: u64, r: u64)
    requires
        call_ensures(CounterOp::apply, (&op, cur), r),
    ensures
        match op {
            CounterOp::Add(d) => r == (if cur + d <= u64::MAX {
                cur + d
            } else {
                cur as int
            }),
            CounterOp::Sub(d) => r == (if cur >= d {
                cur - d
            } else {
                cur as int
            }),
            CounterOp::IncrementIfNonzero => r == (if cur == 0 || cur == u64::MAX {
                cur as int
            } else {
                cur + 1
            }),
        },
{
}

/// Adding to a counter is one step, which says what the counter was; a sum that does not fit is
/// refused.
pub proof fn law_adding_is_one_step<A: BStackRaiiAllocator>(
    a: &mut A,
    off: u64,
    delta: u64,
    r: Result<u64, Error>,
)
    requires
        call_ensures(fetch_add::<A>, (a, off, delta), r),
        off + 8 <= u64::MAX,
    ensures
        exists|reply: Result<u64, Error>|
            final(a).trace() == #[trigger] with_step(
                old(a).trace(),
                off as int,
                CounterOp::Add(delta),
                reply,
            ) && match reply {
                Err(e) => r == Err::<u64, Error>(e),
                Ok(was) => if was + delta <= u64::MAX {
                    r == Ok::<u64, Error>(was)
                } else {
                    r is Err
                },
            },
{
    let reply = final(a).trace().last()->Process_reply;
    assert(final(a).trace() =~= with_step(
        old(a).trace(),
        off as int,
        CounterOp::Add(delta),
        reply,
    ));
}

/// Taking from a counter is one step, which says what the counter was; taking more than there is
/// is refused.
pub proof fn law_taking_is_one_step<A: BStackRaiiAllocator>(
    a: &mut A,
    off: u64,
    delta: u64,
    r: Result<u64, Error>,
)
    requires
        call_ensures(fetch_sub::<A>, (a, off, delta), r),
        off + 8 <= u64::MAX,
    ensures
        exists|reply: Result<u64, Error>|
            final(a).trace() == #[trigger] with_step(
                old(a).trace(),
                off as int,
                CounterOp::Sub(delta),
                reply,
            ) && match reply {
                Err(e) => r == Err::<u64, Error>(e),
                Ok(was) => if was >= delta {
                    r == Ok::<u64, Error>(was)
                } else {
                    r is Err
                },
            },
{
    let reply = final(a).trace().last()->Process_reply;
    assert(final(a).trace() =~= with_step(
        old(a).trace(),
        off as int,
        CounterOp::Sub(delta),
        reply,
    ));
}

/// The conversation with one more look at the eight bytes at `off`.
pub open spec fn with_look(asked: Seq<Event>, off: int, found: Result<Seq<u8>, Error>) -> Seq<
    Event,
> {
    asked.push(Event::Read { off: off as u64, len: 8, reply: found })
}

/// Looking at a counter is one read, and gives the number that its bytes spell.
pub proof fn law_a_look_gives_what_is_there<A: BStackRaiiAllocator>(
    a: &mut A,
    off: u64,
    r: Result<u64, Error>,
)
    requires
        call_ensures(load::<A>, (a, off), r),
    ensures
        exists|found: Result<Seq<u8>, Error>|
            final(a).trace() == #[trigger] with_look(old(a).trace(), off as int, found)
                && match found {
                Err(e) => r == Err::<u64, Error>(e),
                Ok(b) => r == Ok::<u64, Error>(le_value(b) as u64),
            },
{
    lemma_look(old(a).trace(), final(a).trace(), off, r);
}

proof fn lemma_look(asked: Seq<Event>, asked_now: Seq<Event>, off: u64, r: Result<u64, Error>) -> (
    found: Result<Seq<u8>, Error>)
    requires
        loaded(asked, asked_now, off, r),
    ensures
        asked_now == with_look(asked, off as int, found),
        match found {
            Err(e) => r == Err::<u64, Error>(e),
            Ok(b) => r == Ok::<u64, Error>(le_value(b) as u64),
        },
{
    let found = asked_now.last()->Read_reply;
    assert(asked_now =~= with_look(asked, off as int, found));
    found
}

/// Whether one more reference was counted in the counter at `off`, or was found to be one too
/// late: the counter is looked at, and stepped only where it is not zero.
pub open spec fn counted_if_alive(
    asked: Seq<Event>,
    off: int,
    asked_now: Seq<Event>,
    r: Result<Option<u64>, Error>,
    found: Result<Seq<u8>, Error>,
) -> bool {
    let looked = with_look(asked, off, found);
    match found {
        Err(e) => asked_now == looked && r == Err::<Option<u64>, Error>(e),
        Ok(b) => if le_value(b) as u64 == 0 {
            asked_now == looked && r == Ok::<Option<u64>, Error>(None)
        } else {
            exists|reply: Result<u64, Error>|
                asked_now == #[trigger] with_step(
                    looked,
                    off,
                    CounterOp::IncrementIfNonzero,
                    reply,
                ) && match reply {
                    Err(e) => r == Err::<Option<u64>, Error>(e),
                    Ok(was) => if was == 0 {
                        r == Ok::<Option<u64>, Error>(None)
                    } else if was == u64::MAX {
                        r is Err
                    } else {
                        r == Ok::<Option<u64>, Error>(Some((was + 1) as u64))
                    },
                }
        },
    }
}

proof fn lemma_increment(
    asked: Seq<Event>,
    off: u64,
    asked_now: Seq<Event>,
    r: Result<Option<u64>, Error>,
) -> (found: Result<Seq<u8>, Error>)
    requires
        increment_talk(asked, asked_now, off, r),
        off + 8 <= u64::MAX,
    ensures
        counted_if_alive(asked, off as int, asked_now, r, found),
{
    let look = asked_now.take((asked.len() + 1) as int);
    let found = look.last()->Read_reply;
    let looked = with_look(asked, off as int, found);
    assert(look =~= looked);
    if found is Ok && le_value(found->Ok_0) as u64 != 0 {
        let reply = asked_now.last()->Process_reply;
        assert(asked_now =~= with_step(looked, off as int, CounterOp::IncrementIfNonzero, reply));
    }
    found
}

/// A reference is counted only while there is another one: a counter at zero stays there.
pub proof fn law_only_the_living_are_counted<A: BStackRaiiAllocator>(
    a: &mut A,
    off: u64,
    r: Result<Option<u64>, Error>,
)
    requires
        call_ensures(increment_if_nonzero::<A>, (a, off), r),
        off + 8 <= u64::MAX,
    ensures
        exists|found: Result<Seq<u8>, Error>| #[trigger]
            counted_if_alive(old(a).trace(), off as int, final(a).trace(), r, found),
{
    let found = lemma_increment(old(a).trace(), off, final(a).trace(), r);
}

/// Whether a weak field that held what `out` spells now holds `weak`, and the weak count of what
/// it held before was given up.
pub open spec fn field_moved<T: BStackWeakable, A: BStackRaiiAllocator>(
    weak: BStackRange,
    ctx: Teardown,
    ctx_now: Teardown,
    a: A,
    a_now: A,
    swapped: Seq<Event>,
    out: Seq<u8>,
    r: Result<(), ReplaceError<WeakRef<T>>>,
) -> bool {
    let was = le_value(out) as u64;
    if was == 0 {
        a_now.trace() == swapped && ctx_now@ == ctx@ && r is Ok
    } else {
        was + 32 <= u64::MAX ==> exists|reply: Result<u64, Error>, done: Result<(), Error>|
         #[trigger]
            gave_up_weak(
                BStackRange { start: was, len: T::spec_control_size() },
                a.spec_settings(),
                ctx@,
                swapped,
                ctx_now@,
                a_now.trace(),
                done,
                reply,
            ) && (r is Ok <==> done is Ok)
    }
}

/// The conversation with one more exchange of the eight bytes at `off` for `word`.
pub open spec fn with_swap(
    asked: Seq<Event>,
    off: u64,
    bytes: Seq<u8>,
    out: Result<Seq<u8>, Error>,
) -> Seq<Event> {
    asked.push(Event::Swap { off, bytes, reply: out })
}

/// Setting a weak field keeps the counts right. The count of the reference that is handed in
/// becomes the field's, and what the field held before gives up exactly one weak count. Where
/// the exchange fails nothing else is asked, and the reference is handed back.
pub proof fn law_setting_a_weak_field_keeps_the_counts<T: BStackWeakable, A: BStackRaiiAllocator>(
    ctx: &mut Teardown,
    a: &mut A,
    field_off: u64,
    weak: WeakRef<T>,
    r: Result<(), ReplaceError<WeakRef<T>>>,
)
    requires
        call_ensures(set_weak_field::<T, A>, (ctx, a, field_off, weak), r),
    ensures
        exists|bytes: Seq<u8>, out: Result<Seq<u8>, Error>|
            {
                let swapped = #[trigger] with_swap(old(a).trace(), field_off, bytes, out);
                &&& bytes.len() == 8
                &&& le_value(bytes) == weak@.start
                &&& match out {
                    Err(e) => {
                        &&& final(a).trace() == swapped
                        &&& final(ctx)@ == old(ctx)@
                        &&& r matches Err(x)
                        &&& x.value matches Some(w)
                        &&& w@.start == weak@.start
                    },
                    Ok(b) => field_moved::<T, A>(
                        weak@,
                        *old(ctx),
                        *final(ctx),
                        *old(a),
                        *final(a),
                        swapped,
                        b,
                        r,
                    ),
                }
            },
{
    let before = old(a).trace();
    let t = since(before, final(a).trace());
    lemma_extends(before, final(a).trace());
    let bytes = t[0]->Swap_bytes;
    let out = t[0]->Swap_reply;
    lemma_pow256_4_8();
    lemma_le_value_of_bytes(weak@.start as nat, 8);
    crate::bytes::lemma_le_bytes_len(weak@.start as nat, 8);
    let swapped = with_swap(before, field_off, bytes, out);
    assert(t =~= seq![t[0]] + t.skip(1));
    assert(before + t =~= swapped + t.skip(1));
    if let Ok(b) = out {
        let was = le_value(b) as u64;
        let ctrl = BStackRange { start: was, len: T::spec_control_size() };
        if was != 0 {
            if was + 32 <= u64::MAX {
                let done = choose|done: Result<(), Error>| #[trigger]
                    release_weak_talk(
                        ctrl,
                        old(ctx)@,
                        final(ctx)@,
                        old(a).spec_settings(),
                        t.skip(1),
                        done,
                    ) && (r is Ok <==> done is Ok);
                lemma_weak(
                    ctrl,
                    old(a).spec_settings(),
                    old(ctx)@,
                    swapped,
                    final(ctx)@,
                    t.skip(1),
                    done,
                );
            }
        } else {
            assert(swapped + t.skip(1) =~= swapped);
        }
    } else {
        assert(swapped + t.skip(1) =~= swapped);
    }
}

/// How a weak field was turned into a strong reference: what the field held, and what was asked
/// until the strong count was dealt with.
pub struct Pinned {
    pub found: Result<Seq<u8>, Error>,
    pub counter: Result<Seq<u8>, Error>,
    pub asked: Seq<Event>,
    pub counted: Result<Option<u64>, Error>,
    pub data: Result<Seq<u8>, Error>,
}

/// Whether a strong reference was gained only by counting it in the strong count of the control
/// block that the field names, and leads to the data block that this control block names.
pub open spec fn gained<T: BStackWeakable>(
    field_off: u64,
    asked: Seq<Event>,
    asked_now: Seq<Event>,
    r: Result<Option<Upgraded>, Error>,
    p: Pinned,
) -> bool {
    let looked = with_look(asked, field_off as int, p.found);
    match p.found {
        Err(e) => asked_now == looked && r == Err::<Option<Upgraded>, Error>(e),
        Ok(b) => {
            let ctrl = le_value(b) as u64;
            if ctrl == 0 {
                asked_now == looked && r == Ok::<Option<Upgraded>, Error>(None)
            } else {
                ctrl + 40 <= u64::MAX ==> {
                    &&& counted_if_alive(looked, ctrl + 16, p.asked, p.counted, p.counter)
                    &&& match p.counted {
                        Err(e) => asked_now == p.asked && r == Err::<Option<Upgraded>, Error>(e),
                        Ok(None) => asked_now == p.asked && r == Ok::<Option<Upgraded>, Error>(
                            None,
                        ),
                        Ok(Some(_)) => {
                            &&& asked_now == with_look(p.asked, ctrl + 32, p.data)
                            &&& match p.data {
                                Err(e) => r == Err::<Option<Upgraded>, Error>(e),
                                Ok(d) => {
                                    &&& r matches Ok(Some(u))
                                    &&& u.data.start == le_value(d) as u64
                                    &&& u.data.len == T::spec_on_disk_size()
                                    &&& u.ctrl.start == ctrl
                                    &&& u.ctrl.len == T::spec_control_size()
                                },
                            }
                        },
                    }
                }
            }
        },
    }
}

/// A weak field becomes a strong reference only where one is left, and then that one is counted;
/// the weak count stays.
pub proof fn law_upgrading_counts_one_owner<T: BStackWeakable, A: BStackRaiiAllocator>(
    a: &mut A,
    field_off: u64,
    r: Result<Option<Upgraded>, Error>,
)
    requires
        call_ensures(upgrade_weak_field::<T, A>, (a, field_off), r),
    ensures
        exists|p: Pinned| #[trigger]
            gained::<T>(field_off, old(a).trace(), final(a).trace(), r, p),
{
    let before = old(a).trace();
    let new = final(a).trace();
    let (t1, off) = choose|t1: Seq<Event>, off: Result<u64, Error>| #[trigger]
        loaded(before, t1, field_off, off) && match off {
            Err(e) => new == t1 && r == Err::<Option<Upgraded>, Error>(e),
            Ok(0) => new == t1 && r == Ok::<Option<Upgraded>, Error>(None),
            Ok(off) => if off + 16 > u64::MAX {
                new == t1 && r == Err::<Option<Upgraded>, Error>(Error::BlockOffsetOverflow)
            } else {
                pin_talk::<T>(off, t1, new, r)
            },
        };
    let found = lemma_look(before, t1, field_off, off);
    let none = Pinned {
        found,
        counter: found,
        asked: t1,
        counted: Ok(None),
        data: found,
    };
    if off is Err || off->Ok_0 == 0 || off->Ok_0 + 40 > u64::MAX {
        assert(gained::<T>(field_off, before, new, r, none));
    } else {
        let ctrl = off->Ok_0;
        let (t2, counted) = choose|t2: Seq<Event>, counted: Result<Option<u64>, Error>| #[trigger]
            increment_talk(t1, t2, (ctrl + 16) as u64, counted) && match counted {
                Err(e) => new == t2 && r == Err::<Option<Upgraded>, Error>(e),
                Ok(None) => new == t2 && r == Ok::<Option<Upgraded>, Error>(None),
                Ok(Some(_)) => exists|data: Result<u64, Error>| #[trigger]
                    loaded(t2, new, (ctrl + 32) as u64, data) && r == match data {
                        Err(e) => Err::<Option<Upgraded>, Error>(e),
                        Ok(d) => Ok(
                            Some(
                                Upgraded {
                                    data: BStackRange { start: d, len: T::spec_on_disk_size() },
                                    ctrl: BStackRange { start: ctrl, len: T::spec_control_size() },
                                },
                            ),
                        ),
                    },
            };
        let counter = lemma_increment(t1, (ctrl + 16) as u64, t2, counted);
        if counted is Ok && counted->Ok_0 is Some {
            let data = choose|data: Result<u64, Error>| #[trigger]
                loaded(t2, new, (ctrl + 32) as u64, data) && r == match data {
                    Err(e) => Err::<Option<Upgraded>, Error>(e),
                    Ok(d) => Ok(
                        Some(
                            Upgraded {
                                data: BStackRange { start: d, len: T::spec_on_disk_size() },
                                ctrl: BStackRange { start: ctrl, len: T::spec_control_size() },
                            },
                        ),
                    ),
                };
            let bytes = lemma_look(t2, new, (ctrl + 32) as u64, data);
            assert(gained::<T>(
                field_off,
                before,
                new,
                r,
                Pinned { found, counter, asked: t2, counted, data: bytes },
            ));
        } else {
            assert(gained::<T>(
                field_off,
                before,
                new,
                r,
                Pinned { found, counter, asked: t2, counted, data: found },
            ));
        }
    }
}

/// Whether the counter at `off` was stepped up by one, and `r` says whether that went well.
pub open spec fn counted_up(
    asked: Seq<Event>,
    off: int,
    asked_now: Seq<Event>,
    r: Result<(), Error>,
    reply: Result<u64, Error>,
) -> bool {
    &&& asked_now == with_step(asked, off, CounterOp::Add(1), reply)
    &&& match reply {
        Err(e) => r == Err::<(), Error>(e),
        Ok(n) => r is Ok <==> n < u64::MAX,
    }
}

pub(crate) proof fn lemma_up(
    base: u64,
    delta: u64,
    asked: Seq<Event>,
    t: Seq<Event>,
    r: Result<(), Error>,
)
    requires
        add_one_talk(base, delta, t, r),
        base + delta + 8 <= u64::MAX,
    ensures
        exists|reply: Result<u64, Error>| #[trigger]
            counted_up(asked, base + delta, asked + t, r, reply),
{
    let reply = t[0]->Process_reply;
    assert(asked + t =~= with_step(asked, base + delta, CounterOp::Add(1), reply));
    assert(counted_up(asked, base + delta, asked + t, r, reply));
}

/// Whether one more strong reference to the block at `off` was counted: in the counter of the
/// block, or in that of its control block where it has one.
pub open spec fn share_counted<T: BStackShared>(
    off: u64,
    asked: Seq<Event>,
    now: Seq<Event>,
    r: Result<(), Error>,
) -> bool {
    match T::spec_control() {
        None => exists|reply: Result<u64, Error>| #[trigger]
            counted_up(asked, off + 16, now, r, reply),
        Some(_) => exists|found: Result<Seq<u8>, Error>|
            {
                let looked = #[trigger] with_look(asked, off + 16, found);
                match found {
                    Err(e) => now == looked && r == Err::<(), Error>(e),
                    Ok(b) => {
                        let ctrl = le_value(b) as u64;
                        ctrl + 24 <= u64::MAX ==> exists|reply: Result<u64, Error>| #[trigger]
                            counted_up(looked, ctrl + 16, now, r, reply)
                    },
                }
            },
    }
}

pub(crate) proof fn lemma_share_counted<T: BStackShared>(
    off: u64,
    asked: Seq<Event>,
    t: Seq<Event>,
    r: Result<(), Error>,
    got: Result<Option<BStackRange>, Error>,
    k: int,
)
    requires
        off + 24 <= u64::MAX,
        clone_strong_talk::<T>(
            BStackRange { start: off, len: T::spec_on_disk_size() },
            t,
            r,
            got,
            k,
        ),
    ensures
        share_counted::<T>(off, asked, asked + t, r),
{
    match T::spec_control() {
        None => {
            assert(t.skip(k) =~= t);
            lemma_up(off, 16, asked, t, r);
        },
        Some(_) => {
            let ev = t.take(k)[0];
            assert(ev == t[0]);
            let found = ev->Read_reply;
            let looked = with_look(asked, off + 16, found);
            assert(t =~= seq![ev] + t.skip(1));
            assert(asked + t =~= looked + t.skip(1));
            if let Ok(b) = found {
                let ctrl = le_value(b) as u64;
                if ctrl + 24 <= u64::MAX {
                    lemma_up(ctrl, 16, looked, t.skip(1), r);
                }
            } else {
                assert(looked + t.skip(1) =~= looked);
            }
        },
    }
}

/// Copying a strong reference counts one more owner, in the counter in which its release counts
/// one less: that of the block, or that of its control block where it has one.
pub proof fn law_a_copied_strong_reference_is_counted<T: BStackShared, A: BStackRaiiAllocator>(
    a: &mut A,
    off: u64,
    r: Result<(), Error>,
)
    requires
        call_ensures(foreign_clone_strong::<T, A>, (a, off), r),
        off + 24 <= u64::MAX,
    ensures
        share_counted::<T>(off, old(a).trace(), final(a).trace(), r),
{
    let t = since(old(a).trace(), final(a).trace());
    lemma_extends(old(a).trace(), final(a).trace());
    let data = BStackRange { start: off, len: T::spec_on_disk_size() };
    let (got, k) = choose|got: Result<Option<BStackRange>, Error>, k: int| #[trigger]
        clone_strong_talk::<T>(data, t, r, got, k);
    lemma_share_counted::<T>(off, old(a).trace(), t, r, got, k);
}

/// Copying a weak reference counts one more, in the counter in which its release counts one
/// less.
pub proof fn law_a_copied_weak_reference_is_counted<A: BStackRaiiAllocator>(
    a: &mut A,
    ctrl: u64,
    r: Result<(), Error>,
)
    requires
        call_ensures(foreign_clone_weak::<A>, (a, ctrl), r),
        ctrl + 32 <= u64::MAX,
    ensures
        exists|reply: Result<u64, Error>| #[trigger]
            counted_up(old(a).trace(), ctrl + 24, final(a).trace(), r, reply),
{
    lemma_extends(old(a).trace(), final(a).trace());
    lemma_up(ctrl, 24, old(a).trace(), since(old(a).trace(), final(a).trace()), r);
}

/// A weak reference whose counter cannot be is not copied, and nothing is asked.
pub proof fn law_an_impossible_weak_reference_is_not_copied<A: BStackRaiiAllocator>(
    a: &mut A,
    ctrl: u64,
    r: Result<(), Error>,
)
    requires
        ctrl + 32 > u64::MAX,
        call_ensures(foreign_clone_weak::<A>, (a, ctrl), r),
    ensures
        final(a).trace() == old(a).trace(),
        r == Err::<(), Error>(
            if ctrl + 24 > u64::MAX {
                Error::BlockOffsetOverflow
            } else {
                Error::RefcountOffsetOverflow
            },
        ),
{
    lemma_extends(old(a).trace(), final(a).trace());
    assert(old(a).trace() + since(old(a).trace(), final(a).trace()) =~= old(a).trace());
}

/// A counter that would end past all offsets is not stepped, and nothing is asked.
pub proof fn law_a_counter_past_the_end_is_not_stepped<A: BStackRaiiAllocator>(
    a: &mut A,
    off: u64,
    delta: u64,
    r: Result<u64, Error>,
)
    requires
        off + 8 > u64::MAX,
        call_ensures(fetch_add::<A>, (a, off, delta), r) || call_ensures(
            fetch_sub::<A>,
            (a, off, delta),
            r,
        ),
    ensures
        final(a).trace() == old(a).trace(),
        r == Err::<u64, Error>(Error::RefcountOffsetOverflow),
{
}

/// A reference whose counter would end past all offsets is not counted: the counter is looked at,
/// and no step follows.
pub proof fn law_a_reference_past_the_end_is_not_counted<A: BStackRaiiAllocator>(
    a: &mut A,
    off: u64,
    r: Result<Option<u64>, Error>,
)
    requires
        off + 8 > u64::MAX,
        call_ensures(increment_if_nonzero::<A>, (a, off), r),
    ensures
        exists|found: Result<Seq<u8>, Error>|
            final(a).trace() == #[trigger] with_look(old(a).trace(), off as int, found)
                && match found {
                Err(e) => r == Err::<Option<u64>, Error>(e),
                Ok(b) => r == (if le_value(b) as u64 == 0 {
                    Ok::<Option<u64>, Error>(None)
                } else {
                    Err(Error::RefcountOffsetOverflow)
                }),
            },
{
    let asked = old(a).trace();
    let now = final(a).trace();
    let found = now.last()->Read_reply;
    assert(now.take((asked.len() + 1) as int).last() == now.last());
    assert(now =~= with_look(asked, off as int, found));
}

} // verus!
