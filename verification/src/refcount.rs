//! Counters in the file, changed in one indivisible step each.
use vstd::prelude::*;

use crate::allocator::{BStackRaiiAllocator, CounterOp, Event};
use crate::bytes::{get_u64, le_value};
use crate::error::Error;

verus! {

/// Set the counter at `offset` to `new` if it is `expected`, and say whether it was.
pub fn cas<A: BStackRaiiAllocator>(a: &mut A, offset: u64, expected: u64, new: u64) -> (r: Result<
    bool,
    Error,
>)
    ensures
        final(a).spec_settings() == old(a).spec_settings(),
        final(a).trace() == old(a).trace().push(Event::Cas { off: offset, expected, new, reply: r }),
{
    a.cas(offset, expected, new)
}

/// What a read of eight bytes says of a counter.
pub open spec fn counter_of(reply: Result<Seq<u8>, Error>) -> Result<u64, Error> {
    match reply {
        Ok(b) => Ok(le_value(b) as u64),
        Err(e) => Err(e),
    }
}

/// Whether the conversation `new` is `before` with one more read of the counter at `off`, and
/// `r` is what it says.
pub open spec fn loaded(before: Seq<Event>, new: Seq<Event>, off: u64, r: Result<u64, Error>) -> bool {
    &&& new.len() == before.len() + 1
    &&& new.drop_last() == before
    &&& new.last() matches Event::Read { off: o, len, reply }
    &&& o == off && len == 8
    &&& r == counter_of(reply)
}

/// The counter at `offset`.
pub fn load<A: BStackRaiiAllocator>(a: &mut A, offset: u64) -> (r: Result<u64, Error>)
    ensures
        final(a).spec_settings() == old(a).spec_settings(),
        loaded(old(a).trace(), final(a).trace(), offset, r),
{
    let ghost before = a.trace();
    let got = a.get(offset, 8);
    assert(a.trace().drop_last() =~= before);
    match got {
        Err(e) => Err(e),
        Ok(buf) => {
            assert(buf@.subrange(0, 8) =~= buf@);
            Ok(get_u64(buf.as_slice()))
        },
    }
}

/// Whether `new` is `before` with one more step `op` on the counter at `off`, answered by
/// `reply`.
pub open spec fn stepped(
    before: Seq<Event>,
    new: Seq<Event>,
    off: u64,
    op: CounterOp,
    reply: Result<u64, Error>,
) -> bool {
    new == before.push(Event::Process { off, op, reply })
}

/// What [`fetch_add`] makes of the value before the step.
pub open spec fn add_result(reply: Result<u64, Error>, delta: u64) -> Result<u64, Error> {
    match reply {
        Err(e) => Err(e),
        Ok(prev) => if prev + delta > u64::MAX {
            Err(Error::RefcountOverflow)
        } else {
            Ok(prev)
        },
    }
}

/// What [`fetch_sub`] makes of the value before the step.
pub open spec fn sub_result(reply: Result<u64, Error>, delta: u64) -> Result<u64, Error> {
    match reply {
        Err(e) => Err(e),
        Ok(prev) => if prev < delta {
            Err(Error::RefcountUnderflow)
        } else {
            Ok(prev)
        },
    }
}

/// The reply of the last step on a counter.
pub open spec fn step_reply(t: Seq<Event>) -> Result<u64, Error> {
    t.last()->Process_reply
}

/// Add `delta` to the counter at `offset`, and return what it was. Where the sum does not fit
/// the counter stays, and the call fails.
pub fn fetch_add<A: BStackRaiiAllocator>(a: &mut A, offset: u64, delta: u64) -> (r: Result<
    u64,
    Error,
>)
    ensures
        final(a).spec_settings() == old(a).spec_settings(),
        if offset + 8 > u64::MAX {
            final(a).trace() == old(a).trace() && r == Err::<u64, Error>(
                Error::RefcountOffsetOverflow,
            )
        } else {
            &&& stepped(
                old(a).trace(),
                final(a).trace(),
                offset,
                CounterOp::Add(delta),
                step_reply(final(a).trace()),
            )
            &&& r == add_result(step_reply(final(a).trace()), delta)
        },
{
    if offset > u64::MAX - 8 {
        return Err(Error::RefcountOffsetOverflow);
    }
    match a.process(offset, CounterOp::Add(delta)) {
        Err(e) => Err(e),
        Ok(prev) => if prev.checked_add(delta).is_none() {
            Err(Error::RefcountOverflow)
        } else {
            Ok(prev)
        },
    }
}

/// Subtract `delta` from the counter at `offset`, and return what it was. Where the difference
/// is negative the counter stays, and the call fails.
pub fn fetch_sub<A: BStackRaiiAllocator>(a: &mut A, offset: u64, delta: u64) -> (r: Result<
    u64,
    Error,
>)
    ensures
        final(a).spec_settings() == old(a).spec_settings(),
        if offset + 8 > u64::MAX {
            final(a).trace() == old(a).trace() && r == Err::<u64, Error>(
                Error::RefcountOffsetOverflow,
            )
        } else {
            &&& stepped(
                old(a).trace(),
                final(a).trace(),
                offset,
                CounterOp::Sub(delta),
                step_reply(final(a).trace()),
            )
            &&& r == sub_result(step_reply(final(a).trace()), delta)
        },
{
    if offset > u64::MAX - 8 {
        return Err(Error::RefcountOffsetOverflow);
    }
    match a.process(offset, CounterOp::Sub(delta)) {
        Err(e) => Err(e),
        Ok(prev) => if prev < delta {
            Err(Error::RefcountUnderflow)
        } else {
            Ok(prev)
        },
    }
}

/// What the step of [`increment_if_nonzero`] yields.
pub open spec fn increment_result(reply: Result<u64, Error>) -> Result<Option<u64>, Error> {
    match reply {
        Err(e) => Err(e),
        Ok(0) => Ok(None),
        Ok(prev) => if prev == u64::MAX {
            Err(Error::RefcountOverflow)
        } else {
            Ok(Some((prev + 1) as u64))
        },
    }
}

/// The conversation of [`increment_if_nonzero`]: look first, and take the step only if there
/// is something to count.
pub open spec fn increment_talk(
    before: Seq<Event>,
    new: Seq<Event>,
    offset: u64,
    r: Result<Option<u64>, Error>,
) -> bool {
    let look = new.take((before.len() + 1) as int);
    &&& before.len() < new.len()
    &&& look.drop_last() == before
    &&& look.last() matches Event::Read { off: o, len, reply }
    &&& o == offset && len == 8
    &&& match counter_of(reply) {
        Err(e) => new == look && r == Err::<Option<u64>, Error>(e),
        Ok(0) => new == look && r == Ok::<Option<u64>, Error>(None),
        Ok(_) => if offset + 8 > u64::MAX {
            new == look && r == Err::<Option<u64>, Error>(Error::RefcountOffsetOverflow)
        } else {
            &&& stepped(look, new, offset, CounterOp::IncrementIfNonzero, step_reply(new))
            &&& r == increment_result(step_reply(new))
        },
    }
}

/// Add one to the counter at `offset` unless it is zero, and return what it is now; `None`
/// where it is zero. A counter that is zero never leaves it again.
pub fn increment_if_nonzero<A: BStackRaiiAllocator>(a: &mut A, offset: u64) -> (r: Result<
    Option<u64>,
    Error,
>)
    ensures
        final(a).spec_settings() == old(a).spec_settings(),
        increment_talk(old(a).trace(), final(a).trace(), offset, r),
{
    let ghost before = a.trace();
    let seen = load(a, offset);
    let ghost look = a.trace();
    assert(look.take((before.len() + 1) as int) =~= look);
    match seen {
        Err(e) => {
            return Err(e);
        },
        Ok(v) => {
            if v == 0 {
                return Ok(None);
            }
        },
    }
    if offset > u64::MAX - 8 {
        return Err(Error::RefcountOffsetOverflow);
    }
    let stepped_to = a.process(offset, CounterOp::IncrementIfNonzero);
    assert(a.trace().take((before.len() + 1) as int) =~= look);
    match stepped_to {
        Err(e) => Err(e),
        Ok(prev) => if prev == 0 {
            Ok(None)
        } else if prev == u64::MAX {
            Err(Error::RefcountOverflow)
        } else {
            Ok(Some(prev + 1))
        },
    }
}

/// A step that fails leaves the counter as it was; one that succeeds changes it by exactly
/// what was asked.
pub proof fn law_failed_step_leaves_the_counter(cur: u64, delta: u64)
    ensures
        match add_result(Ok(cur), delta) {
            Ok(prev) => prev == cur && CounterOp::Add(delta).spec_apply(cur) == cur + delta,
            Err(_) => CounterOp::Add(delta).spec_apply(cur) == cur,
        },
        match sub_result(Ok(cur), delta) {
            Ok(prev) => prev == cur && CounterOp::Sub(delta).spec_apply(cur) == cur - delta,
            Err(_) => CounterOp::Sub(delta).spec_apply(cur) == cur,
        },
        match increment_result(Ok(cur)) {
            Ok(Some(now)) => CounterOp::IncrementIfNonzero.spec_apply(cur) == now && now == cur + 1,
            _ => CounterOp::IncrementIfNonzero.spec_apply(cur) == cur,
        },
{
}

/// A counter that is zero is never revived by [`increment_if_nonzero`].
pub proof fn law_zero_is_never_revived()
    ensures
        CounterOp::IncrementIfNonzero.spec_apply(0) == 0,
        increment_result(Ok(0)) == Ok::<Option<u64>, Error>(None),
{
}

/// What is added and taken away again is gone.
pub proof fn law_sub_undoes_add(cur: u64, delta: u64)
    requires
        cur + delta <= u64::MAX,
    ensures
        CounterOp::Sub(delta).spec_apply(CounterOp::Add(delta).spec_apply(cur)) == cur,
{
}

} // verus!
