//! The fields of a block: reading, setting and replacing what they refer to.
//!
//! A field that refers to a block holds the offset of that block; `0` is none. Every change of
//! a field is one indivisible write. Where a value is put in place and the old one handed out,
//! the new value is never lost: it is in the field, or it is given back.
use vstd::prelude::*;
use vstd::slice::slice_subrange;

use crate::allocator::{
    bytes_view, extends, lemma_extends, lemma_since, since, BStackRaiiAllocator, Event,
};
use crate::bytes::{
    get_u64, get_u64_at, le_bytes, le_value, lemma_le_bytes_len, lemma_le_value_of_bytes,
    lemma_pow256_4_8, u64_le,
};
use crate::error::Error;
use crate::foreign::{parts_talk, strong_parts, WidePtr};
use crate::handback::ReplaceError;
use crate::range::{BStackRange, FileId};
use crate::traits::BStackShared;

verus! {

/// What a field holds for a reference to `v`.
pub open spec fn slot_of(v: Option<BStackRange>) -> u64 {
    match v {
        Some(range) => range.start,
        None => 0,
    }
}

/// What a field that holds `off` refers to, where the target takes `size` bytes. In a field
/// that can be empty `0` is nothing.
pub open spec fn target_of(off: u64, size: u64, nullable: bool) -> Option<BStackRange> {
    if nullable && off == 0 {
        None
    } else {
        Some(BStackRange { start: off, len: size })
    }
}

/// What a field holds for a reference to `v`.
pub fn slot_value(v: &Option<BStackRange>) -> (r: u64)
    ensures
        r == slot_of(*v),
{
    match v {
        Some(range) => range.start,
        None => 0,
    }
}

/// What a field that holds `off` refers to, where the target takes `size` bytes.
pub fn target(off: u64, size: u64, nullable: bool) -> (r: Option<BStackRange>)
    ensures
        r == target_of(off, size, nullable),
{
    if nullable && off == 0 {
        None
    } else {
        Some(BStackRange::new(off, size))
    }
}

/// What is written into a field is read back as the same reference, to the same place: the
/// field of a real block is never `0`.
pub proof fn law_slot_round_trip(v: Option<BStackRange>, size: u64, nullable: bool)
    requires
        v matches Some(range) ==> range.len == size && range.start != 0,
        v is None ==> nullable,
    ensures
        target_of(slot_of(v), size, nullable) == v,
        le_value(le_bytes(slot_of(v) as nat, 8)) == slot_of(v),
{
    lemma_pow256_4_8();
    lemma_le_value_of_bytes(slot_of(v) as nat, 8);
}

/// The conversation that reads a field of the block at `block`, at `at` in it.
pub open spec fn get_talk(
    block: BStackRange,
    at: u64,
    size: u64,
    nullable: bool,
    t: Seq<Event>,
    r: Result<Option<BStackRange>, Error>,
) -> bool {
    &&& t.len() == 1
    &&& t[0] matches Event::Read { off, len, reply }
    &&& off == block.start && len == block.len
    &&& r == match reply {
        Err(e) => Err::<Option<BStackRange>, Error>(e),
        Ok(b) => Ok(
            target_of(le_value(b.subrange(at as int, at + 8)) as u64, size, nullable),
        ),
    }
}

/// The target of the field at `at` of the block at `block`.
pub fn get_field<A: BStackRaiiAllocator>(
    a: &mut A,
    block: BStackRange,
    at: u64,
    size: u64,
    nullable: bool,
) -> (r: Result<Option<BStackRange>, Error>)
    requires
        at + 8 <= block.len <= usize::MAX,
    ensures
        final(a).spec_settings() == old(a).spec_settings(),
        extends(old(a).trace(), final(a).trace()),
        get_talk(block, at, size, nullable, since(old(a).trace(), final(a).trace()), r),
{
    let ghost before = a.trace();
    let got = a.get(block.start, block.len);
    proof {
        let t = seq![Event::Read { off: block.start, len: block.len, reply: bytes_view(got) }];
        assert(a.trace() =~= before + t);
        lemma_since(before, t);
    }
    match got {
        Err(e) => Err(e),
        Ok(buf) => {
            let off: u64 = get_u64_at(buf.as_slice(), at as usize);
            Ok(target(off, size, nullable))
        },
    }
}

/// The bytes of the field of `width` bytes at `at` of the block at `block`.
pub fn get_pod<A: BStackRaiiAllocator>(a: &mut A, block: BStackRange, at: u64, width: u64) -> (r:
    Result<Vec<u8>, Error>)
    requires
        at + width <= block.len <= usize::MAX,
    ensures
        final(a).spec_settings() == old(a).spec_settings(),
        exists|reply: Result<Seq<u8>, Error>|
            {
                &&& #[trigger] old(a).trace().push(
                    Event::Read { off: block.start, len: block.len, reply },
                ) == final(a).trace()
                &&& match reply {
                    Err(e) => r matches Err(x) && x == e,
                    Ok(b) => r matches Ok(v) && v@ == b.subrange(at as int, at + width),
                }
            },
{
    let ghost before = a.trace();
    let got = a.get(block.start, block.len);
    assert(a.trace() == before.push(
        Event::Read { off: block.start, len: block.len, reply: bytes_view(got) },
    ));
    match got {
        Err(e) => Err(e),
        Ok(buf) => {
            let mut out: Vec<u8> = Vec::new();
            out.extend_from_slice(
                slice_subrange(buf.as_slice(), at as usize, (at + width) as usize),
            );
            assert(out@ =~= buf@.subrange(at as int, at + width));
            Ok(out)
        },
    }
}

/// Overwrite a field that owns nothing, plain bytes or a borrowed reference.
pub fn set_pod<A: BStackRaiiAllocator>(a: &mut A, off: u64, value: Vec<u8>) -> (r: Result<(), Error>)
    ensures
        final(a).spec_settings() == old(a).spec_settings(),
        final(a).trace() == old(a).trace().push(
            Event::Write { off, bytes: value@, reply: r },
        ),
{
    a.set(off, value)
}

/// Let the field at `off` refer to `value`, or to nothing. What it referred to is only
/// borrowed, so nothing is released.
pub fn set_ref<A: BStackRaiiAllocator>(a: &mut A, off: u64, value: Option<BStackRange>) -> (r:
    Result<(), Error>)
    ensures
        final(a).spec_settings() == old(a).spec_settings(),
        final(a).trace() == old(a).trace().push(
            Event::Write { off, bytes: le_bytes(slot_of(value) as nat, 8), reply: r },
        ),
{
    a.set(off, u64_le(slot_value(&value)))
}

/// The conversation that replaces the target of the field at `off`: read the old one, write
/// the new one, and hand the old one out.
pub open spec fn replace_talk(
    off: u64,
    value: Option<BStackRange>,
    size: u64,
    nullable: bool,
    t: Seq<Event>,
    r: Result<Option<BStackRange>, ReplaceError<Option<BStackRange>>>,
) -> bool {
    &&& t.len() >= 1
    &&& t[0] matches Event::Read { off: o0, len: l0, reply: r0 }
    &&& o0 == off && l0 == 8
    &&& match r0 {
        Err(e) => t.len() == 1 && r == Err::<
            Option<BStackRange>,
            ReplaceError<Option<BStackRange>>,
        >(ReplaceError { source: e, value: Some(value) }),
        Ok(b) => {
            &&& t.len() == 2
            &&& t[1] matches Event::Write { off: o1, bytes: b1, reply: r1 }
            &&& o1 == off
            &&& b1 == le_bytes(slot_of(value) as nat, 8)
            &&& r == match r1 {
                Err(e) => Err::<Option<BStackRange>, ReplaceError<Option<BStackRange>>>(
                    ReplaceError { source: e, value: Some(value) },
                ),
                Ok(_) => Ok(target_of(le_value(b) as u64, size, nullable)),
            }
        },
    }
}

/// Put `value` into the field at `off`, and hand out what it referred to. Where that fails
/// `value` is given back.
pub fn replace_field<A: BStackRaiiAllocator>(
    a: &mut A,
    off: u64,
    value: Option<BStackRange>,
    size: u64,
    nullable: bool,
) -> (r: Result<Option<BStackRange>, ReplaceError<Option<BStackRange>>>)
    requires
        nullable || value is Some,
    ensures
        final(a).spec_settings() == old(a).spec_settings(),
        extends(old(a).trace(), final(a).trace()),
        replace_talk(off, value, size, nullable, since(old(a).trace(), final(a).trace()), r),
{
    let ghost before = a.trace();
    let got = a.get(off, 8);
    let ghost mut t: Seq<Event> = seq![Event::Read { off, len: 8, reply: bytes_view(got) }];
    proof {
        assert(a.trace() =~= before + t);
        lemma_since(before, t);
    }
    let was: u64 = match got {
        Err(e) => {
            return Err(ReplaceError::recovered(e, value));
        },
        Ok(b) => {
            assert(b@.subrange(0, 8) =~= b@);
            get_u64(b.as_slice())
        },
    };
    let wrote = a.set(off, u64_le(slot_value(&value)));
    proof {
        t = t.push(
            Event::Write { off, bytes: le_bytes(slot_of(value) as nat, 8), reply: wrote },
        );
        assert(a.trace() =~= before + t);
        lemma_since(before, t);
    }
    if let Err(e) = wrote {
        return Err(ReplaceError::recovered(e, value));
    }
    Ok(target(was, size, nullable))
}

/// Whether no write in `t` succeeded.
pub open spec fn nothing_written(t: Seq<Event>) -> bool {
    forall|i: int|
        0 <= i < t.len() ==> {
            &&& (#[trigger] t[i] matches Event::Write { off: _, bytes: _, reply } ==> reply is Err)
            &&& (t[i] matches Event::Swap { off: _, bytes: _, reply } ==> reply is Err)
        }
}

/// A replacement that fails gives the new value back and leaves the field as it was.
pub proof fn law_replace_never_loses_the_new_value(
    off: u64,
    value: Option<BStackRange>,
    size: u64,
    nullable: bool,
    t: Seq<Event>,
    e: ReplaceError<Option<BStackRange>>,
)
    requires
        replace_talk(off, value, size, nullable, t, Err(e)),
    ensures
        e.value == Some(value),
        nothing_written(t),
{
}

/// Replacing twice hands the first new value out again: what was put in comes out.
pub proof fn law_replace_hands_out_what_was_put_in(
    off: u64,
    v: Option<BStackRange>,
    w: Option<BStackRange>,
    size: u64,
    nullable: bool,
    t2: Seq<Event>,
    out: Option<BStackRange>,
)
    requires
        v matches Some(range) ==> range.len == size && range.start != 0,
        v is None ==> nullable,
        replace_talk(off, w, size, nullable, t2, Ok(out)),
        t2[0]->Read_reply == Ok::<Seq<u8>, Error>(le_bytes(slot_of(v) as nat, 8)),
    ensures
        out == v,
{
    law_slot_round_trip(v, size, nullable);
}

/// A strong reference: the data block, and the control block if there is one.
#[derive(Clone, Copy, Debug, PartialEq, Eq, Structural)]
pub struct Strong {
    pub data: BStackRange,
    pub ctrl: Option<BStackRange>,
}

/// The data block of a strong reference that may be absent.
pub open spec fn data_of(v: Option<Strong>) -> Option<BStackRange> {
    match v {
        Some(s) => Some(s.data),
        None => None,
    }
}

/// The end of a conversation that replaces a strong reference: the new one is written, and the
/// `old` one handed out.
pub open spec fn put_strong_talk(
    off: u64,
    value: Option<Strong>,
    old: Option<Strong>,
    t: Seq<Event>,
    r: Result<Option<Strong>, ReplaceError<Option<Strong>>>,
) -> bool {
    &&& t.len() == 1
    &&& t[0] matches Event::Write { off: o, bytes, reply }
    &&& o == off
    &&& bytes == le_bytes(slot_of(data_of(value)) as nat, 8)
    &&& r == match reply {
        Err(e) => Err::<Option<Strong>, ReplaceError<Option<Strong>>>(
            ReplaceError { source: e, value: Some(value) },
        ),
        Ok(_) => Ok(old),
    }
}

/// The part of the conversation that is about the old reference to the block at `data`: its
/// control block is looked up in the first `k` events, which ends in `found`, and only then is
/// anything written.
pub open spec fn swap_strong_talk<T: BStackShared>(
    off: u64,
    value: Option<Strong>,
    data: BStackRange,
    t: Seq<Event>,
    r: Result<Option<Strong>, ReplaceError<Option<Strong>>>,
    k: int,
    found: Result<Option<BStackRange>, Error>,
) -> bool {
    &&& 0 <= k <= t.len()
    &&& parts_talk::<T>(data, t.take(k), found)
    &&& match found {
        Err(e) => k == t.len() && r == Err::<Option<Strong>, ReplaceError<Option<Strong>>>(
            ReplaceError { source: e, value: Some(value) },
        ),
        Ok(ctrl) => put_strong_talk(off, value, Some(Strong { data, ctrl }), t.skip(k), r),
    }
}

/// The conversation that replaces a strong reference: read the old one, look up its control
/// block, write the new one, and hand the old one out.
pub open spec fn replace_strong_talk<T: BStackShared>(
    off: u64,
    value: Option<Strong>,
    nullable: bool,
    t: Seq<Event>,
    r: Result<Option<Strong>, ReplaceError<Option<Strong>>>,
) -> bool {
    &&& t.len() >= 1
    &&& t[0] matches Event::Read { off: o0, len: l0, reply: r0 }
    &&& o0 == off && l0 == 8
    &&& match r0 {
        Err(e) => t.len() == 1 && r == Err::<Option<Strong>, ReplaceError<Option<Strong>>>(
            ReplaceError { source: e, value: Some(value) },
        ),
        Ok(b) => match target_of(le_value(b) as u64, T::spec_on_disk_size(), nullable) {
            None => put_strong_talk(off, value, None, t.skip(1), r),
            Some(data) => exists|k: int, found: Result<Option<BStackRange>, Error>| #[trigger]
                swap_strong_talk::<T>(off, value, data, t.skip(1), r, k, found),
        },
    }
}

/// Put the strong reference `value` into the field at `off`, and hand out the one it held. Where
/// that fails `value` is given back, and the field is as it was.
pub fn replace_strong<T: BStackShared, A: BStackRaiiAllocator>(
    a: &mut A,
    off: u64,
    value: Option<Strong>,
    nullable: bool,
) -> (r: Result<Option<Strong>, ReplaceError<Option<Strong>>>)
    requires
        nullable || value is Some,
    ensures
        final(a).spec_settings() == old(a).spec_settings(),
        extends(old(a).trace(), final(a).trace()),
        replace_strong_talk::<T>(
            off,
            value,
            nullable,
            since(old(a).trace(), final(a).trace()),
            r,
        ),
{
    let ghost before = a.trace();
    let got = a.get(off, 8);
    let ghost t0: Seq<Event> = seq![Event::Read { off, len: 8, reply: bytes_view(got) }];
    proof {
        assert(a.trace() =~= before + t0);
        lemma_since(before, t0);
    }
    let was: u64 = match got {
        Err(e) => {
            return Err(ReplaceError::recovered(e, value));
        },
        Ok(b) => {
            assert(b@.subrange(0, 8) =~= b@);
            get_u64(b.as_slice())
        },
    };
    let ghost mid = a.trace();
    let ghost mut t1: Seq<Event> = Seq::empty();
    let ghost mut found: Result<Option<BStackRange>, Error> = Ok(None);
    let gone = target(was, T::on_disk_size(), nullable);
    let out: Option<Strong> = match gone {
        None => {
            assert(a.trace() =~= before + (t0 + t1));
            None
        },
        Some(data) => {
            let parts = strong_parts::<T, A>(a, data);
            proof {
                lemma_extends(mid, a.trace());
                t1 = since(mid, a.trace());
                found = parts;
                assert(a.trace() =~= before + (t0 + t1));
                lemma_since(before, t0 + t1);
                assert((t0 + t1).skip(1) =~= t1);
                assert(t1.take(t1.len() as int) =~= t1);
            }
            match parts {
                Err(e) => {
                    let r = Err(ReplaceError::recovered(e, value));
                    assert(swap_strong_talk::<T>(
                        off,
                        value,
                        data,
                        t1,
                        r,
                        t1.len() as int,
                        found,
                    ));
                    return r;
                },
                Ok(ctrl) => Some(Strong { data, ctrl }),
            }
        },
    };
    let new: u64 = match &value {
        Some(s) => s.data.start,
        None => 0,
    };
    let wrote = a.set(off, u64_le(new));
    let r = match wrote {
        Err(e) => Err(ReplaceError::recovered(e, value)),
        Ok(_) => Ok(out),
    };
    proof {
        let t2 = seq![Event::Write { off, bytes: le_bytes(new as nat, 8), reply: wrote }];
        let t = t0 + t1 + t2;
        let k = t1.len() as int;
        assert(a.trace() =~= before + t);
        lemma_since(before, t);
        assert(t.skip(1) =~= t1 + t2);
        assert((t1 + t2).take(k) =~= t1);
        assert((t1 + t2).skip(k) =~= t2);
        assert(put_strong_talk(off, value, out, t2, r));
        match gone {
            None => {
                assert(t.skip(1) =~= t2);
            },
            Some(data) => {
                assert(swap_strong_talk::<T>(off, value, data, t.skip(1), r, k, found));
            },
        }
    }
    r
}

/// A strong replacement that fails gives the new value back and leaves the field as it was.
pub proof fn law_strong_replace_never_loses_the_new_value<T: BStackShared>(
    off: u64,
    value: Option<Strong>,
    nullable: bool,
    t: Seq<Event>,
    e: ReplaceError<Option<Strong>>,
)
    requires
        replace_strong_talk::<T>(off, value, nullable, t, Err(e)),
    ensures
        e.value == Some(value),
        nothing_written(t),
{
    let rest = t.skip(1);
    assert forall|i: int| 1 <= i < t.len() implies #[trigger] t[i] == rest[i - 1] by {}
    if t[0]->Read_reply is Ok {
        let was = le_value(t[0]->Read_reply->Ok_0) as u64;
        if let Some(data) = target_of(was, T::spec_on_disk_size(), nullable) {
            let (k, found) = choose|k: int, found: Result<Option<BStackRange>, Error>| #[trigger]
                swap_strong_talk::<T>(off, value, data, rest, Err(e), k, found);
            assert forall|i: int| 0 <= i < k implies (#[trigger] rest[i]) is Read by {
                assert(rest.take(k)[i] == rest[i]);
            }
            assert forall|i: int| k <= i < rest.len() implies #[trigger] rest[i] == rest.skip(
                k,
            )[i - k] by {}
        }
    }
}

/// What a strong replacement puts into the field, the next one hands out again, where the file
/// still says which its control block is.
pub proof fn law_strong_replace_hands_out_what_was_put_in<T: BStackShared>(
    off: u64,
    v: Option<Strong>,
    w: Option<Strong>,
    nullable: bool,
    t2: Seq<Event>,
    out: Option<Strong>,
)
    requires
        v matches Some(s) ==> s.data.len == T::spec_on_disk_size() && s.data.start != 0,
        v is None ==> nullable,
        replace_strong_talk::<T>(off, w, nullable, t2, Ok(out)),
        t2[0]->Read_reply == Ok::<Seq<u8>, Error>(le_bytes(slot_of(data_of(v)) as nat, 8)),
        v matches Some(s) ==> match T::spec_control() {
            None => s.ctrl is None,
            Some(size) => t2[1] matches Event::Read { off: _, len: _, reply: Ok(b) } && s.ctrl
                == Some(BStackRange { start: le_value(b) as u64, len: size }),
        },
    ensures
        out == v,
{
    law_slot_round_trip(data_of(v), T::spec_on_disk_size(), nullable);
    let rest = t2.skip(1);
    if let Some(s) = v {
        let (k, found) = choose|k: int, found: Result<Option<BStackRange>, Error>| #[trigger]
            swap_strong_talk::<T>(off, w, s.data, rest, Ok(out), k, found);
        assert(swap_strong_talk::<T>(off, w, s.data, rest, Ok(out), k, found));
        if k > 0 {
            assert(rest.take(k)[0] == t2[1]);
        }
    }
}

/// The bytes of an array of references.
pub open spec fn slots_image(vs: Seq<Option<BStackRange>>) -> Seq<u8>
    decreases vs.len(),
{
    if vs.len() == 0 {
        Seq::empty()
    } else {
        slots_image(vs.drop_last()) + le_bytes(slot_of(vs.last()) as nat, 8)
    }
}

/// The references that an array of `n` fields holds.
pub open spec fn targets_of(b: Seq<u8>, n: nat, size: u64, nullable: bool) -> Seq<
    Option<BStackRange>,
> {
    Seq::new(
        n,
        |i: int| target_of(le_value(b.subrange(8 * i, 8 * i + 8)) as u64, size, nullable),
    )
}

pub proof fn lemma_slots_image(vs: Seq<Option<BStackRange>>)
    ensures
        slots_image(vs).len() == 8 * vs.len(),
        forall|i: int|
            0 <= i < vs.len() ==> #[trigger] slots_image(vs).subrange(8 * i, 8 * i + 8) == le_bytes(
                slot_of(vs[i]) as nat,
                8,
            ),
    decreases vs.len(),
{
    if vs.len() > 0 {
        let init = vs.drop_last();
        lemma_slots_image(init);
        lemma_le_bytes_len(slot_of(vs.last()) as nat, 8);
        assert forall|i: int| 0 <= i < vs.len() implies #[trigger] slots_image(vs).subrange(
            8 * i,
            8 * i + 8,
        ) == le_bytes(slot_of(vs[i]) as nat, 8) by {
            if i < init.len() {
                assert(slots_image(vs).subrange(8 * i, 8 * i + 8) =~= slots_image(init).subrange(
                    8 * i,
                    8 * i + 8,
                ));
            } else {
                assert(slots_image(vs).subrange(8 * i, 8 * i + 8) =~= le_bytes(
                    slot_of(vs[i]) as nat,
                    8,
                ));
            }
        }
    }
}

/// An array of references is read back as it was written, in the same order.
pub proof fn law_array_round_trip(vs: Seq<Option<BStackRange>>, size: u64, nullable: bool)
    requires
        forall|i: int|
            0 <= i < vs.len() ==> match #[trigger] vs[i] {
                Some(range) => range.len == size && range.start != 0,
                None => nullable,
            },
    ensures
        targets_of(slots_image(vs), vs.len(), size, nullable) == vs,
{
    lemma_slots_image(vs);
    let back = targets_of(slots_image(vs), vs.len(), size, nullable);
    assert forall|i: int| 0 <= i < vs.len() implies back[i] == vs[i] by {
        assert(slots_image(vs).subrange(8 * i, 8 * i + 8) == le_bytes(slot_of(vs[i]) as nat, 8));
        law_slot_round_trip(vs[i], size, nullable);
    }
    assert(back =~= vs);
}

pub(crate) fn slots_bytes(vs: &Vec<Option<BStackRange>>) -> (r: Vec<u8>)
    ensures
        r@ == slots_image(vs@),
{
    let mut out: Vec<u8> = Vec::new();
    let mut i: usize = 0;
    while i < vs.len()
        invariant
            i <= vs@.len(),
            out@ == slots_image(vs@.take(i as int)),
        decreases vs@.len() - i,
    {
        out.extend_from_slice(u64_le(slot_value(&vs[i])).as_slice());
        i += 1;
        assert(vs@.take(i as int).drop_last() =~= vs@.take(i - 1));
    }
    assert(vs@.take(i as int) =~= vs@);
    out
}

pub(crate) fn slots_read(b: &[u8], at: usize, n: usize, size: u64, nullable: bool) -> (r: Vec<
    Option<BStackRange>,
>)
    requires
        at + 8 * n <= b@.len(),
    ensures
        r@ == targets_of(b@.subrange(at as int, at + 8 * n), n as nat, size, nullable),
{
    let ghost part = b@.subrange(at as int, at + 8 * n);
    let mut out: Vec<Option<BStackRange>> = Vec::new();
    let mut i: usize = 0;
    while i < n
        invariant
            i <= n,
            at + 8 * n <= b@.len(),
            part == b@.subrange(at as int, at + 8 * n),
            out@.len() == i,
            forall|k: int|
                0 <= k < i ==> #[trigger] out@[k] == target_of(
                    le_value(part.subrange(8 * k, 8 * k + 8)) as u64,
                    size,
                    nullable,
                ),
        decreases n - i,
    {
        let _n: usize = b.len();
        let off: u64 = get_u64_at(b, at + 8 * i);
        assert(b@.subrange(at + 8 * i, at + 8 * i + 8) =~= part.subrange(
            8 * i as int,
            8 * i + 8,
        ));
        out.push(target(off, size, nullable));
        i += 1;
    }
    assert(out@ =~= targets_of(part, n as nat, size, nullable));
    out
}

/// Where an array of references lies: the block, the field in it, and how many there are.
#[derive(Clone, Copy, Debug, PartialEq, Eq, Structural)]
pub struct ArrayField {
    pub block: BStackRange,
    pub at: u64,
    pub total: u64,
}

impl ArrayField {
    /// The array lies in the block, and the block in the file.
    pub open spec fn wf(self) -> bool {
        &&& self.at + 8 * self.total <= self.block.len <= usize::MAX
        &&& self.block.start + self.block.len <= u64::MAX
    }

    /// Where element number `index` is.
    pub open spec fn spec_off(self, index: int) -> int {
        self.block.start + self.at + 8 * index
    }
}

/// Replace element number `index`, counted in the order of the rows, and hand the old one out.
/// An index outside the array is refused, and the new value given back.
pub fn replace_at<A: BStackRaiiAllocator>(
    a: &mut A,
    field: ArrayField,
    index: u64,
    value: Option<BStackRange>,
    size: u64,
    nullable: bool,
) -> (r: Result<Option<BStackRange>, ReplaceError<Option<BStackRange>>>)
    requires
        field.wf(),
        nullable || value is Some,
    ensures
        final(a).spec_settings() == old(a).spec_settings(),
        extends(old(a).trace(), final(a).trace()),
        if index >= field.total {
            &&& final(a).trace() == old(a).trace()
            &&& r == Err::<Option<BStackRange>, ReplaceError<Option<BStackRange>>>(
                ReplaceError { source: Error::ArrayIndexOutOfBounds, value: Some(value) },
            )
        } else {
            replace_talk(
                field.spec_off(index as int) as u64,
                value,
                size,
                nullable,
                since(old(a).trace(), final(a).trace()),
                r,
            )
        },
{
    proof {
        lemma_since(a.trace(), Seq::empty());
        assert(a.trace() + Seq::empty() =~= a.trace());
    }
    if index >= field.total {
        return Err(ReplaceError::recovered(Error::ArrayIndexOutOfBounds, value));
    }
    replace_field(a, field.block.start + field.at + index * 8, value, size, nullable)
}

/// Replace element number `index` of an array of strong references, and hand the old one out.
pub fn replace_strong_at<T: BStackShared, A: BStackRaiiAllocator>(
    a: &mut A,
    field: ArrayField,
    index: u64,
    value: Option<Strong>,
    nullable: bool,
) -> (r: Result<Option<Strong>, ReplaceError<Option<Strong>>>)
    requires
        field.wf(),
        nullable || value is Some,
    ensures
        final(a).spec_settings() == old(a).spec_settings(),
        extends(old(a).trace(), final(a).trace()),
        if index >= field.total {
            &&& final(a).trace() == old(a).trace()
            &&& r == Err::<Option<Strong>, ReplaceError<Option<Strong>>>(
                ReplaceError { source: Error::ArrayIndexOutOfBounds, value: Some(value) },
            )
        } else {
            replace_strong_talk::<T>(
                field.spec_off(index as int) as u64,
                value,
                nullable,
                since(old(a).trace(), final(a).trace()),
                r,
            )
        },
{
    proof {
        lemma_since(a.trace(), Seq::empty());
        assert(a.trace() + Seq::empty() =~= a.trace());
    }
    if index >= field.total {
        return Err(ReplaceError::recovered(Error::ArrayIndexOutOfBounds, value));
    }
    replace_strong::<T, A>(a, field.block.start + field.at + index * 8, value, nullable)
}

/// Let element number `index` of an array of borrowed references refer to `value`.
pub fn set_at<A: BStackRaiiAllocator>(
    a: &mut A,
    field: ArrayField,
    index: u64,
    value: Option<BStackRange>,
) -> (r: Result<(), Error>)
    requires
        field.wf(),
    ensures
        final(a).spec_settings() == old(a).spec_settings(),
        if index >= field.total {
            final(a).trace() == old(a).trace() && r == Err::<(), Error>(
                Error::ArrayIndexOutOfBounds,
            )
        } else {
            final(a).trace() == old(a).trace().push(
                Event::Write {
                    off: field.spec_off(index as int) as u64,
                    bytes: le_bytes(slot_of(value) as nat, 8),
                    reply: r,
                },
            )
        },
{
    if index >= field.total {
        return Err(Error::ArrayIndexOutOfBounds);
    }
    set_ref(a, field.block.start + field.at + index * 8, value)
}

/// The conversation that replaces a whole array: read the block, write the array in one step,
/// and hand the old array out.
pub open spec fn replace_all_talk(
    field: ArrayField,
    value: Seq<Option<BStackRange>>,
    size: u64,
    nullable: bool,
    t: Seq<Event>,
    r: Result<Seq<Option<BStackRange>>, (Error, Option<Seq<Option<BStackRange>>>)>,
) -> bool {
    &&& t.len() >= 1
    &&& t[0] matches Event::Read { off: o0, len: l0, reply: r0 }
    &&& o0 == field.block.start && l0 == field.block.len
    &&& match r0 {
        Err(e) => t.len() == 1 && r == Err::<
            Seq<Option<BStackRange>>,
            (Error, Option<Seq<Option<BStackRange>>>),
        >((e, Some(value))),
        Ok(b) => {
            &&& t.len() == 2
            &&& t[1] matches Event::Write { off: o1, bytes: b1, reply: r1 }
            &&& o1 == field.spec_off(0)
            &&& b1 == slots_image(value)
            &&& r == match r1 {
                Err(e) => Err::<
                    Seq<Option<BStackRange>>,
                    (Error, Option<Seq<Option<BStackRange>>>),
                >((e, Some(value))),
                Ok(_) => Ok(
                    targets_of(
                        b.subrange(field.at as int, field.at + 8 * field.total),
                        field.total as nat,
                        size,
                        nullable,
                    ),
                ),
            }
        },
    }
}

/// The values of a replacement of a whole array.
pub open spec fn all_view(
    r: Result<Vec<Option<BStackRange>>, ReplaceError<Vec<Option<BStackRange>>>>,
) -> Result<Seq<Option<BStackRange>>, (Error, Option<Seq<Option<BStackRange>>>)> {
    match r {
        Ok(v) => Ok(v@),
        Err(e) => Err(
            (
                e.source,
                match e.value {
                    Some(v) => Some(v@),
                    None => None,
                },
            ),
        ),
    }
}

/// Replace the whole array, and hand the old one out. Where that fails the new array is given
/// back.
pub fn replace_all<A: BStackRaiiAllocator>(
    a: &mut A,
    field: ArrayField,
    value: Vec<Option<BStackRange>>,
    size: u64,
    nullable: bool,
) -> (r: Result<Vec<Option<BStackRange>>, ReplaceError<Vec<Option<BStackRange>>>>)
    requires
        field.wf(),
        value@.len() == field.total,
    ensures
        final(a).spec_settings() == old(a).spec_settings(),
        extends(old(a).trace(), final(a).trace()),
        replace_all_talk(
            field,
            value@,
            size,
            nullable,
            since(old(a).trace(), final(a).trace()),
            all_view(r),
        ),
{
    let ghost before = a.trace();
    let got = a.get(field.block.start, field.block.len);
    let ghost mut t: Seq<Event> = seq![
        Event::Read { off: field.block.start, len: field.block.len, reply: bytes_view(got) },
    ];
    proof {
        assert(a.trace() =~= before + t);
        lemma_since(before, t);
    }
    let buf = match got {
        Err(e) => {
            return Err(ReplaceError::recovered(e, value));
        },
        Ok(b) => b,
    };
    let was = slots_read(
        buf.as_slice(),
        field.at as usize,
        field.total as usize,
        size,
        nullable,
    );
    let image = slots_bytes(&value);
    let ghost view = image@;
    let wrote = a.set(field.block.start + field.at, image);
    proof {
        t = t.push(
            Event::Write {
                off: (field.block.start + field.at) as u64,
                bytes: view,
                reply: wrote,
            },
        );
        assert(a.trace() =~= before + t);
        lemma_since(before, t);
    }
    match wrote {
        Err(e) => Err(ReplaceError::recovered(e, value)),
        Ok(_) => Ok(was),
    }
}

/// Overwrite a whole array of borrowed references.
pub fn set_all<A: BStackRaiiAllocator>(
    a: &mut A,
    field: ArrayField,
    value: &Vec<Option<BStackRange>>,
) -> (r: Result<(), Error>)
    requires
        field.wf(),
    ensures
        final(a).spec_settings() == old(a).spec_settings(),
        final(a).trace() == old(a).trace().push(
            Event::Write {
                off: field.spec_off(0) as u64,
                bytes: slots_image(value@),
                reply: r,
            },
        ),
{
    a.set(field.block.start + field.at, slots_bytes(value))
}

/// A replacement of a whole array that fails gives the new array back and leaves the field as
/// it was.
pub proof fn law_replace_all_never_loses_the_new_array(
    field: ArrayField,
    value: Seq<Option<BStackRange>>,
    size: u64,
    nullable: bool,
    t: Seq<Event>,
    e: (Error, Option<Seq<Option<BStackRange>>>),
)
    requires
        replace_all_talk(field, value, size, nullable, t, Err(e)),
    ensures
        e.1 == Some(value),
        nothing_written(t),
{
}

/// What a field holds for a pointer to any file that may be absent.
pub open spec fn wide_of(v: Option<WidePtr>) -> WidePtr {
    match v {
        Some(p) => p,
        None => WidePtr { file: FileId(0), type_id: 0, offset: 0 },
    }
}

/// What a field that holds `p` refers to.
pub open spec fn wide_target(p: WidePtr, nullable: bool) -> Option<WidePtr> {
    if nullable && p.offset == 0 {
        None
    } else {
        Some(p)
    }
}

fn wide_value(v: &Option<WidePtr>) -> (r: WidePtr)
    ensures
        r == wide_of(*v),
{
    match v {
        Some(p) => *p,
        None => WidePtr::new(FileId::self_file(), 0),
    }
}

/// The conversation that replaces a pointer to any file.
pub open spec fn replace_foreign_talk(
    off: u64,
    value: Option<WidePtr>,
    nullable: bool,
    t: Seq<Event>,
    r: Result<Option<WidePtr>, ReplaceError<Option<WidePtr>>>,
) -> bool {
    &&& t.len() >= 1
    &&& t[0] matches Event::Read { off: o0, len: l0, reply: r0 }
    &&& o0 == off && l0 == 16
    &&& match r0 {
        Err(e) => t.len() == 1 && r == Err::<Option<WidePtr>, ReplaceError<Option<WidePtr>>>(
            ReplaceError { source: e, value: Some(value) },
        ),
        Ok(b) => {
            &&& t.len() == 2
            &&& t[1] matches Event::Write { off: o1, bytes: b1, reply: r1 }
            &&& o1 == off
            &&& b1 == wide_of(value).image()
            &&& r == match r1 {
                Err(e) => Err::<Option<WidePtr>, ReplaceError<Option<WidePtr>>>(
                    ReplaceError { source: e, value: Some(value) },
                ),
                Ok(_) => Ok(wide_target(WidePtr::parse(b), nullable)),
            }
        },
    }
}

/// Put the pointer `value` into the field at `off`, and hand out the one it held. What either
/// leads to is not touched: the owner of the pointer that is handed out releases it.
pub fn replace_foreign<A: BStackRaiiAllocator>(
    a: &mut A,
    off: u64,
    value: Option<WidePtr>,
    nullable: bool,
) -> (r: Result<Option<WidePtr>, ReplaceError<Option<WidePtr>>>)
    requires
        nullable || value is Some,
    ensures
        final(a).spec_settings() == old(a).spec_settings(),
        extends(old(a).trace(), final(a).trace()),
        replace_foreign_talk(off, value, nullable, since(old(a).trace(), final(a).trace()), r),
{
    let ghost before = a.trace();
    let got = a.get(off, 16);
    let ghost mut t: Seq<Event> = seq![Event::Read { off, len: 16, reply: bytes_view(got) }];
    proof {
        assert(a.trace() =~= before + t);
        lemma_since(before, t);
    }
    let was: WidePtr = match got {
        Err(e) => {
            return Err(ReplaceError::recovered(e, value));
        },
        Ok(b) => WidePtr::from_bytes(b.as_slice()),
    };
    let new = wide_value(&value);
    let wrote = a.set(off, new.to_bytes());
    proof {
        t = t.push(Event::Write { off, bytes: new.image(), reply: wrote });
        assert(a.trace() =~= before + t);
        lemma_since(before, t);
    }
    if let Err(e) = wrote {
        return Err(ReplaceError::recovered(e, value));
    }
    if nullable && was.offset == 0 {
        Ok(None)
    } else {
        Ok(Some(was))
    }
}

/// Overwrite a borrowed pointer to any file.
pub fn set_foreign<A: BStackRaiiAllocator>(a: &mut A, off: u64, value: Option<WidePtr>) -> (r:
    Result<(), Error>)
    ensures
        final(a).spec_settings() == old(a).spec_settings(),
        final(a).trace() == old(a).trace().push(
            Event::Write { off, bytes: wide_of(value).image(), reply: r },
        ),
{
    let new = wide_value(&value);
    a.set(off, new.to_bytes())
}

/// A replacement of a pointer that fails gives the new pointer back and leaves the field as it
/// was.
pub proof fn law_foreign_replace_never_loses_the_new_value(
    off: u64,
    value: Option<WidePtr>,
    nullable: bool,
    t: Seq<Event>,
    e: ReplaceError<Option<WidePtr>>,
)
    requires
        replace_foreign_talk(off, value, nullable, t, Err(e)),
    ensures
        e.value == Some(value),
        nothing_written(t),
{
}

} // verus!
