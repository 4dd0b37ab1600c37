//! Fields: what is put into one comes out of it again, and nothing is lost on the way.
use vstd::prelude::*;

use crate::allocator::{lemma_extends, since, BStackRaiiAllocator, Event};
use crate::bytes::{le_bytes, le_value, lemma_le_bytes_len};
use crate::error::Error;
use crate::foreign::{strong_parts, WidePtr};
use crate::handback::ReplaceError;
use crate::handle::{StrongWeakRef, WeakRef};
use crate::range::BStackRange;
use crate::reference::BStackRef;
use crate::slot::{
    get_field, get_pod, lemma_slots_image, replace_all, replace_at, replace_field, replace_foreign,
    replace_strong, replace_strong_at, set_all, set_at, set_foreign, set_pod, set_ref, slots_image,
    swap_strong_talk, targets_of, ArrayField, Strong,
};
use crate::strongs::{
    all_data, each_talk, last_talk, replace_strong_all, strongs_talk, strongs_view,
};
use crate::traits::{BStackShared, BStackWeakable};

use super::goes_on;

verus! {

/// The bytes of a field that refers to `v`: the offset of the block, or `0` where there is none.
pub open spec fn word_of(v: Option<BStackRange>) -> Seq<u8> {
    match v {
        Some(x) => le_bytes(x.start as nat, 8),
        None => le_bytes(0, 8),
    }
}

/// Whether `v` is what a field with these bytes refers to, where the target takes `size` bytes.
pub open spec fn leads_to(v: Option<BStackRange>, b: Seq<u8>, size: u64, nullable: bool) -> bool {
    let off = le_value(b) as u64;
    match v {
        Some(x) => x.start == off && x.len == size && !(nullable && off == 0),
        None => nullable && off == 0,
    }
}

/// The conversation with one more read.
pub open spec fn with_get(
    asked: Seq<Event>,
    off: int,
    len: int,
    got: Result<Seq<u8>, Error>,
) -> Seq<Event> {
    asked.push(Event::Read { off: off as u64, len: len as u64, reply: got })
}

/// The conversation with one more write.
pub open spec fn with_put(
    asked: Seq<Event>,
    off: int,
    bytes: Seq<u8>,
    put: Result<(), Error>,
) -> Seq<Event> {
    asked.push(Event::Write { off: off as u64, bytes, reply: put })
}

/// Whether `len` bytes at `from` were read, with `got`, and then, if that went well, `bytes`
/// written to `to`, with `put`.
pub open spec fn exchanged(
    asked: Seq<Event>,
    now: Seq<Event>,
    from: int,
    len: int,
    got: Result<Seq<u8>, Error>,
    to: int,
    bytes: Seq<u8>,
    put: Result<(), Error>,
) -> bool {
    let seen = with_get(asked, from, len, got);
    match got {
        Err(_) => now == seen,
        Ok(_) => now == with_put(seen, to, bytes, put),
    }
}

/// What failed, in a read and a write after it.
pub open spec fn first_failure(got: Result<Seq<u8>, Error>, put: Result<(), Error>) -> Option<
    Error,
> {
    match (got, put) {
        (Err(e), _) => Some(e),
        (Ok(_), Err(e)) => Some(e),
        _ => None,
    }
}

/// Whether a field was given a new target, and its old one handed out; or else the new target
/// given back, with what failed.
pub open spec fn target_exchanged(
    asked: Seq<Event>,
    now: Seq<Event>,
    off: int,
    value: Option<BStackRange>,
    size: u64,
    nullable: bool,
    r: Result<Option<BStackRange>, ReplaceError<Option<BStackRange>>>,
) -> bool {
    exists|got: Result<Seq<u8>, Error>, put: Result<(), Error>|
        {
            &&& #[trigger] exchanged(asked, now, off, 8, got, off, word_of(value), put)
            &&& match r {
                Ok(v) => first_failure(got, put) is None && leads_to(v, got->Ok_0, size, nullable),
                Err(x) => first_failure(got, put) == Some(x.source) && x.value == Some(value),
            }
        }
}

/// Reading a field tells what it refers to.
pub proof fn law_a_field_tells_its_target<A: BStackRaiiAllocator>(
    a: &mut A,
    block: BStackRange,
    at: u64,
    size: u64,
    nullable: bool,
    r: Result<Option<BStackRange>, Error>,
)
    requires
        at + 8 <= block.len,
        call_ensures(get_field::<A>, (a, block, at, size, nullable), r),
    ensures
        exists|got: Result<Seq<u8>, Error>|
            final(a).trace() == #[trigger] with_get(
                old(a).trace(),
                block.start as int,
                block.len as int,
                got,
            ) && match got {
                Err(e) => r == Err::<Option<BStackRange>, Error>(e),
                Ok(b) => r matches Ok(v) && leads_to(
                    v,
                    b.subrange(at as int, at + 8),
                    size,
                    nullable,
                ),
            },
{
    lemma_extends(old(a).trace(), final(a).trace());
    let t = since(old(a).trace(), final(a).trace());
    let got = t[0]->Read_reply;
    assert(old(a).trace() + t =~= with_get(
        old(a).trace(),
        block.start as int,
        block.len as int,
        got,
    ));
}

/// Reading a field of plain bytes gives its bytes.
pub proof fn law_a_field_gives_its_bytes<A: BStackRaiiAllocator>(
    a: &mut A,
    block: BStackRange,
    at: u64,
    width: u64,
    r: Result<Vec<u8>, Error>,
)
    requires
        at + width <= block.len,
        call_ensures(get_pod::<A>, (a, block, at, width), r),
    ensures
        exists|got: Result<Seq<u8>, Error>|
            final(a).trace() == #[trigger] with_get(
                old(a).trace(),
                block.start as int,
                block.len as int,
                got,
            ) && match got {
                Err(e) => r matches Err(x) && x == e,
                Ok(b) => r matches Ok(v) && (b.len() == block.len ==> v@.len() == width && forall|
                    i: int,
                |
                    0 <= i < width ==> #[trigger] v@[i] == b[at + i]),
            },
{
    let reply = choose|reply: Result<Seq<u8>, Error>|
        {
            &&& #[trigger] old(a).trace().push(
                Event::Read { off: block.start, len: block.len, reply },
            ) == final(a).trace()
            &&& match reply {
                Err(e) => r matches Err(x) && x == e,
                Ok(b) => r matches Ok(v) && v@ == b.subrange(at as int, at + width),
            }
        };
    assert(final(a).trace() == with_get(
        old(a).trace(),
        block.start as int,
        block.len as int,
        reply,
    ));
}

/// Setting a field writes the field and nothing else.
pub proof fn law_a_set_field_holds_its_bytes<A: BStackRaiiAllocator>(
    a: &mut A,
    off: u64,
    value: Vec<u8>,
    r: Result<(), Error>,
)
    requires
        call_ensures(set_pod::<A>, (a, off, value), r),
    ensures
        final(a).trace() == with_put(old(a).trace(), off as int, value@, r),
{
}

/// Setting a borrowed reference writes where the block is, and releases nothing.
pub proof fn law_a_set_field_refers_to_its_target<A: BStackRaiiAllocator>(
    a: &mut A,
    off: u64,
    value: Option<BStackRange>,
    r: Result<(), Error>,
)
    requires
        call_ensures(set_ref::<A>, (a, off, value), r),
    ensures
        final(a).trace() == with_put(old(a).trace(), off as int, word_of(value), r),
{
}

proof fn lemma_exchange(
    asked: Seq<Event>,
    now: Seq<Event>,
    off: u64,
    value: Option<BStackRange>,
    size: u64,
    nullable: bool,
    r: Result<Option<BStackRange>, ReplaceError<Option<BStackRange>>>,
)
    requires
        crate::allocator::extends(asked, now),
        crate::slot::replace_talk(off, value, size, nullable, since(asked, now), r),
    ensures
        target_exchanged(asked, now, off as int, value, size, nullable, r),
{
    lemma_extends(asked, now);
    let t = since(asked, now);
    let got = t[0]->Read_reply;
    let put = if got is Ok {
        t[1]->Write_reply
    } else {
        Ok(())
    };
    let seen = with_get(asked, off as int, 8, got);
    if got is Ok {
        assert(asked + t =~= with_put(seen, off as int, word_of(value), put));
    } else {
        assert(asked + t =~= seen);
    }
    assert(exchanged(asked, now, off as int, 8, got, off as int, word_of(value), put));
}

/// Replacing what a field owns hands the old target out and puts the new one in its place, or
/// gives the new one back.
pub proof fn law_a_replaced_field_hands_out_its_target<A: BStackRaiiAllocator>(
    a: &mut A,
    off: u64,
    value: Option<BStackRange>,
    size: u64,
    nullable: bool,
    r: Result<Option<BStackRange>, ReplaceError<Option<BStackRange>>>,
)
    requires
        call_ensures(replace_field::<A>, (a, off, value, size, nullable), r),
    ensures
        target_exchanged(
            old(a).trace(),
            final(a).trace(),
            off as int,
            value,
            size,
            nullable,
            r,
        ),
{
    lemma_exchange(old(a).trace(), final(a).trace(), off, value, size, nullable, r);
}

/// The same of an element of an array. Where there is no such element nothing is asked of the
/// file.
pub proof fn law_a_replaced_element_is_handed_out<A: BStackRaiiAllocator>(
    a: &mut A,
    field: ArrayField,
    index: u64,
    value: Option<BStackRange>,
    size: u64,
    nullable: bool,
    r: Result<Option<BStackRange>, ReplaceError<Option<BStackRange>>>,
)
    requires
        field.block.start + field.block.len <= u64::MAX,
        field.at + 8 * field.total <= field.block.len,
        call_ensures(replace_at::<A>, (a, field, index, value, size, nullable), r),
    ensures
        index < field.total ==> target_exchanged(
            old(a).trace(),
            final(a).trace(),
            field.block.start + field.at + 8 * index,
            value,
            size,
            nullable,
            r,
        ),
        index >= field.total ==> final(a).trace() == old(a).trace() && (r matches Err(x) && x.value
            == Some(value) && x.source == Error::ArrayIndexOutOfBounds),
{
    if index < field.total {
        lemma_exchange(
            old(a).trace(),
            final(a).trace(),
            (field.block.start + field.at + 8 * index) as u64,
            value,
            size,
            nullable,
            r,
        );
    }
}

/// Setting an element of an array writes that element only.
pub proof fn law_a_set_element_refers_to_its_target<A: BStackRaiiAllocator>(
    a: &mut A,
    field: ArrayField,
    index: u64,
    value: Option<BStackRange>,
    r: Result<(), Error>,
)
    requires
        call_ensures(set_at::<A>, (a, field, index, value), r),
    ensures
        if index < field.total {
            final(a).trace() == with_put(
                old(a).trace(),
                field.block.start + field.at + 8 * index,
                word_of(value),
                r,
            )
        } else {
            final(a).trace() == old(a).trace() && r == Err::<(), Error>(
                Error::ArrayIndexOutOfBounds,
            )
        },
{
}

/// Whether `bytes` are those of an array that refers to `vs`, one word for each element.
pub open spec fn words_of(vs: Seq<Option<BStackRange>>, bytes: Seq<u8>) -> bool {
    &&& bytes.len() == 8 * vs.len()
    &&& forall|i: int|
        0 <= i < vs.len() ==> bytes.subrange(8 * i, 8 * i + 8) == word_of(#[trigger] vs[i])
}

/// Setting a whole array writes its elements in their order.
pub proof fn law_a_set_array_refers_to_its_targets<A: BStackRaiiAllocator>(
    a: &mut A,
    field: ArrayField,
    value: &Vec<Option<BStackRange>>,
    r: Result<(), Error>,
)
    requires
        call_ensures(set_all::<A>, (a, field, value), r),
    ensures
        exists|bytes: Seq<u8>|
            final(a).trace() == #[trigger] with_put(
                old(a).trace(),
                field.block.start + field.at,
                bytes,
                r,
            ) && words_of(value@, bytes),
{
    lemma_slots_image(value@);
    assert(final(a).trace() == with_put(
        old(a).trace(),
        field.block.start + field.at,
        slots_image(value@),
        r,
    ));
}

/// Replacing a whole array hands its old elements out in their order, and puts the new ones in
/// their place in one write; or else the new ones are given back.
pub proof fn law_a_replaced_array_hands_out_its_targets<A: BStackRaiiAllocator>(
    a: &mut A,
    field: ArrayField,
    value: Vec<Option<BStackRange>>,
    size: u64,
    nullable: bool,
    r: Result<Vec<Option<BStackRange>>, ReplaceError<Vec<Option<BStackRange>>>>,
)
    requires
        field.wf(),
        value@.len() == field.total,
        call_ensures(replace_all::<A>, (a, field, value, size, nullable), r),
    ensures
        exists|got: Result<Seq<u8>, Error>, bytes: Seq<u8>, put: Result<(), Error>|
            {
                &&& #[trigger] exchanged(
                    old(a).trace(),
                    final(a).trace(),
                    field.block.start as int,
                    field.block.len as int,
                    got,
                    field.block.start + field.at,
                    bytes,
                    put,
                )
                &&& words_of(value@, bytes)
                &&& match r {
                    Ok(was) => first_failure(got, put) is None && was@.len() == field.total && (
                    got->Ok_0.len() == field.block.len ==> forall|i: int|
                        0 <= i < field.total ==> leads_to(
                            #[trigger] was@[i],
                            got->Ok_0.subrange(field.at + 8 * i, field.at + 8 * i + 8),
                            size,
                            nullable,
                        )),
                    Err(x) => first_failure(got, put) == Some(x.source) && (x.value matches Some(v)
                        && v@ == value@),
                }
            },
{
    let asked = old(a).trace();
    lemma_extends(asked, final(a).trace());
    let t = since(asked, final(a).trace());
    let got = t[0]->Read_reply;
    let put = if got is Ok {
        t[1]->Write_reply
    } else {
        Ok(())
    };
    lemma_slots_image(value@);
    let bytes = slots_image(value@);
    let to = field.block.start + field.at;
    let seen = with_get(asked, field.block.start as int, field.block.len as int, got);
    if got is Ok {
        assert(asked + t =~= with_put(seen, to, bytes, put));
        let b = got->Ok_0;
        if r is Ok && b.len() == field.block.len {
            let part = b.subrange(field.at as int, field.at + 8 * field.total);
            assert forall|i: int| 0 <= i < field.total implies leads_to(
                #[trigger] r->Ok_0@[i],
                b.subrange(field.at + 8 * i, field.at + 8 * i + 8),
                size,
                nullable,
            ) by {
                assert(part.subrange(8 * i, 8 * i + 8) =~= b.subrange(
                    field.at + 8 * i,
                    field.at + 8 * i + 8,
                ));
            }
        }
    } else {
        assert(asked + t =~= seen);
    }
    assert(exchanged(
        asked,
        final(a).trace(),
        field.block.start as int,
        field.block.len as int,
        got,
        to,
        bytes,
        put,
    ));
}

/// Whether the control block of the data block at `data` was found, in the word behind the
/// header; types without one have nothing to look up.
pub open spec fn control_found<T: BStackShared>(
    data: BStackRange,
    asked: Seq<Event>,
    now: Seq<Event>,
    found: Result<Option<BStackRange>, Error>,
) -> bool {
    match T::spec_control() {
        None => now == asked && found == Ok::<Option<BStackRange>, Error>(None),
        Some(size) => if data.start + 16 > u64::MAX {
            now == asked && found is Err
        } else {
            exists|got: Result<Seq<u8>, Error>|
                now == #[trigger] with_get(asked, data.start + 16, 8, got) && match got {
                    Err(e) => found == Err::<Option<BStackRange>, Error>(e),
                    Ok(b) => found == Ok::<Option<BStackRange>, Error>(
                        Some(BStackRange { start: le_value(b) as u64, len: size }),
                    ),
                }
        },
    }
}

pub(crate) proof fn lemma_control_found<T: BStackShared>(
    data: BStackRange,
    asked: Seq<Event>,
    t: Seq<Event>,
    found: Result<Option<BStackRange>, Error>,
)
    requires
        crate::foreign::parts_talk::<T>(data, t, found),
    ensures
        control_found::<T>(data, asked, asked + t, found),
{
    if T::spec_control() is None || data.start + 16 > u64::MAX {
        assert(asked + t =~= asked);
    } else {
        let got = t[0]->Read_reply;
        assert(asked + t =~= with_get(asked, data.start + 16, 8, got));
    }
}

/// The control block of a counted block is the one that the block names.
pub proof fn law_a_counted_block_names_its_control_block<T: BStackShared, A: BStackRaiiAllocator>(
    a: &mut A,
    data: BStackRange,
    r: Result<Option<BStackRange>, Error>,
)
    requires
        call_ensures(strong_parts::<T, A>, (a, data), r),
    ensures
        control_found::<T>(data, old(a).trace(), final(a).trace(), r),
{
    lemma_extends(old(a).trace(), final(a).trace());
    lemma_control_found::<T>(data, old(a).trace(), since(old(a).trace(), final(a).trace()), r);
}

/// The bytes of a field with this strong reference: those of a reference to the data block.
pub open spec fn strong_word(v: Option<Strong>) -> Seq<u8> {
    match v {
        Some(s) => word_of(Some(s.data)),
        None => word_of(None),
    }
}

/// How a strong reference is put in the place of another: what was read at first, the state of
/// the conversation after the old one was looked up, what the old one is, and how the write went.
pub struct StrongSwap {
    pub got: Result<Seq<u8>, Error>,
    pub mid: Seq<Event>,
    pub was: Result<Option<Strong>, Error>,
    pub put: Result<(), Error>,
}

/// Whether the old strong reference was looked up whole before anything was written, then handed
/// out, and the new one put in its place; or else the new one given back.
pub open spec fn strong_swapped<T: BStackShared>(
    asked: Seq<Event>,
    now: Seq<Event>,
    off: int,
    value: Option<Strong>,
    nullable: bool,
    r: Result<Option<Strong>, ReplaceError<Option<Strong>>>,
    w: StrongSwap,
) -> bool {
    let seen = with_get(asked, off, 8, w.got);
    &&& match w.got {
        Err(e) => w.mid == seen && w.was == Err::<Option<Strong>, Error>(e),
        Ok(b) => {
            let data = BStackRange { start: le_value(b) as u64, len: T::spec_on_disk_size() };
            if nullable && data.start == 0 {
                w.mid == seen && w.was == Ok::<Option<Strong>, Error>(None)
            } else {
                match w.was {
                    Err(e) => control_found::<T>(data, seen, w.mid, Err(e)),
                    Ok(Some(s)) => s.data == data && control_found::<T>(
                        data,
                        seen,
                        w.mid,
                        Ok(s.ctrl),
                    ),
                    Ok(None) => false,
                }
            }
        },
    }
    &&& match w.was {
        Err(e) => now == w.mid && (r matches Err(x) && x.source == e && x.value == Some(value)),
        Ok(s) => now == with_put(w.mid, off, strong_word(value), w.put) && match w.put {
            Err(e) => r matches Err(x) && x.source == e && x.value == Some(value),
            Ok(_) => r == Ok::<Option<Strong>, ReplaceError<Option<Strong>>>(s),
        },
    }
}

proof fn lemma_strong_swap<T: BStackShared>(
    asked: Seq<Event>,
    now: Seq<Event>,
    off: u64,
    value: Option<Strong>,
    nullable: bool,
    r: Result<Option<Strong>, ReplaceError<Option<Strong>>>,
)
    requires
        crate::allocator::extends(asked, now),
        crate::slot::replace_strong_talk::<T>(off, value, nullable, since(asked, now), r),
    ensures
        exists|w: StrongSwap| #[trigger]
            strong_swapped::<T>(asked, now, off as int, value, nullable, r, w),
{
    lemma_extends(asked, now);
    let t = since(asked, now);
    let got = t[0]->Read_reply;
    let seen = with_get(asked, off as int, 8, got);
    let rest = t.skip(1);
    assert(asked + t =~= seen + rest);
    match got {
        Err(e) => {
            assert(seen + rest =~= seen);
            let w = StrongSwap { got, mid: seen, was: Err(e), put: Ok(()) };
            assert(strong_swapped::<T>(asked, now, off as int, value, nullable, r, w));
        },
        Ok(b) => {
            let data = BStackRange { start: le_value(b) as u64, len: T::spec_on_disk_size() };
            if nullable && data.start == 0 {
                let put = rest[0]->Write_reply;
                let w = StrongSwap { got, mid: seen, was: Ok(None), put };
                assert(seen + rest =~= with_put(seen, off as int, strong_word(value), put));
                assert(strong_swapped::<T>(asked, now, off as int, value, nullable, r, w));
            } else {
                let (k, found) = choose|k: int, found: Result<Option<BStackRange>, Error>|
                 #[trigger]
                    swap_strong_talk::<T>(off, value, data, rest, r, k, found);
                assert(swap_strong_talk::<T>(off, value, data, rest, r, k, found));
                let mid = seen + rest.take(k);
                lemma_control_found::<T>(data, seen, rest.take(k), found);
                match found {
                    Err(e) => {
                        assert(seen + rest =~= mid);
                        let w = StrongSwap { got, mid, was: Err(e), put: Ok(()) };
                        assert(strong_swapped::<T>(asked, now, off as int, value, nullable, r, w));
                    },
                    Ok(ctrl) => {
                        let put = rest.skip(k)[0]->Write_reply;
                        assert(rest =~= rest.take(k) + rest.skip(k));
                        assert(seen + rest =~= with_put(mid, off as int, strong_word(value), put));
                        let w = StrongSwap { got, mid, was: Ok(Some(Strong { data, ctrl })), put };
                        assert(strong_swapped::<T>(asked, now, off as int, value, nullable, r, w));
                    },
                }
            }
        },
    }
}

/// Replacing a strong reference hands the old one out, with its control block, and puts the new
/// one in its place, or gives the new one back. No count changes.
pub proof fn law_a_replaced_strong_field_hands_out_its_target<
    T: BStackShared,
    A: BStackRaiiAllocator,
>(
    a: &mut A,
    off: u64,
    value: Option<Strong>,
    nullable: bool,
    r: Result<Option<Strong>, ReplaceError<Option<Strong>>>,
)
    requires
        call_ensures(replace_strong::<T, A>, (a, off, value, nullable), r),
    ensures
        exists|w: StrongSwap| #[trigger]
            strong_swapped::<T>(
                old(a).trace(),
                final(a).trace(),
                off as int,
                value,
                nullable,
                r,
                w,
            ),
{
    lemma_strong_swap::<T>(old(a).trace(), final(a).trace(), off, value, nullable, r);
}

/// The same of an element of an array of strong references.
pub proof fn law_a_replaced_strong_element_is_handed_out<T: BStackShared, A: BStackRaiiAllocator>(
    a: &mut A,
    field: ArrayField,
    index: u64,
    value: Option<Strong>,
    nullable: bool,
    r: Result<Option<Strong>, ReplaceError<Option<Strong>>>,
)
    requires
        field.block.start + field.block.len <= u64::MAX,
        field.at + 8 * field.total <= field.block.len,
        call_ensures(replace_strong_at::<T, A>, (a, field, index, value, nullable), r),
    ensures
        index < field.total ==> exists|w: StrongSwap| #[trigger]
            strong_swapped::<T>(
                old(a).trace(),
                final(a).trace(),
                field.block.start + field.at + 8 * index,
                value,
                nullable,
                r,
                w,
            ),
        index >= field.total ==> final(a).trace() == old(a).trace() && (r matches Err(x) && x.value
            == Some(value) && x.source == Error::ArrayIndexOutOfBounds),
{
    if index < field.total {
        lemma_strong_swap::<T>(
            old(a).trace(),
            final(a).trace(),
            (field.block.start + field.at + 8 * index) as u64,
            value,
            nullable,
            r,
        );
    }
}

/// Whether the bytes are those of a pointer to any file: the number of the file, the type, and
/// where the block is. One that leads nowhere is all zero.
pub open spec fn wide_word(v: Option<WidePtr>, bytes: Seq<u8>) -> bool {
    let (file, ty, off) = match v {
        Some(p) => (p.file.0 as nat, p.type_id as nat, p.offset as nat),
        None => (0, 0, 0),
    };
    &&& bytes.len() == 16
    &&& bytes.subrange(0, 4) == le_bytes(file, 4)
    &&& bytes.subrange(4, 8) == le_bytes(ty, 4)
    &&& bytes.subrange(8, 16) == le_bytes(off, 8)
}

/// Whether `v` is what a field with these bytes leads to.
pub open spec fn wide_leads_to(v: Option<WidePtr>, b: Seq<u8>, nullable: bool) -> bool {
    let off = le_value(b.subrange(8, 16)) as u64;
    match v {
        Some(p) => {
            &&& !(nullable && off == 0)
            &&& p.offset == off
            &&& p.file.0 == le_value(b.subrange(0, 4)) as u32
            &&& p.type_id == le_value(b.subrange(4, 8)) as u32
        },
        None => nullable && off == 0,
    }
}

proof fn lemma_wide(v: Option<WidePtr>)
    ensures
        wide_word(v, crate::slot::wide_of(v).image()),
{
    let p = crate::slot::wide_of(v);
    lemma_le_bytes_len(p.file.0 as nat, 4);
    lemma_le_bytes_len(p.type_id as nat, 4);
    lemma_le_bytes_len(p.offset as nat, 8);
    let b = p.image();
    assert(b.subrange(0, 4) =~= le_bytes(p.file.0 as nat, 4));
    assert(b.subrange(4, 8) =~= le_bytes(p.type_id as nat, 4));
    assert(b.subrange(8, 16) =~= le_bytes(p.offset as nat, 8));
}

/// Replacing a pointer to any file hands the old one out and puts the new one in its place, or
/// gives the new one back.
pub proof fn law_a_replaced_pointer_is_handed_out<A: BStackRaiiAllocator>(
    a: &mut A,
    off: u64,
    value: Option<WidePtr>,
    nullable: bool,
    r: Result<Option<WidePtr>, ReplaceError<Option<WidePtr>>>,
)
    requires
        call_ensures(replace_foreign::<A>, (a, off, value, nullable), r),
    ensures
        exists|got: Result<Seq<u8>, Error>, bytes: Seq<u8>, put: Result<(), Error>|
            {
                &&& #[trigger] exchanged(
                    old(a).trace(),
                    final(a).trace(),
                    off as int,
                    16,
                    got,
                    off as int,
                    bytes,
                    put,
                )
                &&& wide_word(value, bytes)
                &&& match r {
                    Ok(v) => first_failure(got, put) is None && wide_leads_to(
                        v,
                        got->Ok_0,
                        nullable,
                    ),
                    Err(x) => first_failure(got, put) == Some(x.source) && x.value == Some(value),
                }
            },
{
    let asked = old(a).trace();
    lemma_extends(asked, final(a).trace());
    lemma_wide(value);
    let t = since(asked, final(a).trace());
    let got = t[0]->Read_reply;
    let put = if got is Ok {
        t[1]->Write_reply
    } else {
        Ok(())
    };
    let bytes = crate::slot::wide_of(value).image();
    let seen = with_get(asked, off as int, 16, got);
    if got is Ok {
        assert(asked + t =~= with_put(seen, off as int, bytes, put));
    } else {
        assert(asked + t =~= seen);
    }
    assert(exchanged(asked, final(a).trace(), off as int, 16, got, off as int, bytes, put));
}

/// Setting a borrowed pointer writes the pointer.
pub proof fn law_a_set_pointer_is_written<A: BStackRaiiAllocator>(
    a: &mut A,
    off: u64,
    value: Option<WidePtr>,
    r: Result<(), Error>,
)
    requires
        call_ensures(set_foreign::<A>, (a, off, value), r),
    ensures
        exists|bytes: Seq<u8>|
            final(a).trace() == #[trigger] with_put(old(a).trace(), off as int, bytes, r)
                && wide_word(value, bytes),
{
    lemma_wide(value);
    assert(final(a).trace() == with_put(
        old(a).trace(),
        off as int,
        crate::slot::wide_of(value).image(),
        r,
    ));
}

/// Whether the conversation `t` has the read that names the control block of `s`.
pub open spec fn control_named<T: BStackShared>(t: Seq<Event>, s: Strong) -> bool {
    match T::spec_control() {
        None => s.ctrl is None,
        Some(size) => exists|j: int|
            {
                &&& 0 <= j < t.len()
                &&& #[trigger] t[j] matches Event::Read { off, len: 8, reply: Ok(b) }
                &&& off == s.data.start + 16
                &&& s.ctrl == Some(BStackRange { start: le_value(b) as u64, len: size })
            },
    }
}

/// Whether this is a request that failed with `e`.
pub open spec fn failed_with(ev: Event, e: Error) -> bool {
    match ev {
        Event::Read { reply: Err(x), .. } => x == e,
        Event::Write { reply: Err(x), .. } => x == e,
        _ => false,
    }
}

/// Whether something failed with `e` in the conversation `t`: a request, or the sum that says
/// where the name of a control block is.
pub open spec fn failed_in<T: BStackShared>(t: Seq<Event>, e: Error) -> bool {
    ||| exists|j: int| 0 <= j < t.len() && failed_with(#[trigger] t[j], e)
    ||| T::spec_control() is Some && e == Error::BlockOffsetOverflow
}

/// Whether `w` is what an element that refers to `data` is handed out as.
pub open spec fn handed_out<T: BStackShared>(
    t: Seq<Event>,
    data: Option<BStackRange>,
    w: Option<Strong>,
) -> bool {
    match (data, w) {
        (None, None) => true,
        (Some(d), Some(s)) => s.data == d && control_named::<T>(t, s),
        _ => false,
    }
}

proof fn lemma_each<T: BStackShared>(
    blocks: Seq<Option<BStackRange>>,
    t: Seq<Event>,
    r: Result<Seq<Option<Strong>>, Error>,
)
    requires
        each_talk::<T>(blocks, t, r),
    ensures
        forall|j: int| 0 <= j < t.len() ==> (#[trigger] t[j]) is Read,
        match r {
            Ok(v) => v.len() == blocks.len() && forall|i: int|
                0 <= i < v.len() ==> handed_out::<T>(t, blocks[i], #[trigger] v[i]),
            Err(e) => failed_in::<T>(t, e),
        },
    decreases blocks.len(),
{
    if blocks.len() > 0 {
        let (k, so_far) = choose|k: int, so_far: Result<Seq<Option<Strong>>, Error>|
            {
                &&& #[trigger] last_talk::<T>(blocks, t, r, k, so_far)
                &&& each_talk::<T>(blocks.drop_last(), t.take(k), so_far)
            };
        let first = t.take(k);
        let rest = t.skip(k);
        lemma_each::<T>(blocks.drop_last(), first, so_far);
        assert forall|j: int| 0 <= j < t.len() implies (#[trigger] t[j]) is Read by {
            if j < k {
                assert(first[j] == t[j]);
            } else {
                assert(rest[j - k] == t[j]);
            }
        }
        match r {
            Ok(v) => {
                let n = blocks.len() - 1;
                let w = so_far->Ok_0;
                assert forall|i: int| 0 <= i < v.len() implies handed_out::<T>(
                    t,
                    blocks[i],
                    #[trigger] v[i],
                ) by {
                    if i < n {
                        assert(v[i] == w[i]) by {
                            if blocks.last() is Some {
                                assert(v.drop_last()[i] == v[i]);
                            }
                        }
                        assert(blocks.drop_last()[i] == blocks[i]);
                        assert(handed_out::<T>(first, blocks[i], w[i]));
                        if w[i] is Some && T::spec_control() is Some {
                            let s = w[i]->0;
                            let j = choose|j: int|
                                {
                                    &&& 0 <= j < first.len()
                                    &&& #[trigger] first[j] matches Event::Read {
                                        off,
                                        len: 8,
                                        reply: Ok(b),
                                    }
                                    &&& off == s.data.start + 16
                                    &&& s.ctrl == Some(
                                        BStackRange {
                                            start: le_value(b) as u64,
                                            len: T::spec_control()->0,
                                        },
                                    )
                                };
                            assert(first[j] == t[j]);
                        }
                    } else if blocks.last() is Some && T::spec_control() is Some {
                        assert(rest[0] == t[k]);
                    }
                }
            },
            Err(e) => {
                if so_far is Err {
                    if exists|j: int| 0 <= j < first.len() && failed_with(#[trigger] first[j], e) {
                        let j = choose|j: int|
                            0 <= j < first.len() && failed_with(#[trigger] first[j], e);
                        assert(first[j] == t[j]);
                    }
                } else if rest.len() > 0 {
                    assert(rest[0] == t[k]);
                    assert(failed_with(t[k], e));
                }
            },
        }
    }
}

/// The references to the data blocks.
pub open spec fn their_data(v: Seq<Option<Strong>>) -> Seq<Option<BStackRange>> {
    Seq::new(
        v.len(),
        |i: int|
            match v[i] {
                Some(s) => Some(s.data),
                None => None,
            },
    )
}

/// Whether the conversation `t` reads the block, looks the old references up, writes the new ones
/// in one step, and hands the old ones out.
pub open spec fn array_swapped<T: BStackShared>(
    t: Seq<Event>,
    field: ArrayField,
    value: Seq<Option<Strong>>,
    nullable: bool,
    was: Seq<Option<Strong>>,
    b: Seq<u8>,
    bytes: Seq<u8>,
    blocks: Seq<Option<BStackRange>>,
) -> bool {
    &&& t.len() >= 2
    &&& t.first() == (Event::Read {
        off: field.block.start,
        len: field.block.len,
        reply: Ok::<Seq<u8>, Error>(b),
    })
    &&& t.last() matches Event::Write { off, bytes: written, reply: Ok(_) }
    &&& off == field.block.start + field.at
    &&& written == bytes
    &&& words_of(their_data(value), bytes)
    &&& forall|j: int| 0 <= j < t.len() - 1 ==> (#[trigger] t[j]) is Read
    &&& blocks.len() == field.total && was.len() == field.total
    &&& forall|i: int|
        0 <= i < field.total ==> handed_out::<T>(t, #[trigger] blocks[i], was[i]) && (b.len()
            == field.block.len ==> leads_to(
            blocks[i],
            b.subrange(field.at + 8 * i, field.at + 8 * i + 8),
            T::spec_on_disk_size(),
            nullable,
        ))
}

/// Replacing a whole array of strong references hands the old ones out in their order, each with
/// its control block, and puts the new ones in their place in one write; or else nothing is
/// written, the new ones are given back, and something did fail.
pub proof fn law_a_replaced_strong_array_hands_out_its_targets<
    T: BStackShared,
    A: BStackRaiiAllocator,
>(
    a: &mut A,
    field: ArrayField,
    value: Vec<Option<Strong>>,
    nullable: bool,
    r: Result<Vec<Option<Strong>>, ReplaceError<Vec<Option<Strong>>>>,
)
    requires
        field.wf(),
        value@.len() == field.total,
        call_ensures(replace_strong_all::<T, A>, (a, field, value, nullable), r),
    ensures
        goes_on(old(a).trace(), final(a).trace()),
        match r {
            Ok(was) => exists|b: Seq<u8>, bytes: Seq<u8>, blocks: Seq<Option<BStackRange>>|
             #[trigger]
                array_swapped::<T>(
                    final(a).trace().skip(old(a).trace().len() as int),
                    field,
                    value@,
                    nullable,
                    was@,
                    b,
                    bytes,
                    blocks,
                ),
            Err(x) => {
                let t = final(a).trace().skip(old(a).trace().len() as int);
                &&& x.value matches Some(v)
                &&& v@ == value@
                &&& failed_in::<T>(t, x.source)
                &&& forall|j: int|
                    0 <= j < t.len() ==> (#[trigger] t[j] is Read || failed_with(t[j], x.source))
            },
        },
{
    let t = since(old(a).trace(), final(a).trace());
    let (k, found) = choose|k: int, found: Result<Seq<Option<Strong>>, Error>| #[trigger]
        strongs_talk::<T>(field, value@, nullable, t, strongs_view(r), k, found);
    assert(strongs_talk::<T>(field, value@, nullable, t, strongs_view(r), k, found));
    let got = t[0]->Read_reply;
    match got {
        Err(e) => {
            assert(failed_with(t[0], e));
        },
        Ok(b) => {
            let blocks = targets_of(
                b.subrange(field.at as int, field.at + 8 * field.total),
                field.total as nat,
                T::spec_on_disk_size(),
                nullable,
            );
            let looked = t.subrange(1, k);
            lemma_each::<T>(blocks, looked, found);
            assert forall|j: int| 1 <= j < k implies (#[trigger] t[j]) is Read by {
                assert(looked[j - 1] == t[j]);
            }
            match found {
                Err(e) => {
                    if exists|j: int|
                        0 <= j < looked.len() && failed_with(#[trigger] looked[j], e) {
                        let j = choose|j: int|
                            0 <= j < looked.len() && failed_with(#[trigger] looked[j], e);
                        assert(looked[j] == t[j + 1]);
                    }
                },
                Ok(was) => {
                    let bytes = t[k]->Write_bytes;
                    lemma_slots_image(all_data(value@));
                    assert(all_data(value@) =~= their_data(value@));
                    assert forall|i: int| 0 <= i < field.total implies handed_out::<T>(
                        t,
                        #[trigger] blocks[i],
                        was[i],
                    ) && (b.len() == field.block.len ==> leads_to(
                        blocks[i],
                        b.subrange(field.at + 8 * i, field.at + 8 * i + 8),
                        T::spec_on_disk_size(),
                        nullable,
                    )) by {
                        assert(handed_out::<T>(looked, blocks[i], was[i]));
                        if was[i] is Some && T::spec_control() is Some {
                            let s = was[i]->0;
                            let j = choose|j: int|
                                {
                                    &&& 0 <= j < looked.len()
                                    &&& #[trigger] looked[j] matches Event::Read {
                                        off,
                                        len: 8,
                                        reply: Ok(b),
                                    }
                                    &&& off == s.data.start + 16
                                    &&& s.ctrl == Some(
                                        BStackRange {
                                            start: le_value(b) as u64,
                                            len: T::spec_control()->0,
                                        },
                                    )
                                };
                            assert(looked[j] == t[j + 1]);
                        }
                        if b.len() == field.block.len {
                            let part = b.subrange(field.at as int, field.at + 8 * field.total);
                            assert(part.subrange(8 * i, 8 * i + 8) =~= b.subrange(
                                field.at + 8 * i,
                                field.at + 8 * i + 8,
                            ));
                        }
                    }
                    match r {
                        Ok(w) => {
                            assert(array_swapped::<T>(
                                t,
                                field,
                                value@,
                                nullable,
                                w@,
                                b,
                                bytes,
                                blocks,
                            ));
                        },
                        Err(x) => {
                            assert(failed_with(t[k], x.source));
                        },
                    }
                },
            }
        },
    }
}

/// Whether the control block of the data block at `data` was found, in the word behind the header.
pub open spec fn named_by(
    data: BStackRange,
    size: u64,
    asked: Seq<Event>,
    now: Seq<Event>,
    ctrl: Result<BStackRange, Error>,
) -> bool {
    if data.start + 16 > u64::MAX {
        now == asked && ctrl is Err
    } else {
        exists|got: Result<Seq<u8>, Error>|
            now == #[trigger] with_get(asked, data.start + 16, 8, got) && match got {
                Err(e) => ctrl == Err::<BStackRange, Error>(e),
                Ok(b) => ctrl == Ok::<BStackRange, Error>(
                    BStackRange { start: le_value(b) as u64, len: size },
                ),
            }
    }
}

proof fn lemma_named_by(
    data: BStackRange,
    size: u64,
    asked: Seq<Event>,
    t: Seq<Event>,
    ctrl: Result<BStackRange, Error>,
)
    requires
        crate::handle::ctrl_talk(data, size, t, ctrl),
    ensures
        named_by(data, size, asked, asked + t, ctrl),
{
    if data.start + 16 > u64::MAX {
        assert(asked + t =~= asked);
    } else {
        let got = t[0]->Read_reply;
        assert(asked + t =~= with_get(asked, data.start + 16, 8, got));
    }
}

/// A strong reference that is read back leads to its data block, and to the control block that
/// the data block names.
pub proof fn law_a_strong_reference_is_read_back<T: BStackWeakable, A: BStackRaiiAllocator>(
    data: BStackRef<T>,
    a: &mut A,
    r: Result<StrongWeakRef<T>, Error>,
)
    requires
        call_ensures(StrongWeakRef::<T>::from_disk::<A>, (data, a), r),
    ensures
        r matches Ok(s) ==> s.data() == data@,
        named_by(
            data@,
            T::spec_control_size(),
            old(a).trace(),
            final(a).trace(),
            match r {
                Ok(s) => Ok(s.ctrl()),
                Err(e) => Err(e),
            },
        ),
{
    lemma_extends(old(a).trace(), final(a).trace());
    let ctrl: Result<BStackRange, Error> = match r {
        Ok(s) => Ok(s.ctrl()),
        Err(e) => Err(e),
    };
    lemma_named_by(
        data@,
        T::spec_control_size(),
        old(a).trace(),
        since(old(a).trace(), final(a).trace()),
        ctrl,
    );
}

/// A weak reference that is read back leads to the control block that the data block names.
pub proof fn law_a_weak_reference_is_read_back<T: BStackWeakable, A: BStackRaiiAllocator>(
    data: BStackRef<T>,
    a: &mut A,
    r: Result<WeakRef<T>, Error>,
)
    requires
        call_ensures(WeakRef::<T>::from_disk::<A>, (data, a), r),
    ensures
        named_by(
            data@,
            T::spec_control_size(),
            old(a).trace(),
            final(a).trace(),
            match r {
                Ok(w) => Ok(w@),
                Err(e) => Err(e),
            },
        ),
{
    lemma_extends(old(a).trace(), final(a).trace());
    let ctrl: Result<BStackRange, Error> = match r {
        Ok(w) => Ok(w@),
        Err(e) => Err(e),
    };
    lemma_named_by(
        data@,
        T::spec_control_size(),
        old(a).trace(),
        since(old(a).trace(), final(a).trace()),
        ctrl,
    );
}

} // verus!
