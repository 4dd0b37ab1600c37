//! Taking blocks apart and putting values into them: what goes in comes out, and only the block
//! around it goes.
use vstd::prelude::*;

use crate::allocator::{lemma_extends, since, BStackRaiiAllocator, Event, Settings};
use crate::bytes::le_value;
use crate::construct::{fresh_image, Built};
use crate::derive::kind::Mode;
use crate::error::Error;
use crate::fields::{
    fields_view, find_all_talk, find_last_talk, move_strong_field, move_weak_field, take_block,
    take_fields, take_fields_talk, take_value, take_value_talk, StrongField,
};
use crate::handback::ConstructError;
use crate::handle::WeakRef;
use crate::layout::EightCC;
use crate::range::BStackRange;
use crate::slot::Strong;
use crate::tagged::{
    create, create_pair, create_pair_talk, create_talk, decode, decode_talk, encode, filled_talk,
    is_block, law_value_round_trip, made_view, replace_value, set_value, suits, taken_view,
    unbuilt_both, unbuilt_talk, Data, DataView, EnumLayout, Filling, Making, PairMaking, Part,
    SwapError, Unbuilding,
};
use crate::teardown::{dealloc_talk, Teardown, TeardownView};
use crate::traits::{BStackShared, BStackWeakable};

use super::blocks::{
    is_fresh, is_refused, lemma_fresh, lemma_pair_made, lemma_pair_refused, lemma_stored, pair_made,
    some_refused, stored, storing_of, with_copy, Storing,
};
use super::{goes_on, one_free};
use super::slots::{control_found, leads_to, lemma_control_found, with_get, with_put};
use super::variants::{
    any_charge, lemma_no_variant, lemma_of_no_variant, lemma_owns, made_for, number_at, number_in,
    number_width, number_word, of_no_variant,
};

verus! {

proof fn lemma_freed(
    range: BStackRange,
    s: Settings,
    before: TeardownView,
    asked: Seq<Event>,
    new: TeardownView,
    t: Seq<Event>,
    r: Result<(), Error>,
)
    requires
        dealloc_talk(before, new, s, range, t, r),
    ensures
        one_free(range, s, before, asked, new, asked + t, r),
{
    if t.len() == 0 {
        assert(asked + t =~= asked);
    } else {
        assert(asked + t =~= asked.push(t[0]));
    }
}

/// Whether a block was taken apart: it was read, with `got`, and then, where that went well, given
/// back itself, with `freed`.
pub open spec fn block_apart(
    block: BStackRange,
    s: Settings,
    before: TeardownView,
    new: TeardownView,
    asked: Seq<Event>,
    now: Seq<Event>,
    got: Result<Seq<u8>, Error>,
    freed: Result<(), Error>,
) -> bool {
    let seen = with_get(asked, block.start as int, block.len as int, got);
    match got {
        Err(_) => now == seen && new == before,
        Ok(_) => one_free(block, s, before, seen, new, now, freed),
    }
}

/// A block that is taken apart hands its bytes out, and only the block itself goes.
pub proof fn law_a_block_taken_apart_hands_out_its_bytes<A: BStackRaiiAllocator>(
    ctx: &mut Teardown,
    a: &mut A,
    block: BStackRange,
    r: Result<Vec<u8>, Error>,
)
    requires
        call_ensures(take_block::<A>, (ctx, a, block), r),
    ensures
        exists|got: Result<Seq<u8>, Error>, freed: Result<(), Error>|
            {
                &&& #[trigger] block_apart(
                    block,
                    old(a).spec_settings(),
                    old(ctx)@,
                    final(ctx)@,
                    old(a).trace(),
                    final(a).trace(),
                    got,
                    freed,
                )
                &&& match (got, freed) {
                    (Ok(b), Ok(_)) => r matches Ok(v) && v@ == b,
                    (Ok(b), Err(e)) => r matches Err(x) && x == e,
                    (Err(e), _) => r matches Err(x) && x == e,
                }
            },
{
    let asked = old(a).trace();
    let s = old(a).spec_settings();
    lemma_extends(asked, final(a).trace());
    let t = since(asked, final(a).trace());
    let got = t[0]->Read_reply;
    let seen = with_get(asked, block.start as int, block.len as int, got);
    assert(asked + t =~= seen + t.skip(1));
    let freed: Result<(), Error> = match r {
        Ok(_) => Ok(()),
        Err(e) => Err(e),
    };
    if got is Ok {
        lemma_freed(block, s, old(ctx)@, seen, final(ctx)@, t.skip(1), freed);
    } else {
        assert(asked + t =~= seen);
    }
    assert(block_apart(block, s, old(ctx)@, final(ctx)@, asked, final(a).trace(), got, freed));
}

/// What is behind a weak field comes out as one weak reference; nothing, where it is empty.
pub proof fn law_a_weak_field_hands_out_its_reference<T: BStackWeakable>(
    off: u64,
    r: Option<WeakRef<T>>,
)
    requires
        call_ensures(move_weak_field::<T>, (off,), r),
    ensures
        r is None <==> off == 0,
        r matches Some(w) ==> w@.start == off && w@.len == T::spec_control_size(),
{
}

/// What is behind a strong field comes out with its control block; nothing, where it is empty.
pub proof fn law_a_strong_field_hands_out_its_reference<T: BStackShared, A: BStackRaiiAllocator>(
    a: &mut A,
    off: u64,
    nullable: bool,
    r: Result<Option<Strong>, Error>,
)
    requires
        call_ensures(move_strong_field::<T, A>, (a, off, nullable), r),
    ensures
        if nullable && off == 0 {
            final(a).trace() == old(a).trace() && (r matches Ok(x) && x is None)
        } else {
            let data = BStackRange { start: off, len: T::spec_on_disk_size() };
            match r {
                Ok(x) => x matches Some(s) && s.data == data && control_found::<T>(
                    data,
                    old(a).trace(),
                    final(a).trace(),
                    Ok(s.ctrl),
                ),
                Err(e) => control_found::<T>(data, old(a).trace(), final(a).trace(), Err(e)),
            }
        },
{
    lemma_extends(old(a).trace(), final(a).trace());
    let t = since(old(a).trace(), final(a).trace());
    if !(nullable && off == 0) {
        let data = BStackRange { start: off, len: T::spec_on_disk_size() };
        let found: Result<Option<BStackRange>, Error> = match r {
            Ok(x) => Ok(x->0.ctrl),
            Err(e) => Err(e),
        };
        lemma_control_found::<T>(data, old(a).trace(), t, found);
    }
}

/// Whether a value comes out of the bytes behind a header, where it was put in as variant number
/// `i` with `d`: as it was, but that the control block of a strong reference is looked up, and
/// a block that lies within is stored in a place of its own.
pub open spec fn came_out(
    layout: EnumLayout,
    i: int,
    d: DataView,
    body: Seq<u8>,
    asked: Seq<Event>,
    now: Seq<Event>,
    r: Result<(int, DataView), Error>,
) -> bool {
    match (layout.arms@[i].part, d) {
        (Part::Strong(_, Some(size)), DataView::Strong(s)) => if s.data.start + 16 > u64::MAX {
            now == asked && r is Err
        } else {
            exists|got: Result<Seq<u8>, Error>|
                now == #[trigger] with_get(asked, s.data.start + 16, 8, got) && match got {
                    Err(e) => r == Err::<(int, DataView), Error>(e),
                    Ok(b) => r == Ok::<(int, DataView), Error>(
                        (
                            i,
                            DataView::Strong(
                                Strong {
                                    data: s.data,
                                    ctrl: Some(
                                        BStackRange { start: le_value(b) as u64, len: size },
                                    ),
                                },
                            ),
                        ),
                    ),
                }
        },
        (Part::Embed(n), _) => {
            let from = number_width(layout);
            exists|child: Result<BStackRange, Error>, w: Storing|
                {
                    &&& #[trigger] stored(
                        n as int,
                        body.subrange(from, from + n),
                        asked,
                        now,
                        child,
                        w,
                    )
                    &&& r == match child {
                        Ok(x) => Ok::<(int, DataView), Error>((i, DataView::Embed(x))),
                        Err(e) => Err(e),
                    }
                }
        },
        _ => now == asked && r == Ok::<(int, DataView), Error>((i, d)),
    }
}

proof fn lemma_came_out(
    layout: EnumLayout,
    i: int,
    d: DataView,
    body: Seq<u8>,
    asked: Seq<Event>,
    t: Seq<Event>,
    r: Result<(int, DataView), Error>,
)
    requires
        layout.wf(),
        0 <= i < layout.arms@.len(),
        suits(layout.arms@[i].part, d),
        body == crate::tagged::body_of(layout, i, d),
        decode_talk(layout, body, t, r),
    ensures
        came_out(layout, i, d, body, asked, asked + t, r),
{
    law_value_round_trip(layout, i, d);
    crate::tagged::lemma_body_len(layout, i, d);
    match (layout.arms@[i].part, d) {
        (Part::Strong(_, Some(size)), DataView::Strong(s)) => {
            if s.data.start + 16 > u64::MAX {
                assert(asked + t =~= asked);
            } else {
                let got = t[0]->Read_reply;
                assert(asked + t =~= with_get(asked, s.data.start + 16, 8, got));
            }
        },
        (Part::Embed(n), _) => {
            let from = number_width(layout);
            assert(body.skip(from).take(n as int) =~= body.subrange(from, from + n));
            let child: Result<BStackRange, Error> = match r {
                Ok((_, DataView::Embed(x))) => Ok(x),
                Ok(_) => Err(Error::NoSpace),
                Err(e) => Err(e),
            };
            let w = storing_of(t);
            lemma_stored(asked, t, w);
            assert(stored(n as int, body.subrange(from, from + n), asked, asked + t, child, w));
        },
        _ => {
            assert(asked + t =~= asked);
        },
    }
}

/// The value that was put in comes out of its bytes.
pub proof fn law_a_value_comes_out_of_its_bytes<A: BStackRaiiAllocator>(
    a: &mut A,
    layout: &EnumLayout,
    i: usize,
    d: Data,
    made: Vec<u8>,
    body: &[u8],
    r: Result<(usize, Data), Error>,
)
    requires
        layout.wf(),
        i < layout.arms@.len(),
        suits(layout.arms@[i as int].part, d@),
        call_ensures(encode, (layout, i, &d), made),
        body@ == made@,
        call_ensures(decode::<A>, (a, layout, body), r),
    ensures
        came_out(
            *layout,
            i as int,
            d@,
            body@,
            old(a).trace(),
            final(a).trace(),
            taken_view(r),
        ),
{
    lemma_extends(old(a).trace(), final(a).trace());
    lemma_came_out(
        *layout,
        i as int,
        d@,
        body@,
        old(a).trace(),
        since(old(a).trace(), final(a).trace()),
        taken_view(r),
    );
}

/// Whether an enum was taken apart: read, then its value brought out, up to the state `mid`, and
/// only then the block itself given back.
pub open spec fn value_taken(
    layout: EnumLayout,
    block: BStackRange,
    i: int,
    d: DataView,
    s: Settings,
    before: TeardownView,
    new: TeardownView,
    asked: Seq<Event>,
    now: Seq<Event>,
    r: Result<(int, DataView), Error>,
    b: Seq<u8>,
    mid: Seq<Event>,
    out: Result<(int, DataView), Error>,
    freed: Result<(), Error>,
) -> bool {
    let seen = with_get(asked, block.start as int, block.len as int, Ok(b));
    &&& came_out(layout, i, d, b.skip(number_at(layout)), seen, mid, out)
    &&& match out {
        Err(e) => now == mid && new == before && r == out,
        Ok(v) => one_free(block, s, before, mid, new, now, freed) && r == match freed {
            Ok(_) => out,
            Err(e) => Err(e),
        },
    }
}

/// An enum that is taken apart hands out the value that was put in, and only the block itself
/// goes, once the value is out.
pub proof fn law_an_enum_taken_apart_hands_out_its_value<A: BStackRaiiAllocator>(
    ctx: &mut Teardown,
    a: &mut A,
    layout: &EnumLayout,
    block: BStackRange,
    i: usize,
    d: Data,
    r: Result<(usize, Data), Error>,
)
    requires
        layout.wf(),
        is_block(*layout, block),
        i < layout.arms@.len(),
        suits(layout.arms@[i as int].part, d@),
        call_ensures(take_value::<A>, (ctx, a, layout, block), r),
    ensures
        exists|got: Result<Seq<u8>, Error>|
            value_out(
                *layout,
                block,
                i,
                d,
                old(a).spec_settings(),
                old(ctx)@,
                final(ctx)@,
                old(a).trace(),
                final(a).trace(),
                taken_view(r),
                got,
            ),
{
    let asked = old(a).trace();
    let s = old(a).spec_settings();
    lemma_extends(asked, final(a).trace());
    let t = since(asked, final(a).trace());
    let (k, out) = choose|k: int, out: Result<(int, DataView), Error>| #[trigger]
        take_value_talk(*layout, block, old(ctx)@, final(ctx)@, s, t, taken_view(r), k, out);
    assert(take_value_talk(*layout, block, old(ctx)@, final(ctx)@, s, t, taken_view(r), k, out));
    let got = t[0]->Read_reply;
    let seen = with_get(asked, block.start as int, block.len as int, got);
    match got {
        Err(e) => {
            assert(asked + t =~= seen);
        },
        Ok(b) => {
            let body = b.skip(number_at(*layout));
            if made_for(*layout, i, d, body) {
                let inner = t.subrange(1, k + 1);
                let mid = seen + inner;
                lemma_came_out(*layout, i as int, d@, body, seen, inner, out);
                let freed: Result<(), Error> = match r {
                    Ok(_) => Ok(()),
                    Err(e) => Err(e),
                };
                assert(asked + t =~= mid + t.skip(k + 1));
                if out is Ok {
                    lemma_freed(block, s, old(ctx)@, mid, final(ctx)@, t.skip(k + 1), freed);
                } else {
                    assert(mid + t.skip(k + 1) =~= mid);
                }
                assert(value_taken(
                    *layout,
                    block,
                    i as int,
                    d@,
                    s,
                    old(ctx)@,
                    final(ctx)@,
                    asked,
                    final(a).trace(),
                    taken_view(r),
                    b,
                    mid,
                    out,
                    freed,
                ));
            }
        },
    }
    assert(value_out(
        *layout,
        block,
        i,
        d,
        s,
        old(ctx)@,
        final(ctx)@,
        asked,
        final(a).trace(),
        taken_view(r),
        got,
    ));
}

/// Whether, once the block was read with `got`, the value `d` came out of it if its bytes are
/// those made for `d`.
pub open spec fn value_out(
    layout: EnumLayout,
    block: BStackRange,
    i: usize,
    d: Data,
    s: Settings,
    before: TeardownView,
    new: TeardownView,
    asked: Seq<Event>,
    now: Seq<Event>,
    r: Result<(int, DataView), Error>,
    got: Result<Seq<u8>, Error>,
) -> bool {
    match got {
        Err(e) => now == with_get(asked, block.start as int, block.len as int, got) && new
            == before && r == Err::<(int, DataView), Error>(e),
        Ok(b) => made_for(layout, i, d, b.skip(number_at(layout))) ==> exists|
            mid: Seq<Event>,
            out: Result<(int, DataView), Error>,
            freed: Result<(), Error>,
        | #[trigger]
            value_taken(
                layout,
                block,
                i as int,
                d@,
                s,
                before,
                new,
                asked,
                now,
                r,
                b,
                mid,
                out,
                freed,
            ),
    }
}

/// The conversation with one more exchange.
pub open spec fn with_exchange(
    asked: Seq<Event>,
    off: u64,
    bytes: Seq<u8>,
    got: Result<Seq<u8>, Error>,
) -> Seq<Event> {
    asked.push(Event::Swap { off, bytes, reply: got })
}

/// Replacing a value puts the new one in place in one exchange, and brings the old one out; or
/// gives the new one back. Where the old one cannot be brought out, the blocks it counted on are
/// named.
pub proof fn law_a_replaced_value_comes_out<A: BStackRaiiAllocator>(
    a: &mut A,
    layout: &EnumLayout,
    block: BStackRange,
    i: usize,
    d: Data,
    made: Vec<u8>,
    j: usize,
    was: Data,
    made_then: Vec<u8>,
    r: Result<(usize, Data), SwapError>,
)
    requires
        layout.wf(),
        layout.mode == Mode::Plain,
        i < layout.arms@.len(),
        suits(layout.arms@[i as int].part, d@),
        j < layout.arms@.len(),
        suits(layout.arms@[j as int].part, was@),
        layout.tag@.len() == 8,
        call_ensures(encode, (layout, i, &d), made),
        call_ensures(encode, (layout, j, &was), made_then),
        call_ensures(replace_value::<A>, (a, layout, block, i, d), r),
    ensures
        exists|bytes: Seq<u8>, got: Result<Seq<u8>, Error>|
            {
                let swapped = #[trigger] with_exchange(old(a).trace(), block.start, bytes, got);
                &&& is_fresh(bytes, Mode::Plain, layout.tag@, 0, made@)
                &&& match got {
                    Err(e) => final(a).trace() == swapped && (r matches Err(x) && x.error.source
                        == e && (x.error.value matches Some(v) && v.0 == i && v.1@ == d@)
                        && x.raw@.len() == 0),
                    Ok(b) => b.skip(16) == made_then@ ==> {
                        &&& came_out(
                            *layout,
                            j as int,
                            was@,
                            b.skip(16),
                            swapped,
                            final(a).trace(),
                            match r {
                                Ok(v) => Ok((v.0 as int, v.1@)),
                                Err(x) => Err(x.error.source),
                            },
                        )
                        &&& r matches Err(x) ==> x.error.value is None && x.raw@ == match was@ {
                            DataView::Strong(s) => seq![s.data],
                            _ => Seq::empty(),
                        }
                    },
                }
            },
{
    let asked = old(a).trace();
    lemma_extends(asked, final(a).trace());
    let t = since(asked, final(a).trace());
    let body = crate::tagged::body_of(*layout, i as int, d@);
    law_value_round_trip(*layout, i as int, d@);
    law_value_round_trip(*layout, j as int, was@);
    lemma_fresh(Mode::Plain, layout.tag@, 0, body);
    let bytes = t[0]->Swap_bytes;
    let got = t[0]->Swap_reply;
    let swapped = with_exchange(asked, block.start, bytes, got);
    assert(asked + t =~= swapped + t.skip(1));
    match got {
        Err(e) => {
            assert(asked + t =~= swapped);
        },
        Ok(b) => {
            if b.skip(16) == made_then@ {
                let out: Result<(int, DataView), Error> = match r {
                    Ok(v) => Ok((v.0 as int, v.1@)),
                    Err(x) => Err(x.error.source),
                };
                lemma_came_out(*layout, j as int, was@, b.skip(16), swapped, t.skip(1), out);
            }
        },
    }
}

/// Setting a value writes the whole block anew, with that value.
pub proof fn law_a_set_value_is_written_whole<A: BStackRaiiAllocator>(
    a: &mut A,
    layout: &EnumLayout,
    block: BStackRange,
    i: usize,
    d: &Data,
    made: Vec<u8>,
    r: Result<(), Error>,
)
    requires
        layout.wf(),
        layout.tag@.len() == 8,
        i < layout.arms@.len(),
        suits(layout.arms@[i as int].part, d@),
        call_ensures(encode, (layout, i, d), made),
        call_ensures(set_value::<A>, (a, layout, block, i, d), r),
    ensures
        exists|bytes: Seq<u8>|
            final(a).trace() == #[trigger] with_put(
                old(a).trace(),
                block.start as int,
                bytes,
                r,
            ) && is_fresh(bytes, Mode::Plain, layout.tag@, 0, made@),
{
    lemma_fresh(Mode::Plain, layout.tag@, 0, made@);
    let bytes = fresh_image(Mode::Plain, layout.tag@, 0, made@);
    assert(final(a).trace() == with_put(old(a).trace(), block.start as int, bytes, r));
}

/// A block whose number no variant has hands nothing out and asks for nothing.
pub proof fn law_a_number_of_no_variant_hands_nothing_out<A: BStackRaiiAllocator>(
    a: &mut A,
    layout: &EnumLayout,
    body: &[u8],
    r: Result<(usize, Data), Error>,
)
    requires
        layout.wf(),
        body@.len() == number_width(*layout) + layout.payload,
        forall|i: int|
            0 <= i < layout.arms@.len() ==> #[trigger] number_word(*layout, i) != number_in(
                *layout,
                body@,
            ),
        call_ensures(decode::<A>, (a, layout, body), r),
    ensures
        final(a).trace() == old(a).trace(),
        r matches Err(e) && e == Error::InvalidDiscriminant,
{
    lemma_extends(old(a).trace(), final(a).trace());
    let t = since(old(a).trace(), final(a).trace());
    lemma_no_variant(*layout, body@);
    assert(old(a).trace() + t =~= old(a).trace());
}

/// Whether the block that is to lie within another was copied there, and its old place given
/// back; or else what was built for it was given back.
pub open spec fn filled(
    built: Built,
    child: BStackRange,
    at: int,
    s: Settings,
    before: TeardownView,
    new: TeardownView,
    asked: Seq<Event>,
    now: Seq<Event>,
    w: Within,
) -> bool {
    if built.data.start + at > u64::MAX {
        w.failed == Some(Error::BlockOffsetOverflow) && given_up(built, s, before, new, asked, now)
    } else {
        let copied = with_copy(asked, child.start, built.data.start + at, child.len, w.copied);
        match w.copied {
            Err(e) => w.failed == Some(e) && given_up(built, s, before, new, copied, now),
            Ok(_) => {
                &&& one_free(child, s, before, copied, w.ctx, w.asked, w.freed)
                &&& match w.freed {
                    Ok(_) => w.failed is None && now == w.asked && new == w.ctx,
                    Err(e) => w.failed == Some(e) && given_up(built, s, w.ctx, new, w.asked, now),
                }
            },
        }
    }
}

/// How a block was moved into another: what came of the copy and of the free, the state after
/// both, and what failed.
pub struct Within {
    pub copied: Result<(), Error>,
    pub freed: Result<(), Error>,
    pub ctx: TeardownView,
    pub asked: Seq<Event>,
    pub failed: Option<Error>,
}

/// Whether what was built was given back: the block, and then its control block.
pub open spec fn given_up(
    built: Built,
    s: Settings,
    before: TeardownView,
    new: TeardownView,
    asked: Seq<Event>,
    now: Seq<Event>,
) -> bool {
    match built.ctrl {
        None => exists|r: Result<(), Error>| #[trigger]
            one_free(built.data, s, before, asked, new, now, r),
        Some(ctrl) => exists|mid: TeardownView, then: Seq<Event>, r: Result<(), Error>|
            #[trigger]
            one_free(built.data, s, before, asked, mid, then, r) && went_too(
                ctrl,
                s,
                mid,
                new,
                then,
                now,
            ),
    }
}

/// Whether one more block was given back.
pub open spec fn went_too(
    range: BStackRange,
    s: Settings,
    before: TeardownView,
    new: TeardownView,
    asked: Seq<Event>,
    now: Seq<Event>,
) -> bool {
    exists|r: Result<(), Error>| #[trigger] one_free(range, s, before, asked, new, now, r)
}

proof fn lemma_given_up(
    built: Built,
    s: Settings,
    before: TeardownView,
    new: TeardownView,
    asked: Seq<Event>,
    t: Seq<Event>,
)
    requires
        unbuilt_talk(built, before, new, s, t),
    ensures
        given_up(built, s, before, new, asked, asked + t),
{
    match built.ctrl {
        None => {
            let r = choose|r: Result<(), Error>| #[trigger]
                dealloc_talk(before, new, s, built.data, t, r);
            lemma_freed(built.data, s, before, asked, new, t, r);
        },
        Some(ctrl) => {
            let u = choose|u: Unbuilding| #[trigger]
                unbuilt_both(built.data, ctrl, before, new, s, t, u);
            let then = asked + t.take(u.k);
            lemma_freed(built.data, s, before, asked, u.ctx, t.take(u.k), u.first);
            lemma_freed(ctrl, s, u.ctx, then, new, t.skip(u.k), u.second);
            assert(t =~= t.take(u.k) + t.skip(u.k));
            assert(then + t.skip(u.k) =~= asked + t);
            assert(went_too(ctrl, s, u.ctx, new, then, asked + t));
        },
    }
}

proof fn lemma_filled(
    layout: EnumLayout,
    child: BStackRange,
    built: Built,
    before: TeardownView,
    new: TeardownView,
    s: Settings,
    asked: Seq<Event>,
    t: Seq<Event>,
    r: Result<Built, Error>,
    f: Filling,
) -> (w: Within)
    requires
        filled_talk(layout, DataView::Embed(child), built, before, new, s, t, r, f),
    ensures
        filled(
            built,
            child,
            number_at(layout) + number_width(layout),
            s,
            before,
            new,
            asked,
            asked + t,
            w,
        ),
        match w.failed {
            None => r == Ok::<Built, Error>(built),
            Some(e) => r == Err::<Built, Error>(e),
        },
{
    let at = number_at(layout) + number_width(layout);
    if built.data.start + at > u64::MAX {
        lemma_given_up(built, s, before, new, asked, t);
        Within {
            copied: Ok(()),
            freed: Ok(()),
            ctx: before,
            asked,
            failed: Some(Error::BlockOffsetOverflow),
        }
    } else {
        let first = t.take(f.j);
        let reply = first[0]->Copy_reply;
        let copied = with_copy(asked, child.start, built.data.start + at, child.len, reply);
        assert(t =~= first + t.skip(f.j));
        assert(asked + first =~= copied + first.skip(1));
        let mid = copied + first.skip(1);
        assert(asked + t =~= mid + t.skip(f.j));
        if reply is Ok {
            lemma_freed(child, s, before, copied, f.ctx, first.skip(1), f.moved);
        } else {
            assert(mid =~= copied);
        }
        if f.moved is Err {
            lemma_given_up(built, s, f.ctx, new, mid, t.skip(f.j));
        } else {
            assert(mid + t.skip(f.j) =~= mid);
        }
        Within {
            copied: reply,
            freed: f.moved,
            ctx: f.ctx,
            asked: mid,
            failed: match f.moved {
                Ok(_) => None,
                Err(e) => Some(e),
            },
        }
    }
}

/// Whether a block with the bytes `bytes` was made and stored, up to the state `mid`, and what
/// lies within it moved there.
pub open spec fn value_made(
    layout: EnumLayout,
    d: DataView,
    s: Settings,
    before: TeardownView,
    new: TeardownView,
    asked: Seq<Event>,
    now: Seq<Event>,
    r: Result<Built, Error>,
    bytes: Seq<u8>,
    mid: Seq<Event>,
    data: Result<BStackRange, Error>,
    st: Storing,
    w: Within,
) -> bool {
    &&& stored(bytes.len() as int, bytes, asked, mid, data, st)
    &&& match data {
        Err(e) => now == mid && new == before && r == Err::<Built, Error>(e),
        Ok(x) => {
            let built = Built { data: x, ctrl: None };
            match d {
                DataView::Embed(child) => filled(
                    built,
                    child,
                    number_at(layout) + number_width(layout),
                    s,
                    before,
                    new,
                    mid,
                    now,
                    w,
                ) && r == match w.failed {
                    None => Ok::<Built, Error>(built),
                    Some(e) => Err(e),
                },
                _ => now == mid && new == before && r == Ok::<Built, Error>(built),
            }
        },
    }
}

/// What was made, or what failed.
pub open spec fn made_or_failed(r: Result<Built, ConstructError<(usize, Data)>>) -> Result<
    Built,
    Error,
> {
    match r {
        Ok(b) => Ok(b),
        Err(x) => Err(x.source),
    }
}

/// Whether a failed construction gives the value back: exactly where some variant has something
/// that goes with it.
pub open spec fn value_back(
    layout: EnumLayout,
    i: usize,
    d: DataView,
    r: Result<Built, ConstructError<(usize, Data)>>,
) -> bool {
    r matches Err(x) ==> match x.fields {
        Some(v) => any_charge(layout) && v.0 == i && v.1@ == d,
        None => !any_charge(layout),
    }
}

/// A value is made into a block of its own, with its number, in one write; what lies within it is
/// moved there. Where that fails no block is left over, and the value is given back.
pub proof fn law_a_value_is_made_into_a_block<A: BStackRaiiAllocator>(
    ctx: &mut Teardown,
    a: &mut A,
    layout: &EnumLayout,
    i: usize,
    d: Data,
    made: Vec<u8>,
    r: Result<Built, ConstructError<(usize, Data)>>,
)
    requires
        layout.wf(),
        layout.mode != Mode::RcWeak,
        layout.tag@.len() == 8,
        i < layout.arms@.len(),
        suits(layout.arms@[i as int].part, d@),
        call_ensures(encode, (layout, i, &d), made),
        call_ensures(create::<A>, (ctx, a, layout, i, d), r),
    ensures
        value_back(*layout, i, d@, r),
        exists|
            bytes: Seq<u8>,
            mid: Seq<Event>,
            data: Result<BStackRange, Error>,
            st: Storing,
            w: Within,
        |
            {
                &&& #[trigger] value_made(
                    *layout,
                    d@,
                    old(a).spec_settings(),
                    old(ctx)@,
                    final(ctx)@,
                    old(a).trace(),
                    final(a).trace(),
                    made_or_failed(r),
                    bytes,
                    mid,
                    data,
                    st,
                    w,
                )
                &&& is_fresh(bytes, layout.mode, layout.tag@, 0, made@)
            },
{
    let asked = old(a).trace();
    let s = old(a).spec_settings();
    lemma_extends(asked, final(a).trace());
    lemma_owns(*layout);
    let t = since(asked, final(a).trace());
    let m = choose|m: Making| #[trigger]
        create_talk(*layout, old(ctx)@, final(ctx)@, s, i as int, d@, t, made_view(r), m);
    let first = t.take(m.k);
    let rest = t.skip(m.k);
    let mid = asked + first;
    assert(t =~= first + rest);
    assert(asked + t =~= mid + rest);
    let st = storing_of(first);
    lemma_stored(asked, first, st);
    lemma_fresh(layout.mode, layout.tag@, 0, made@);
    let bytes = fresh_image(layout.mode, layout.tag@, 0, made@);
    let data: Result<BStackRange, Error> = match m.built {
        Ok(b) => Ok(b.data),
        Err(e) => Err(e),
    };
    assert(stored(bytes.len() as int, bytes, asked, mid, data, st));
    let plain = Within {
        copied: Ok(()),
        freed: Ok(()),
        ctx: old(ctx)@,
        asked,
        failed: None,
    };
    let w = match (m.built, d@) {
        (Ok(built), DataView::Embed(child)) => lemma_filled(
            *layout,
            child,
            built,
            old(ctx)@,
            final(ctx)@,
            s,
            mid,
            rest,
            made_or_failed(r),
            m.fill,
        ),
        _ => {
            assert(mid + rest =~= mid);
            plain
        },
    };
    assert(value_made(
        *layout,
        d@,
        s,
        old(ctx)@,
        final(ctx)@,
        asked,
        final(a).trace(),
        made_or_failed(r),
        bytes,
        mid,
        data,
        st,
        w,
    ));
}

/// Whether a pair was made, up to the state `mid`, and what lies within it moved there.
pub open spec fn pair_value_made(
    layout: EnumLayout,
    ctrl_tag: Seq<u8>,
    ctrl_size: u64,
    d: DataView,
    s: Settings,
    before: TeardownView,
    new: TeardownView,
    asked: Seq<Event>,
    now: Seq<Event>,
    r: Result<Built, Error>,
    body: Seq<u8>,
    mid: Seq<Event>,
    built: Built,
    w: Within,
) -> bool {
    &&& pair_made(asked, mid, layout.tag@, ctrl_tag, ctrl_size, body, built)
    &&& match d {
        DataView::Embed(child) => filled(
            built,
            child,
            number_at(layout) + number_width(layout),
            s,
            before,
            new,
            mid,
            now,
            w,
        ) && r == match w.failed {
            None => Ok::<Built, Error>(built),
            Some(e) => Err(e),
        },
        _ => now == mid && new == before && r == Ok::<Built, Error>(built),
    }
}

/// A value is made into a counted block with its control block in one step; what lies within it is
/// moved there. Where that fails the value is given back.
pub proof fn law_a_value_is_made_into_a_pair<A: BStackRaiiAllocator>(
    ctx: &mut Teardown,
    a: &mut A,
    layout: &EnumLayout,
    ctrl_tag: EightCC,
    ctrl_size: u64,
    i: usize,
    d: Data,
    made: Vec<u8>,
    r: Result<Built, ConstructError<(usize, Data)>>,
)
    requires
        layout.wf(),
        layout.mode == Mode::RcWeak,
        layout.tag@.len() == 8,
        ctrl_tag@.len() == 8,
        40 <= ctrl_size <= usize::MAX,
        i < layout.arms@.len(),
        suits(layout.arms@[i as int].part, d@),
        call_ensures(encode, (layout, i, &d), made),
        call_ensures(create_pair::<A>, (ctx, a, layout, ctrl_tag, ctrl_size, i, d), r),
    ensures
        value_back(*layout, i, d@, r),
        r is Ok ==> exists|
            mid: Seq<Event>,
            built: Built,
            w: Within,
        | #[trigger]
            pair_value_made(
                *layout,
                ctrl_tag@,
                ctrl_size,
                d@,
                old(a).spec_settings(),
                old(ctx)@,
                final(ctx)@,
                old(a).trace(),
                final(a).trace(),
                made_or_failed(r),
                made@,
                mid,
                built,
                w,
            ),
{
    let asked = old(a).trace();
    let s = old(a).spec_settings();
    lemma_extends(asked, final(a).trace());
    lemma_owns(*layout);
    let t = since(asked, final(a).trace());
    let m = choose|m: PairMaking| #[trigger]
        create_pair_talk(
            *layout,
            ctrl_tag@,
            ctrl_size,
            old(ctx)@,
            final(ctx)@,
            s,
            i as int,
            d@,
            t,
            made_view(r),
            m,
        );
    let first = t.take(m.k);
    let rest = t.skip(m.k);
    let mid = asked + first;
    assert(t =~= first + rest);
    assert(asked + t =~= mid + rest);
    if r is Ok {
        let built = m.built->Ok_0;
        lemma_pair_made(
            layout.tag@,
            ctrl_tag@,
            ctrl_size,
            made@,
            old(ctx)@,
            m.ctx,
            s,
            m.j,
            m.blocks,
            asked,
            first,
            built,
        );
        let w = match d@ {
            DataView::Embed(child) => lemma_filled(
                *layout,
                child,
                built,
                m.ctx,
                final(ctx)@,
                s,
                mid,
                rest,
                made_or_failed(r),
                m.fill,
            ),
            _ => {
                assert(mid + rest =~= mid);
                Within {
                    copied: Ok(()),
                    freed: Ok(()),
                    ctx: m.ctx,
                    asked,
                    failed: None,
                }
            },
        };
        assert(pair_value_made(
            *layout,
            ctrl_tag@,
            ctrl_size,
            d@,
            s,
            old(ctx)@,
            final(ctx)@,
            asked,
            final(a).trace(),
            made_or_failed(r),
            made@,
            mid,
            built,
            w,
        ));
    }
}

/// Whether `w` is what comes out of a strong field of a block with the bytes `b`.
pub open spec fn field_out(t: Seq<Event>, f: StrongField, b: Seq<u8>, w: Option<Strong>) -> bool {
    &&& leads_to(
        match w {
            Some(x) => Some(x.data),
            None => None,
        },
        b.subrange(f.at as int, f.at + 8),
        f.size,
        f.nullable,
    )
    &&& w matches Some(x) ==> match f.control {
        None => x.ctrl is None,
        Some(size) => named_in(t, x, size),
    }
}

/// Whether the conversation `t` has the read that names this control block.
pub open spec fn named_in(t: Seq<Event>, x: Strong, size: u64) -> bool {
    exists|j: int|
        {
            &&& 0 <= j < t.len()
            &&& #[trigger] t[j] matches Event::Read { off, len: 8, reply: Ok(c) }
            &&& off == x.data.start + 16
            &&& x.ctrl == Some(BStackRange { start: le_value(c) as u64, len: size })
        }
}

proof fn lemma_named_in(t: Seq<Event>, from: int, to: int, x: Strong, size: u64)
    requires
        0 <= from <= to <= t.len(),
        named_in(t.subrange(from, to), x, size),
    ensures
        named_in(t, x, size),
{
    let part = t.subrange(from, to);
    let j = choose|j: int|
        {
            &&& 0 <= j < part.len()
            &&& #[trigger] part[j] matches Event::Read { off, len: 8, reply: Ok(c) }
            &&& off == x.data.start + 16
            &&& x.ctrl == Some(BStackRange { start: le_value(c) as u64, len: size })
        };
    assert(part[j] == t[j + from]);
}

proof fn lemma_fields_out(
    fields: Seq<StrongField>,
    b: Seq<u8>,
    t: Seq<Event>,
    r: Result<Seq<Option<Strong>>, Error>,
)
    requires
        find_all_talk(fields, b, t, r),
    ensures
        forall|j: int| 0 <= j < t.len() ==> (#[trigger] t[j]) is Read,
        r matches Ok(v) ==> v.len() == fields.len() && forall|i: int|
            0 <= i < v.len() ==> field_out(t, fields[i], b, #[trigger] v[i]),
        r matches Err(e) ==> (t.len() > 0 && t.last()->Read_reply == Err::<Seq<u8>, Error>(e)) || e
            == Error::BlockOffsetOverflow,
    decreases fields.len(),
{
    if fields.len() > 0 {
        let (k, so_far) = choose|k: int, so_far: Result<Seq<Option<Strong>>, Error>|
            {
                &&& #[trigger] find_last_talk(fields, b, t, r, k, so_far)
                &&& find_all_talk(fields.drop_last(), b, t.take(k), so_far)
            };
        let first = t.take(k);
        let rest = t.skip(k);
        lemma_fields_out(fields.drop_last(), b, first, so_far);
        assert forall|j: int| 0 <= j < t.len() implies (#[trigger] t[j]) is Read by {
            if j < k {
                assert(first[j] == t[j]);
            } else {
                assert(rest[j - k] == t[j]);
            }
        }
        match r {
            Ok(v) => {
                let n = fields.len() - 1;
                let w = so_far->Ok_0;
                assert forall|i: int| 0 <= i < v.len() implies field_out(
                    t,
                    fields[i],
                    b,
                    #[trigger] v[i],
                ) by {
                    if i < n {
                        assert(v.drop_last()[i] == v[i]);
                        assert(fields.drop_last()[i] == fields[i]);
                        assert(field_out(first, fields[i], b, w[i]));
                        if w[i] is Some && fields[i].control is Some {
                            assert(t.subrange(0, k) =~= first);
                            lemma_named_in(t, 0, k, w[i]->0, fields[i].control->0);
                        }
                    } else if v[i] is Some && fields[i].control is Some {
                        assert(rest[0] == t[k]);
                    }
                }
            },
            Err(e) => {
                if so_far is Err {
                    assert(first =~= t);
                } else if rest.len() > 0 {
                    assert(rest.last() == t.last());
                }
            },
        }
    }
}

/// Whether a struct was taken apart, with its bytes `b`: all its strong references were looked up
/// before, up to the state `mid`, and only then it was given back itself.
pub open spec fn struct_apart(
    fields: Seq<StrongField>,
    block: BStackRange,
    s: Settings,
    before: TeardownView,
    new: TeardownView,
    asked: Seq<Event>,
    now: Seq<Event>,
    r: Result<(Vec<u8>, Vec<Option<Strong>>), Error>,
    b: Seq<u8>,
    mid: Seq<Event>,
    freed: Result<(), Error>,
) -> bool {
    &&& goes_on(with_get(asked, block.start as int, block.len as int, Ok(b)), mid)
    &&& forall|j: int| asked.len() <= j < mid.len() ==> (#[trigger] mid[j]) is Read
    &&& one_free(block, s, before, mid, new, now, freed)
    &&& match r {
        Ok(x) => {
            &&& freed is Ok
            &&& x.0@ == b
            &&& x.1@.len() == fields.len()
            &&& forall|i: int|
                0 <= i < fields.len() ==> field_out(
                    mid.skip(asked.len() as int),
                    fields[i],
                    b,
                    #[trigger] x.1@[i],
                )
        },
        Err(e) => freed == Err::<(), Error>(e),
    }
}

/// A struct that is taken apart hands out its bytes and its strong references, each with its
/// control block, and only the block itself goes. Where a control block cannot be found nothing
/// goes.
pub proof fn law_a_struct_taken_apart_hands_out_its_references<A: BStackRaiiAllocator>(
    ctx: &mut Teardown,
    a: &mut A,
    fields: &Vec<StrongField>,
    block: BStackRange,
    r: Result<(Vec<u8>, Vec<Option<Strong>>), Error>,
)
    requires
        call_ensures(take_fields::<A>, (ctx, a, fields, block), r),
    ensures
        ({
            let asked = old(a).trace();
            let now = final(a).trace();
            ||| exists|b: Seq<u8>, mid: Seq<Event>, freed: Result<(), Error>| #[trigger]
                struct_apart(
                    fields@,
                    block,
                    old(a).spec_settings(),
                    old(ctx)@,
                    final(ctx)@,
                    asked,
                    now,
                    r,
                    b,
                    mid,
                    freed,
                )
            ||| {
                &&& r matches Err(e)
                &&& final(ctx)@ == old(ctx)@
                &&& goes_on(asked, now)
                &&& forall|j: int| asked.len() <= j < now.len() ==> (#[trigger] now[j]) is Read
                &&& now.len() > asked.len()
                &&& now.last()->Read_reply == Err::<Seq<u8>, Error>(e) || e
                    == Error::BlockOffsetOverflow
            }
        }),
{
    let asked = old(a).trace();
    let s = old(a).spec_settings();
    lemma_extends(asked, final(a).trace());
    let t = since(asked, final(a).trace());
    let now = final(a).trace();
    let (k, found) = choose|k: int, found: Result<Seq<Option<Strong>>, Error>| #[trigger]
        take_fields_talk(
            fields@,
            block,
            old(ctx)@,
            final(ctx)@,
            s,
            t,
            fields_view(r),
            k,
            found,
        );
    assert(take_fields_talk(
        fields@,
        block,
        old(ctx)@,
        final(ctx)@,
        s,
        t,
        fields_view(r),
        k,
        found,
    ));
    let got = t[0]->Read_reply;
    assert(now.last() == t.last());
    match got {
        Err(e) => {
            assert forall|j: int| asked.len() <= j < now.len() implies (#[trigger] now[j])
                is Read by {
                assert(now[j] == t[j - asked.len()]);
            }
        },
        Ok(b) => {
            let inner = t.subrange(1, k + 1);
            lemma_fields_out(fields@, b, inner, found);
            let seen = with_get(asked, block.start as int, block.len as int, got);
            let mid = seen + inner;
            assert(mid.take(seen.len() as int) =~= seen);
            assert(asked + t =~= mid + t.skip(k + 1));
            assert forall|j: int| asked.len() <= j < mid.len() implies (#[trigger] mid[j])
                is Read by {
                if j > asked.len() {
                    assert(mid[j] == inner[j - asked.len() - 1]);
                }
            }
            match found {
                Err(e) => {
                    assert(mid + t.skip(k + 1) =~= mid);
                    assert(now.take(asked.len() as int) =~= asked);
                    if inner.len() > 0 {
                        assert(now.last() == inner.last());
                    }
                },
                Ok(v) => {
                    let freed: Result<(), Error> = match r {
                        Ok(_) => Ok(()),
                        Err(e) => Err(e),
                    };
                    lemma_freed(
                        block,
                        s,
                        old(ctx)@,
                        mid,
                        final(ctx)@,
                        t.skip(k + 1),
                        freed,
                    );
                    let said = mid.skip(asked.len() as int);
                    assert forall|i: int| 0 <= i < fields@.len() implies field_out(
                        said,
                        fields@[i],
                        b,
                        #[trigger] v[i],
                    ) by {
                        assert(field_out(inner, fields@[i], b, v[i]));
                        if v[i] is Some && fields@[i].control is Some {
                            let n = said.len() as int;
                            assert(said.subrange(1, n) =~= inner);
                            lemma_named_in(said, 1, n, v[i]->0, fields@[i].control->0);
                        }
                    }
                    assert(struct_apart(
                        fields@,
                        block,
                        s,
                        old(ctx)@,
                        final(ctx)@,
                        asked,
                        now,
                        r,
                        b,
                        mid,
                        freed,
                    ));
                },
            }
        },
    }
}

/// A value is not made into a pair only where a request is refused, or where what lies within
/// would lie past all offsets.
pub proof fn law_a_value_fails_only_where_it_is_refused<A: BStackRaiiAllocator>(
    ctx: &mut Teardown,
    a: &mut A,
    layout: &EnumLayout,
    ctrl_tag: EightCC,
    ctrl_size: u64,
    i: usize,
    d: Data,
    x: ConstructError<(usize, Data)>,
)
    requires
        call_ensures(create_pair::<A>, (ctx, a, layout, ctrl_tag, ctrl_size, i, d), Err(x)),
    ensures
        some_refused(final(a).trace().skip(old(a).trace().len() as int), x.source) || (d@ is Embed
            && x.source == Error::BlockOffsetOverflow),
{
    let s = old(a).spec_settings();
    let t = since(old(a).trace(), final(a).trace());
    let r: Result<Built, ConstructError<(usize, Data)>> = Err(x);
    let m = choose|m: PairMaking| #[trigger]
        create_pair_talk(
            *layout,
            ctrl_tag@,
            ctrl_size,
            old(ctx)@,
            final(ctx)@,
            s,
            i as int,
            d@,
            t,
            made_view(r),
            m,
        );
    let first = t.take(m.k);
    let rest = t.skip(m.k);
    match m.built {
        Err(e) => {
            lemma_pair_refused(
                layout.tag@,
                ctrl_tag@,
                ctrl_size,
                crate::tagged::body_of(*layout, i as int, d@),
                old(ctx)@,
                m.ctx,
                s,
                m.j,
                m.blocks,
                first,
                e,
            );
            let j = choose|j: int| 0 <= j < first.len() && #[trigger] is_refused(first[j], e);
            assert(t[j] == first[j]);
        },
        Ok(built) => {
            let moved = rest.take(m.fill.j);
            if d@ is Embed && x.source != Error::BlockOffsetOverflow {
                assert(moved[0] == t[m.k]);
                if moved[0]->Copy_reply is Ok {
                    assert(moved.skip(1)[0] == t[m.k + 1]);
                    assert(is_refused(t[m.k + 1], x.source));
                } else {
                    assert(is_refused(t[m.k], x.source));
                }
            }
        },
    }
}

/// An enum whose number no variant has is not taken apart: the block stays.
pub proof fn law_a_number_of_no_variant_is_not_taken_apart<A: BStackRaiiAllocator>(
    ctx: &mut Teardown,
    a: &mut A,
    layout: &EnumLayout,
    block: BStackRange,
    r: Result<(usize, Data), Error>,
)
    requires
        layout.wf(),
        is_block(*layout, block),
        call_ensures(take_value::<A>, (ctx, a, layout, block), r),
    ensures
        exists|got: Result<Seq<u8>, Error>|
            {
                let seen = #[trigger] with_get(
                    old(a).trace(),
                    block.start as int,
                    block.len as int,
                    got,
                );
                &&& goes_on(seen, final(a).trace())
                &&& got matches Ok(b) ==> b.len() == block.len && of_no_variant(*layout, b) ==> (
                r matches Err(e) && e == Error::InvalidDiscriminant && final(a).trace() == seen
                    && final(ctx)@ == old(ctx)@)
            },
{
    let asked = old(a).trace();
    let s = old(a).spec_settings();
    lemma_extends(asked, final(a).trace());
    let t = since(asked, final(a).trace());
    let (k, out) = choose|k: int, out: Result<(int, DataView), Error>| #[trigger]
        take_value_talk(*layout, block, old(ctx)@, final(ctx)@, s, t, taken_view(r), k, out);
    assert(take_value_talk(*layout, block, old(ctx)@, final(ctx)@, s, t, taken_view(r), k, out));
    let got = t[0]->Read_reply;
    let seen = with_get(asked, block.start as int, block.len as int, got);
    assert(asked + t =~= seen + t.skip(1));
    assert((seen + t.skip(1)).take(seen.len() as int) =~= seen);
    if let Ok(b) = got {
        if b.len() == block.len && of_no_variant(*layout, b) {
            lemma_of_no_variant(*layout, block, b);
            assert(t.skip(1) =~= Seq::empty());
            assert(asked + t =~= seen);
        }
    }
}

/// A value that is replaced where no variant has the old number is in place, and what was there
/// cannot be handed out.
pub proof fn law_a_number_of_no_variant_is_not_handed_out<A: BStackRaiiAllocator>(
    a: &mut A,
    layout: &EnumLayout,
    block: BStackRange,
    i: usize,
    d: Data,
    r: Result<(usize, Data), SwapError>,
)
    requires
        layout.wf(),
        layout.mode == Mode::Plain,
        is_block(*layout, block),
        call_ensures(replace_value::<A>, (a, layout, block, i, d), r),
    ensures
        exists|bytes: Seq<u8>, got: Result<Seq<u8>, Error>|
            {
                let swapped = #[trigger] with_exchange(old(a).trace(), block.start, bytes, got);
                &&& goes_on(swapped, final(a).trace())
                &&& got matches Ok(b) ==> b.len() == block.len && of_no_variant(*layout, b) ==> (
                r matches Err(x) && x.error.source == Error::InvalidDiscriminant && x.error.value
                    is None && x.raw@.len() == 0 && final(a).trace() == swapped)
            },
{
    let asked = old(a).trace();
    lemma_extends(asked, final(a).trace());
    let t = since(asked, final(a).trace());
    let bytes = t[0]->Swap_bytes;
    let got = t[0]->Swap_reply;
    let swapped = with_exchange(asked, block.start, bytes, got);
    assert(asked + t =~= swapped + t.skip(1));
    assert((swapped + t.skip(1)).take(swapped.len() as int) =~= swapped);
    if let Ok(b) = got {
        if b.len() == block.len && of_no_variant(*layout, b) {
            lemma_of_no_variant(*layout, block, b);
            assert(t.skip(1) =~= Seq::empty());
            assert(asked + t =~= swapped);
        }
    }
}

} // verus!
