//! Making blocks: what is written into them, and that nothing is left over where that fails.
use vstd::prelude::*;

use crate::allocator::{lemma_extends, ranges_view, since, BStackRaiiAllocator, Event, Settings};
use crate::bulk::{
    alloc_many, bulk_alloc_many, bulk_free_many, free_many, law_failed_allocation_leaves_nothing,
    law_unfreed_blocks_are_those_that_failed, seq_free_many, FreeManyError,
};
use crate::bytes::{
    le_bytes, le_value, lemma_le_bytes_len, lemma_le_value_of_bytes, lemma_pow256_4_8,
};
use crate::construct::{
    build_block, build_pair, build_pair_talk, conclude_construction, fresh_image, Built,
};
use crate::derive::kind::Mode;
use crate::duplicate::store_copy;
use crate::embed::{embed_children, embed_one, embed_talk, last_move, Move, SoFar};
use crate::error::Error;
use crate::handback::ConstructError;
use crate::layout::{
    alloc_block, build_control_payload, law_block_header_round_trip,
    law_control_block_starts_with_one_owner, BlockHeader, EightCC,
};
use crate::range::BStackRange;
use crate::teardown::{Teardown, TeardownView};

use super::{holds_back, one_free};

verus! {

/// How bytes were stored in a block of their own: what came of taking the block, of writing it,
/// and of giving it back.
pub struct Storing {
    pub taken: Result<BStackRange, Error>,
    pub wrote: Result<(), Error>,
    pub back: Result<(), Error>,
}

/// Whether a block of `len` bytes was taken, and `bytes` were written to its start: `r` is where
/// it is. A block that could not be written was given back.
pub open spec fn stored(
    len: int,
    bytes: Seq<u8>,
    asked: Seq<Event>,
    asked_now: Seq<Event>,
    r: Result<BStackRange, Error>,
    w: Storing,
) -> bool {
    let took = asked.push(Event::Alloc { len: len as u64, reply: w.taken });
    match w.taken {
        Err(e) => asked_now == took && r == Err::<BStackRange, Error>(e),
        Ok(block) => {
            let tried = took.push(Event::Write { off: block.start, bytes, reply: w.wrote });
            match w.wrote {
                Ok(_) => asked_now == tried && r == Ok::<BStackRange, Error>(block),
                Err(e) => asked_now == tried.push(Event::Dealloc { range: block, reply: w.back })
                    && r == Err::<BStackRange, Error>(e),
            }
        },
    }
}

pub(crate) proof fn lemma_stored(asked: Seq<Event>, t: Seq<Event>, w: Storing)
    requires
        t.len() >= 1,
        t[0] is Alloc,
        w.taken == t[0]->Alloc_reply,
        w.taken is Err ==> t.len() == 1,
        w.taken is Ok ==> t.len() >= 2 && t[1] is Write && w.wrote == t[1]->Write_reply && (
        w.wrote is Ok ==> t.len() == 2) && (w.wrote is Err ==> t.len() == 3 && t[2] is Dealloc
            && w.back == t[2]->Dealloc_reply),
    ensures
        w.taken is Err ==> asked + t == asked.push(t[0]),
        w.taken is Ok && w.wrote is Ok ==> asked + t == asked.push(t[0]).push(t[1]),
        w.taken is Ok && w.wrote is Err ==> asked + t == asked.push(t[0]).push(t[1]).push(t[2]),
{
    if w.taken is Err {
        assert(asked + t =~= asked.push(t[0]));
    } else if w.wrote is Ok {
        assert(asked + t =~= asked.push(t[0]).push(t[1]));
    } else {
        assert(asked + t =~= asked.push(t[0]).push(t[1]).push(t[2]));
    }
}

pub(crate) open spec fn storing_of(t: Seq<Event>) -> Storing {
    Storing {
        taken: t[0]->Alloc_reply,
        wrote: t[1]->Write_reply,
        back: t[2]->Dealloc_reply,
    }
}

/// A copy is stored with all its bytes, in a block that is as long as they are; where that fails
/// no block is left over.
pub proof fn law_a_copy_is_stored_whole<A: BStackRaiiAllocator>(
    a: &mut A,
    bytes: Vec<u8>,
    r: Result<BStackRange, Error>,
)
    requires
        call_ensures(store_copy::<A>, (a, bytes), r),
    ensures
        exists|w: Storing| #[trigger]
            stored(bytes@.len() as int, bytes@, old(a).trace(), final(a).trace(), r, w),
{
    lemma_extends(old(a).trace(), final(a).trace());
    let t = since(old(a).trace(), final(a).trace());
    let w = storing_of(t);
    lemma_stored(old(a).trace(), t, w);
    assert(stored(bytes@.len() as int, bytes@, old(a).trace(), final(a).trace(), r, w));
}

/// A block with nothing but a header is as long as asked for, and the header says so, and of
/// which type it is.
pub proof fn law_a_header_says_size_and_type<A: BStackRaiiAllocator>(
    a: &mut A,
    tag: EightCC,
    size: u64,
    r: Result<BStackRange, Error>,
)
    requires
        tag@.len() == 8,
        call_ensures(alloc_block::<A>, (a, tag, size), r),
    ensures
        exists|head: Seq<u8>, w: Storing|
            {
                &&& #[trigger] stored(size as int, head, old(a).trace(), final(a).trace(), r, w)
                &&& head.len() == 16
                &&& le_value(head.subrange(0, 8)) == size
                &&& head.subrange(8, 16) == tag@
            },
{
    lemma_extends(old(a).trace(), final(a).trace());
    let t = since(old(a).trace(), final(a).trace());
    let w = storing_of(t);
    lemma_stored(old(a).trace(), t, w);
    let head = BlockHeader::image(size, tag@);
    law_block_header_round_trip(size, tag@, Seq::empty());
    assert(head + Seq::empty() =~= head);
    lemma_le_bytes_len(size as nat, 8);
    assert(stored(size as int, head, old(a).trace(), final(a).trace(), r, w));
}

/// Whether these are the bytes of a fresh block: its own size, its type, what is kept between
/// the header and the fields, and the fields.
pub open spec fn is_fresh(
    bytes: Seq<u8>,
    mode: Mode,
    tag: Seq<u8>,
    ctrl: u64,
    body: Seq<u8>,
) -> bool {
    &&& le_value(bytes.subrange(0, 8)) == bytes.len()
    &&& bytes.subrange(8, 16) == tag
    &&& match mode {
        Mode::Plain => bytes.len() == 16 + body.len() && bytes.skip(16) == body,
        Mode::Rc => bytes.len() == 24 + body.len() && bytes.skip(24) == body && le_value(
            bytes.subrange(16, 24),
        ) == 1,
        Mode::RcWeak => bytes.len() == 24 + body.len() && bytes.skip(24) == body && le_value(
            bytes.subrange(16, 24),
        ) == ctrl,
    }
}

pub(crate) proof fn lemma_fresh(mode: Mode, tag: Seq<u8>, ctrl: u64, body: Seq<u8>)
    requires
        tag.len() == 8,
        body.len() + 24 <= u64::MAX,
    ensures
        is_fresh(fresh_image(mode, tag, ctrl, body), mode, tag, ctrl, body),
{
    let b = fresh_image(mode, tag, ctrl, body);
    lemma_pow256_4_8();
    let size = crate::construct::whole_size(mode, body.len()) as u64;
    lemma_le_bytes_len(size as nat, 8);
    lemma_le_bytes_len(1, 8);
    lemma_le_bytes_len(ctrl as nat, 8);
    lemma_le_value_of_bytes(size as nat, 8);
    lemma_le_value_of_bytes(1, 8);
    lemma_le_value_of_bytes(ctrl as nat, 8);
    assert(b.subrange(0, 8) =~= le_bytes(size as nat, 8));
    assert(b.subrange(8, 16) =~= tag);
    match mode {
        Mode::Plain => {
            assert(b.skip(16) =~= body);
        },
        Mode::Rc => {
            assert(b.skip(24) =~= body);
            assert(b.subrange(16, 24) =~= le_bytes(1, 8));
        },
        Mode::RcWeak => {
            assert(b.skip(24) =~= body);
            assert(b.subrange(16, 24) =~= le_bytes(ctrl as nat, 8));
        },
    }
}

/// Where a built block is.
pub open spec fn data_of(r: Result<Built, Error>) -> Result<BStackRange, Error> {
    match r {
        Ok(b) => Ok(b.data),
        Err(e) => Err(e),
    }
}

/// A block is made with its fields, its size and its type in one write, and a counted one with
/// one owner; where that fails no block is left over.
pub proof fn law_a_block_is_made_whole<A: BStackRaiiAllocator>(
    a: &mut A,
    mode: Mode,
    tag: &EightCC,
    body: &Vec<u8>,
    r: Result<Built, Error>,
)
    requires
        mode != Mode::RcWeak,
        body@.len() + 24 <= u64::MAX,
        tag@.len() == 8,
        call_ensures(build_block::<A>, (a, mode, tag, body), r),
    ensures
        r matches Ok(b) ==> b.ctrl is None,
        exists|bytes: Seq<u8>, w: Storing|
            {
                &&& #[trigger] stored(
                    bytes.len() as int,
                    bytes,
                    old(a).trace(),
                    final(a).trace(),
                    data_of(r),
                    w,
                )
                &&& is_fresh(bytes, mode, tag@, 0, body@)
            },
{
    lemma_extends(old(a).trace(), final(a).trace());
    let t = since(old(a).trace(), final(a).trace());
    let w = storing_of(t);
    lemma_stored(old(a).trace(), t, w);
    lemma_fresh(mode, tag@, 0, body@);
    let bytes = fresh_image(mode, tag@, 0, body@);
    assert(stored(bytes.len() as int, bytes, old(a).trace(), final(a).trace(), data_of(r), w));
}

/// A fresh control block says its size and its type, counts one strong and one weak reference,
/// and says where the data block is.
pub proof fn law_a_control_block_starts_with_one_owner(
    tag: EightCC,
    data: u64,
    size: u64,
    r: Vec<u8>,
)
    requires
        40 <= size <= usize::MAX,
        tag@.len() == 8,
        call_ensures(build_control_payload, (tag, data, size), r),
    ensures
        is_control(r@, tag@, data, size),
{
    law_control_block_starts_with_one_owner(tag@, data, size);
}

/// Whether these are the bytes of a fresh control block.
pub open spec fn is_control(bytes: Seq<u8>, tag: Seq<u8>, data: u64, size: u64) -> bool {
    &&& bytes.len() == size
    &&& le_value(bytes.subrange(0, 8)) == size
    &&& bytes.subrange(8, 16) == tag
    &&& le_value(bytes.subrange(16, 24)) == 1
    &&& le_value(bytes.subrange(24, 32)) == 1
    &&& le_value(bytes.subrange(32, 40)) == data
}

/// Whether a counted block and its control block were taken and then written in one step, each
/// naming the other, with one strong and one weak reference.
pub open spec fn pair_made(
    asked: Seq<Event>,
    now: Seq<Event>,
    tag: Seq<u8>,
    ctrl_tag: Seq<u8>,
    ctrl_size: u64,
    body: Seq<u8>,
    built: Built,
) -> bool {
    &&& built.ctrl matches Some(ctrl)
    &&& now.len() > asked.len()
    &&& now.last() matches Event::WriteBatch { writes, reply: Ok(_) }
    &&& writes.len() == 2
    &&& writes[0].0 == built.data.start
    &&& is_fresh(writes[0].1, Mode::RcWeak, tag, ctrl.start, body)
    &&& writes[1].0 == ctrl.start
    &&& is_control(writes[1].1, ctrl_tag, built.data.start, ctrl_size)
    &&& takes_both(
        now.drop_last(),
        asked,
        body.len() as int + 24,
        ctrl_size as int,
        built.data,
        ctrl,
    )
}

pub(crate) proof fn lemma_pair_made(
    tag: Seq<u8>,
    ctrl_tag: Seq<u8>,
    ctrl_size: u64,
    body: Seq<u8>,
    before: TeardownView,
    new: TeardownView,
    s: Settings,
    k: int,
    taken: Result<Seq<BStackRange>, Error>,
    asked: Seq<Event>,
    t: Seq<Event>,
    built: Built,
)
    requires
        40 <= ctrl_size <= usize::MAX,
        body.len() + 24 <= u64::MAX,
        tag.len() == 8,
        ctrl_tag.len() == 8,
        build_pair_talk(tag, ctrl_tag, ctrl_size, body, before, new, s, k, taken, t, Ok(built)),
    ensures
        new == before,
        pair_made(asked, asked + t, tag, ctrl_tag, ctrl_size, body, built),
{
    let ctrl = built.ctrl->0;
    lemma_fresh(Mode::RcWeak, tag, ctrl.start, body);
    law_control_block_starts_with_one_owner(ctrl_tag, built.data.start, ctrl_size);
    assert((asked + t).last() == t.last());
    let head = t.take(k);
    assert((asked + t).drop_last() =~= asked + head);
    let blocks = taken->Ok_0;
    assert(blocks =~= seq![built.data, ctrl]);
    assert(blocks[0] == built.data && blocks[1] == ctrl);
    if s.bulk {
        assert(asked + head =~= asked.push(head[0]));
    } else {
        assert(head[0] == t[0] && head[1] == t[1]);
        assert(asked + head =~= asked.push(head[0]).push(head[1]));
    }
}

/// A counted block and its control block are written in one step, each naming the other, with one
/// strong and one weak reference.
pub proof fn law_a_pair_is_made_in_one_step<A: BStackRaiiAllocator>(
    ctx: &mut Teardown,
    a: &mut A,
    tag: &EightCC,
    ctrl_tag: EightCC,
    ctrl_size: u64,
    body: &Vec<u8>,
    built: Built,
)
    requires
        40 <= ctrl_size <= usize::MAX,
        body@.len() + 24 <= u64::MAX,
        tag@.len() == 8,
        ctrl_tag@.len() == 8,
        call_ensures(build_pair::<A>, (ctx, a, tag, ctrl_tag, ctrl_size, body), Ok(built)),
    ensures
        final(ctx)@ == old(ctx)@,
        pair_made(
            old(a).trace(),
            final(a).trace(),
            tag@,
            ctrl_tag@,
            ctrl_size,
            body@,
            built,
        ),
{
    let s = old(a).spec_settings();
    let before = old(a).trace();
    lemma_extends(before, final(a).trace());
    let t = since(before, final(a).trace());
    let (k, taken) = choose|k: int, taken: Result<Seq<BStackRange>, Error>| #[trigger]
        build_pair_talk(
            tag@,
            ctrl_tag@,
            ctrl_size,
            body@,
            old(ctx)@,
            final(ctx)@,
            s,
            k,
            taken,
            t,
            Ok(built),
        );
    lemma_pair_made(
        tag@,
        ctrl_tag@,
        ctrl_size,
        body@,
        old(ctx)@,
        final(ctx)@,
        s,
        k,
        taken,
        before,
        t,
        built,
    );
}

/// A pair that could not be made leaves no block over: each that was taken is given back, or held
/// back to be given back.
pub proof fn law_a_failed_pair_leaves_nothing_over<A: BStackRaiiAllocator>(
    ctx: &mut Teardown,
    a: &mut A,
    tag: &EightCC,
    ctrl_tag: EightCC,
    ctrl_size: u64,
    body: &Vec<u8>,
    e: Error,
    i: int,
)
    requires
        call_ensures(build_pair::<A>, (ctx, a, tag, ctrl_tag, ctrl_size, body), Err(e)),
        0 <= i < final(a).trace().len() - old(a).trace().len(),
    ensures
        ({
            let s = old(a).spec_settings();
            let t = final(a).trace().skip(old(a).trace().len() as int);
            &&& t[i] matches Event::Alloc { reply: Ok(block), .. } ==> was_undone(
                t,
                i,
                block,
                s,
                old(ctx)@,
                final(ctx)@,
            )
            &&& t[i] matches Event::AllocBulk { reply: Ok(both), .. } ==> t.len() == i + 3
                && (t.last() matches Event::DeallocBulk { ranges, .. } && ranges == both)
        }),
{
    let s = old(a).spec_settings();
    let before = old(a).trace();
    lemma_extends(before, final(a).trace());
    let t = since(before, final(a).trace());
    let (k, taken) = choose|k: int, taken: Result<Seq<BStackRange>, Error>| #[trigger]
        build_pair_talk(
            tag@,
            ctrl_tag@,
            ctrl_size,
            body@,
            old(ctx)@,
            final(ctx)@,
            s,
            k,
            taken,
            t,
            Err(e),
        );
    let sizes = seq![
        crate::construct::whole_size(Mode::RcWeak, body@.len()) as u64,
        ctrl_size,
    ];
    if s.bulk {
        assert(t.take(k)[0] == t[0]);
        if taken is Ok {
            assert(t.skip(k + 1)[0] == t[k + 1]);
        }
    } else if let Event::Alloc { reply: Ok(block), .. } = t[i] {
        match taken {
            Err(x) => {
                law_failed_allocation_leaves_nothing(
                    sizes,
                    old(ctx)@,
                    final(ctx)@,
                    s,
                    t,
                    x,
                    i,
                    block,
                );
            },
            Ok(blocks) => {
                let rest = t.skip(k + 1);
                assert(i < k) by {
                    if i > k {
                        assert(rest[i - k - 1] == t[i]);
                    }
                }
                assert(t.take(k)[i] == t[i]);
                assert(blocks[i] == block);
                if holds_back(old(ctx)@, s) {
                    let n = old(ctx)@.frees().len() as int;
                    assert(final(ctx)@.frees()[n + i] == (s.file, block));
                } else {
                    assert(t[k + 1 + i] == rest[i]);
                }
            },
        }
    }
}

/// Whether what was asked is that two blocks of these lengths be taken, in one step or two.
pub open spec fn takes_both(
    asked_now: Seq<Event>,
    asked: Seq<Event>,
    first: int,
    second: int,
    x: BStackRange,
    y: BStackRange,
) -> bool {
    ||| asked_now == asked.push(
        Event::AllocBulk { lens: seq![first as u64, second as u64], reply: Ok(seq![x, y]) },
    )
    ||| asked_now == asked.push(Event::Alloc { len: first as u64, reply: Ok(x) }).push(
        Event::Alloc { len: second as u64, reply: Ok(y) },
    )
}

/// A constructor gives the block that was built, or hands back what it had taken.
pub proof fn law_a_failed_constructor_hands_back<F>(
    built: Result<Built, Error>,
    children: F,
    r: Result<Built, ConstructError<F>>,
)
    requires
        call_ensures(conclude_construction::<F>, (built, children), r),
    ensures
        match (built, r) {
            (Ok(b), Ok(x)) => b == x,
            (Err(e), Err(x)) => x.source == e && x.fields == Some(children),
            _ => false,
        },
{
}

/// Several blocks are had all together, each of its length and in order, or none is left over:
/// each that was taken is given back, or held back to be given back.
pub proof fn law_several_blocks_or_none<A: BStackRaiiAllocator>(
    ctx: &mut Teardown,
    a: &mut A,
    sizes: Vec<u64>,
    r: Result<Vec<BStackRange>, Error>,
)
    requires
        call_ensures(alloc_many::<A>, (ctx, a, sizes), r),
    ensures
        ({
            let t = final(a).trace().skip(old(a).trace().len() as int);
            let s = old(a).spec_settings();
            match r {
                Ok(out) => {
                    &&& final(ctx)@ == old(ctx)@
                    &&& out@.len() == sizes@.len()
                    &&& if s.bulk {
                        t == seq![Event::AllocBulk { lens: sizes@, reply: Ok(out@) }]
                    } else {
                        &&& t.len() == sizes@.len()
                        &&& forall|i: int|
                            0 <= i < t.len() ==> #[trigger] t[i] == (Event::Alloc {
                                len: sizes@[i],
                                reply: Ok(out@[i]),
                            })
                    }
                },
                Err(e) => if s.bulk {
                    t == seq![Event::AllocBulk { lens: sizes@, reply: Err(e) }]
                } else {
                    &&& forall|i: int|
                        0 <= i < t.len() ==> (#[trigger] t[i] matches Event::Alloc {
                            len: _,
                            reply: Ok(block),
                        } ==> was_undone(t, i, block, s, old(ctx)@, final(ctx)@))
                    &&& exists|i: int|
                        0 <= i < t.len() && i < sizes@.len() && #[trigger] t[i] == (Event::Alloc {
                            len: sizes@[i],
                            reply: Err::<BStackRange, Error>(e),
                        })
                },
            }
        }),
{
    let s = old(a).spec_settings();
    let before = old(a).trace();
    lemma_extends(before, final(a).trace());
    let t = since(before, final(a).trace());
    if s.bulk {
        assert(t =~= seq![Event::AllocBulk { lens: sizes@, reply: ranges_view(r) }]);
    } else if let Err(e) = r {
        let out = choose|out: Seq<BStackRange>| #[trigger]
            crate::bulk::gave_up(sizes@, t, out, e, holds_back(old(ctx)@, s));
        assert(t[out.len() as int] is Alloc);
        assert forall|i: int| 0 <= i < t.len() implies (#[trigger] t[i] matches Event::Alloc {
            len: _,
            reply: Ok(block),
        } ==> was_undone(t, i, block, s, old(ctx)@, final(ctx)@)) by {
            if let Event::Alloc { len: _, reply: Ok(block) } = t[i] {
                law_failed_allocation_leaves_nothing(
                    sizes@,
                    old(ctx)@,
                    final(ctx)@,
                    s,
                    t,
                    e,
                    i,
                    block,
                );
            }
        }
    }
}

/// Whether a block that was taken in event number `i` was given back later, or is held back.
pub open spec fn was_undone(
    t: Seq<Event>,
    i: int,
    block: BStackRange,
    s: Settings,
    before: TeardownView,
    new: TeardownView,
) -> bool {
    if holds_back(before, s) {
        new.sink matches Some(k) && k.1.contains((s.file, block))
    } else {
        exists|j: int|
            i < j < t.len() && (#[trigger] t[j] matches Event::Dealloc { range, reply: _ } && range
                == block)
    }
}

/// Every one of several blocks is given back, whatever becomes of the others, or held back to be
/// given back; and the failure names exactly those that were not.
pub proof fn law_several_blocks_all_go<A: BStackRaiiAllocator>(
    ctx: &mut Teardown,
    a: &mut A,
    ranges: Vec<BStackRange>,
    r: Result<(), FreeManyError>,
    block: BStackRange,
)
    requires
        call_ensures(free_many::<A>, (ctx, a, ranges), r),
    ensures
        ({
            let t = final(a).trace().skip(old(a).trace().len() as int);
            let s = old(a).spec_settings();
            if s.bulk {
                &&& final(ctx)@ == old(ctx)@
                &&& t.len() == 1
                &&& t[0] matches Event::DeallocBulk { ranges: all, reply }
                &&& all == ranges@
                &&& (r is Ok <==> reply is Ok)
                &&& r matches Err(x) ==> x.unfreed@ == ranges@ && reply == Err::<(), Error>(
                    x.source,
                )
            } else if holds_back(old(ctx)@, s) {
                &&& r is Ok
                &&& t.len() == 0
                &&& old(ctx)@.sink matches Some(k)
                &&& final(ctx)@.sink matches Some(n)
                &&& n.0 == k.0
                &&& n.1.len() == k.1.len() + ranges@.len()
                &&& forall|i: int| 0 <= i < k.1.len() ==> #[trigger] n.1[i] == k.1[i]
                &&& forall|i: int|
                    0 <= i < ranges@.len() ==> #[trigger] n.1[k.1.len() + i] == (s.file, ranges@[i])
            } else {
                &&& final(ctx)@ == old(ctx)@
                &&& t.len() == ranges@.len()
                &&& forall|i: int|
                    0 <= i < t.len() ==> (#[trigger] t[i] matches Event::Dealloc {
                        range,
                        reply: _,
                    } && range == ranges@[i])
                &&& r matches Err(x) ==> (x.unfreed@.contains(block) <==> exists|i: int|
                    0 <= i < ranges@.len() && ranges@[i] == block && (
                    #[trigger] t[i])->Dealloc_reply is Err)
                &&& r matches Err(x) ==> is_first_refusal(t, x.source)
                &&& r is Ok ==> forall|i: int|
                    0 <= i < t.len() ==> (#[trigger] t[i])->Dealloc_reply is Ok
            }
        }),
{
    let s = old(a).spec_settings();
    let before = old(a).trace();
    lemma_extends(before, final(a).trace());
    let t = since(before, final(a).trace());
    if s.bulk {
    } else if holds_back(old(ctx)@, s) {
        assert(t =~= Seq::empty());
    } else {
        if let Err(x) = r {
            law_unfreed_blocks_are_those_that_failed(ranges@, t, x, block);
            lemma_first_refusal(ranges@.len(), t);
        } else {
            lemma_no_failure(ranges@.len(), t);
        }
    }
}

/// Whether `e` is why the first of the frees that was refused was.
pub open spec fn is_first_refusal(t: Seq<Event>, e: Error) -> bool {
    exists|i: int|
        {
            &&& 0 <= i < t.len()
            &&& (#[trigger] t[i])->Dealloc_reply == Err::<(), Error>(e)
            &&& forall|j: int| 0 <= j < i ==> (#[trigger] t[j])->Dealloc_reply is Ok
        }
}

proof fn lemma_first_refusal(n: nat, t: Seq<Event>)
    requires
        n <= t.len(),
    ensures
        crate::bulk::first_failure(n, t) matches Some(e) ==> is_first_refusal(t, e),
    decreases n,
{
    if n > 0 {
        lemma_first_refusal((n - 1) as nat, t);
        if crate::bulk::first_failure((n - 1) as nat, t) is None {
            lemma_no_failure((n - 1) as nat, t);
            if crate::bulk::first_failure(n, t) is Some {
                assert(t[n - 1]->Dealloc_reply == Err::<(), Error>(
                    crate::bulk::first_failure(n, t)->0,
                ));
            }
        }
    }
}

/// Freeing blocks one by one tries every one of them, or holds all of them back.
pub proof fn law_blocks_go_one_by_one<A: BStackRaiiAllocator>(
    ctx: &mut Teardown,
    a: &mut A,
    ranges: &Vec<BStackRange>,
    r: Result<(), FreeManyError>,
    block: BStackRange,
)
    requires
        call_ensures(seq_free_many::<A>, (ctx, a, ranges), r),
    ensures
        ({
            let t = final(a).trace().skip(old(a).trace().len() as int);
            let s = old(a).spec_settings();
            let n = old(ctx)@.frees().len();
            if holds_back(old(ctx)@, s) {
                &&& r is Ok
                &&& t.len() == 0
                &&& final(ctx)@.frees().len() == n + ranges@.len()
                &&& forall|i: int|
                    0 <= i < ranges@.len() ==> #[trigger] final(ctx)@.frees()[n + i] == (
                        s.file,
                        ranges@[i],
                    )
            } else {
                &&& final(ctx)@ == old(ctx)@
                &&& t.len() == ranges@.len()
                &&& forall|i: int|
                    0 <= i < t.len() ==> (#[trigger] t[i] matches Event::Dealloc {
                        range,
                        reply: _,
                    } && range == ranges@[i])
                &&& r matches Err(x) ==> is_first_refusal(t, x.source) && (x.unfreed@.contains(
                    block,
                ) <==> exists|i: int|
                    0 <= i < ranges@.len() && ranges@[i] == block && (
                    #[trigger] t[i])->Dealloc_reply is Err)
                &&& r is Ok ==> forall|i: int|
                    0 <= i < t.len() ==> (#[trigger] t[i])->Dealloc_reply is Ok
            }
        }),
{
    let s = old(a).spec_settings();
    let before = old(a).trace();
    lemma_extends(before, final(a).trace());
    let t = since(before, final(a).trace());
    if holds_back(old(ctx)@, s) {
        assert(t =~= Seq::empty());
    } else {
        if let Err(x) = r {
            law_unfreed_blocks_are_those_that_failed(ranges@, t, x, block);
            lemma_first_refusal(ranges@.len(), t);
        } else {
            lemma_no_failure(ranges@.len(), t);
        }
    }
}

/// Blocks that are freed or taken in one step are all in that step.
pub proof fn law_one_step_takes_all<A: BStackRaiiAllocator>(
    a: &mut A,
    sizes: Vec<u64>,
    r: Result<Vec<BStackRange>, Error>,
)
    requires
        call_ensures(bulk_alloc_many::<A>, (a, sizes), r),
    ensures
        final(a).trace() == old(a).trace().push(
            Event::AllocBulk {
                lens: sizes@,
                reply: match r {
                    Ok(v) => Ok(v@),
                    Err(e) => Err(e),
                },
            },
        ),
{
}

/// Blocks that are freed in one step all go, or none does; the failure names all of them.
pub proof fn law_one_step_frees_all<A: BStackRaiiAllocator>(
    a: &mut A,
    ranges: Vec<BStackRange>,
    r: Result<(), FreeManyError>,
)
    requires
        call_ensures(bulk_free_many::<A>, (a, ranges), r),
    ensures
        exists|reply: Result<(), Error>|
            {
                &&& final(a).trace() == #[trigger] with_bulk_free(
                    old(a).trace(),
                    ranges@,
                    reply,
                )
                &&& match reply {
                    Ok(_) => r is Ok,
                    Err(e) => r matches Err(x) && x.source == e && x.unfreed@ == ranges@,
                }
            },
{
    lemma_extends(old(a).trace(), final(a).trace());
    let t = since(old(a).trace(), final(a).trace());
    let reply = t[0]->DeallocBulk_reply;
    assert(old(a).trace() + t =~= with_bulk_free(old(a).trace(), ranges@, reply));
}

/// The conversation with one more request that frees several blocks at once.
pub open spec fn with_bulk_free(
    asked: Seq<Event>,
    ranges: Seq<BStackRange>,
    reply: Result<(), Error>,
) -> Seq<Event> {
    asked.push(Event::DeallocBulk { ranges, reply })
}

proof fn lemma_no_failure(n: nat, t: Seq<Event>)
    requires
        crate::bulk::first_failure(n, t) is None,
        n <= t.len(),
    ensures
        forall|i: int| 0 <= i < n ==> (#[trigger] t[i])->Dealloc_reply is Ok,
    decreases n,
{
    if n > 0 {
        lemma_no_failure((n - 1) as nat, t);
    }
}

/// A block that is put into another is copied there, whole, and then, only where that succeeded,
/// its old place is given back.
pub proof fn law_a_block_moves_into_another<A: BStackRaiiAllocator>(
    ctx: &mut Teardown,
    a: &mut A,
    dest: u64,
    m: Move,
    r: Result<(), Error>,
)
    requires
        dest + m.at <= u64::MAX,
        call_ensures(embed_one::<A>, (ctx, a, dest, m), r),
    ensures
        exists|copied: Result<(), Error>|
            {
                let now = #[trigger] with_copy(
                    old(a).trace(),
                    m.child.start,
                    dest + m.at,
                    m.size,
                    copied,
                );
                match copied {
                    Err(e) => final(a).trace() == now && final(ctx)@ == old(ctx)@ && r == Err::<
                        (),
                        Error,
                    >(e),
                    Ok(_) => one_free(
                        m.child,
                        old(a).spec_settings(),
                        old(ctx)@,
                        now,
                        final(ctx)@,
                        final(a).trace(),
                        r,
                    ),
                }
            },
{
    let before = old(a).trace();
    lemma_extends(before, final(a).trace());
    let t = since(before, final(a).trace());
    let copied = t[0]->Copy_reply;
    let now = with_copy(before, m.child.start, dest + m.at, m.size, copied);
    assert(t =~= seq![t[0]] + t.skip(1));
    assert(before + t =~= now + t.skip(1));
    if t.skip(1).len() == 1 {
        assert(before + t =~= now.push(t.skip(1)[0]));
    } else {
        assert(t.skip(1).len() == 0);
        assert(before + t =~= now);
    }
}

/// The conversation with one more copy within the file.
pub open spec fn with_copy(
    asked: Seq<Event>,
    from: u64,
    to: int,
    len: u64,
    reply: Result<(), Error>,
) -> Seq<Event> {
    asked.push(Event::Copy { from, to: to as u64, len, reply })
}

/// Whether `ev` copied the block of a move to its place.
pub open spec fn is_copy_of(ev: Event, m: Move, dest: u64) -> bool {
    ev matches Event::Copy { from, to, len, reply } && from == m.child.start && to == dest + m.at
        && len == m.size && reply is Ok
}

/// Whether the block of a move was copied to its place, and then its old place was given back, or
/// is held back to be given back.
pub open spec fn moved_in(
    m: Move,
    dest: u64,
    s: Settings,
    before: TeardownView,
    new: TeardownView,
    t: Seq<Event>,
) -> bool {
    exists|j: int|
        {
            &&& 0 <= j < t.len()
            &&& is_copy_of(#[trigger] t[j], m, dest)
            &&& if holds_back(before, s) {
                new.sink matches Some(k) && k.1.contains((s.file, m.child))
            } else {
                j + 1 < t.len() && (t[j + 1] matches Event::Dealloc { range, reply } && range
                    == m.child && reply is Ok)
            }
        }
}

proof fn lemma_moved_in(
    moves: Seq<Move>,
    dest: u64,
    before: TeardownView,
    new: TeardownView,
    s: Settings,
    t: Seq<Event>,
    i: int,
)
    requires
        embed_talk(moves, dest, before, new, s, t, None),
        0 <= i < moves.len(),
    ensures
        moved_in(moves[i], dest, s, before, new, t),
        before.sink is Some <==> new.sink is Some,
        before.sink matches Some(k) ==> (new.sink matches Some(n) && n.0 == k.0),
    decreases moves.len(),
{
    let f = choose|f: SoFar|
        {
            &&& #[trigger] last_move(moves, dest, f, new, s, t, None)
            &&& embed_talk(moves.drop_last(), dest, before, f.ctx, s, t.take(f.k), f.failed)
        };
    let init = moves.drop_last();
    lemma_same_collector(init, dest, before, f.ctx, s, t.take(f.k));
    let rest = t.skip(f.k);
    if i < init.len() {
        lemma_moved_in(init, dest, before, f.ctx, s, t.take(f.k), i);
        let head = t.take(f.k);
        let m = init[i];
        let j = choose|j: int|
            {
                &&& 0 <= j < head.len()
                &&& is_copy_of(#[trigger] head[j], m, dest)
                &&& if holds_back(before, s) {
                    f.ctx.sink matches Some(k) && k.1.contains((s.file, m.child))
                } else {
                    j + 1 < head.len() && (head[j + 1] matches Event::Dealloc { range, reply }
                        && range == m.child && reply is Ok)
                }
            };
        assert(t[j] == head[j]);
        if holds_back(before, s) {
            let k = f.ctx.frees().index_of((s.file, m.child));
            assert(new.frees()[k] == (s.file, m.child));
        } else {
            assert(t[j + 1] == head[j + 1]);
        }
        assert(moved_in(m, dest, s, before, new, t));
    } else {
        let m = moves.last();
        assert(t[f.k] == rest[0]);
        if holds_back(before, s) {
            let k = new.frees().len() - 1;
            assert(new.frees()[k] == (s.file, m.child));
        } else {
            assert(t[f.k + 1] == rest.skip(1)[0]);
        }
        assert(moved_in(m, dest, s, before, new, t));
    }
}

proof fn lemma_same_collector(
    moves: Seq<Move>,
    dest: u64,
    before: TeardownView,
    new: TeardownView,
    s: Settings,
    t: Seq<Event>,
)
    requires
        embed_talk(moves, dest, before, new, s, t, None),
    ensures
        before.sink is Some <==> new.sink is Some,
        before.sink matches Some(k) ==> (new.sink matches Some(n) && n.0 == k.0),
    decreases moves.len(),
{
    if moves.len() > 0 {
        let f = choose|f: SoFar|
            {
                &&& #[trigger] last_move(moves, dest, f, new, s, t, None)
                &&& embed_talk(moves.drop_last(), dest, before, f.ctx, s, t.take(f.k), f.failed)
            };
        lemma_same_collector(moves.drop_last(), dest, before, f.ctx, s, t.take(f.k));
    }
}

/// Every block that is to lie in another is copied to its place, and its old place goes.
pub proof fn law_all_blocks_move_into_another<A: BStackRaiiAllocator>(
    ctx: &mut Teardown,
    a: &mut A,
    dest: u64,
    moves: &Vec<Move>,
    i: int,
)
    requires
        forall|i: int| 0 <= i < moves@.len() ==> dest + (#[trigger] moves@[i]).at <= u64::MAX,
        call_ensures(embed_children::<A>, (ctx, a, dest, moves), Ok(())),
        0 <= i < moves@.len(),
    ensures
        moved_in(
            moves@[i],
            dest,
            old(a).spec_settings(),
            old(ctx)@,
            final(ctx)@,
            final(a).trace().skip(old(a).trace().len() as int),
        ),
{
    lemma_moved_in(
        moves@,
        dest,
        old(ctx)@,
        final(ctx)@,
        old(a).spec_settings(),
        since(old(a).trace(), final(a).trace()),
        i,
    );
}

/// Whether an event copies one of the blocks to its place, or gives its old place back.
pub open spec fn is_part_of_move(ev: Event, moves: Seq<Move>, dest: u64) -> bool {
    exists|i: int| 0 <= i < moves.len() && #[trigger] moves_one(ev, moves[i], dest)
}

/// Whether an event copies this block to its place, or gives its old place back.
pub open spec fn moves_one(ev: Event, m: Move, dest: u64) -> bool {
    match ev {
        Event::Copy { from, to, len, reply: _ } => from == m.child.start && to == dest + m.at && len
            == m.size,
        Event::Dealloc { range, reply: _ } => range == m.child,
        _ => false,
    }
}

/// Whether an event was refused with `e`.
pub open spec fn move_refused(ev: Event, e: Error) -> bool {
    match ev {
        Event::Copy { reply: Err(x), .. } => x == e,
        Event::Dealloc { reply: Err(x), .. } => x == e,
        _ => false,
    }
}

proof fn lemma_moves_only(
    moves: Seq<Move>,
    dest: u64,
    before: TeardownView,
    new: TeardownView,
    s: Settings,
    t: Seq<Event>,
    failed: Option<Error>,
)
    requires
        embed_talk(moves, dest, before, new, s, t, failed),
    ensures
        forall|j: int| 0 <= j < t.len() ==> is_part_of_move(#[trigger] t[j], moves, dest),
        failed matches Some(e) ==> t.len() > 0 && move_refused(t.last(), e),
    decreases moves.len(),
{
    if moves.len() > 0 {
        let f = choose|f: SoFar|
            {
                &&& #[trigger] last_move(moves, dest, f, new, s, t, failed)
                &&& embed_talk(moves.drop_last(), dest, before, f.ctx, s, t.take(f.k), f.failed)
            };
        let init = moves.drop_last();
        let first = t.take(f.k);
        let rest = t.skip(f.k);
        lemma_moves_only(init, dest, before, f.ctx, s, first, f.failed);
        assert forall|j: int| 0 <= j < t.len() implies is_part_of_move(
            #[trigger] t[j],
            moves,
            dest,
        ) by {
            if j < f.k {
                assert(first[j] == t[j]);
                let i = choose|i: int|
                    0 <= i < init.len() && #[trigger] moves_one(first[j], init[i], dest);
                assert(moves_one(t[j], moves[i], dest));
            } else {
                let n = moves.len() - 1;
                assert(rest[j - f.k] == t[j]);
                if j > f.k {
                    assert(rest.skip(1)[j - f.k - 1] == t[j]);
                }
                assert(moves_one(t[j], moves[n], dest));
            }
        }
        if f.failed is Some {
            assert(first =~= t);
        } else if failed is Some {
            assert(rest.last() == t.last());
            if rest.len() > 1 {
                assert(rest.skip(1)[0] == rest[1]);
                assert(rest.skip(1).len() == 1);
            }
        }
    }
}

/// Where blocks are to lie in another, nothing is asked but that they be copied there and their
/// old places given back; and it fails only where one of these is refused, and then at once.
pub proof fn law_moving_asks_for_nothing_else<A: BStackRaiiAllocator>(
    ctx: &mut Teardown,
    a: &mut A,
    dest: u64,
    moves: &Vec<Move>,
    r: Result<(), Error>,
)
    requires
        call_ensures(embed_children::<A>, (ctx, a, dest, moves), r),
    ensures
        ({
            let t = final(a).trace().skip(old(a).trace().len() as int);
            &&& forall|j: int| 0 <= j < t.len() ==> is_part_of_move(#[trigger] t[j], moves@, dest)
            &&& r matches Err(e) ==> t.len() > 0 && move_refused(t.last(), e)
        }),
{
    lemma_moves_only(
        moves@,
        dest,
        old(ctx)@,
        final(ctx)@,
        old(a).spec_settings(),
        since(old(a).trace(), final(a).trace()),
        crate::embed::failure_of(r),
    );
}

/// Whether a request of the conversation `t` was refused with `e`.
pub open spec fn some_refused(t: Seq<Event>, e: Error) -> bool {
    exists|j: int| 0 <= j < t.len() && #[trigger] is_refused(t[j], e)
}

/// Whether a request was refused with `e`.
pub open spec fn is_refused(ev: Event, e: Error) -> bool {
    match ev {
        Event::Alloc { reply: Err(x), .. } => x == e,
        Event::AllocBulk { reply: Err(x), .. } => x == e,
        Event::Write { reply: Err(x), .. } => x == e,
        Event::WriteBatch { reply: Err(x), .. } => x == e,
        Event::Copy { reply: Err(x), .. } => x == e,
        Event::Dealloc { reply: Err(x), .. } => x == e,
        _ => false,
    }
}

pub(crate) proof fn lemma_pair_refused(
    tag: Seq<u8>,
    ctrl_tag: Seq<u8>,
    ctrl_size: u64,
    body: Seq<u8>,
    before: TeardownView,
    new: TeardownView,
    s: Settings,
    k: int,
    taken: Result<Seq<BStackRange>, Error>,
    t: Seq<Event>,
    e: Error,
)
    requires
        build_pair_talk(tag, ctrl_tag, ctrl_size, body, before, new, s, k, taken, t, Err(e)),
    ensures
        some_refused(t, e),
{
    let sizes = seq![
        crate::construct::whole_size(Mode::RcWeak, body.len()) as u64,
        ctrl_size,
    ];
    match taken {
        Err(x) => {
            if s.bulk {
                assert(is_refused(t[0], e));
            } else {
                let out = choose|out: Seq<BStackRange>| #[trigger]
                    crate::bulk::gave_up(sizes, t, out, x, holds_back(before, s));
                assert(is_refused(t[out.len() as int], e));
            }
        },
        Ok(_) => {
            assert(is_refused(t[k], e));
        },
    }
}

/// A pair is not made only where a request is refused.
pub proof fn law_a_pair_fails_only_where_it_is_refused<A: BStackRaiiAllocator>(
    ctx: &mut Teardown,
    a: &mut A,
    tag: &EightCC,
    ctrl_tag: EightCC,
    ctrl_size: u64,
    body: &Vec<u8>,
    e: Error,
)
    requires
        call_ensures(build_pair::<A>, (ctx, a, tag, ctrl_tag, ctrl_size, body), Err(e)),
    ensures
        some_refused(final(a).trace().skip(old(a).trace().len() as int), e),
{
    let s = old(a).spec_settings();
    let t = since(old(a).trace(), final(a).trace());
    let (k, taken) = choose|k: int, taken: Result<Seq<BStackRange>, Error>| #[trigger]
        build_pair_talk(
            tag@,
            ctrl_tag@,
            ctrl_size,
            body@,
            old(ctx)@,
            final(ctx)@,
            s,
            k,
            taken,
            t,
            Err(e),
        );
    lemma_pair_refused(
        tag@,
        ctrl_tag@,
        ctrl_size,
        body@,
        old(ctx)@,
        final(ctx)@,
        s,
        k,
        taken,
        t,
        e,
    );
}

} // verus!
