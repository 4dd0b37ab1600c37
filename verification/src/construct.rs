//! Making blocks, and wiring their weak fields.
use vstd::prelude::*;

use crate::allocator::{
    bytes_view, extends, lemma_extends, lemma_since, ranges_view, since, writes_view,
    BStackRaiiAllocator, Event, Settings,
};
use crate::bytes::{get_u64, le_bytes, le_value, lemma_le_bytes_len, u64_le};
use crate::bulk::{alloc_many, alloc_many_talk, free_many};
use crate::derive::kind::Mode;
use crate::error::Error;
use crate::handback::{ConstructError, ReplaceError};
use crate::handle::{release_weak_talk, WeakRef};
use crate::layout::{
    build_control_payload, checked_off, control_image, BlockHeader, EightCC, CTRL_DATA_OFFSET,
    CTRL_STRONG_OFFSET,
};
use crate::range::BStackRange;
use crate::refcount::{increment_if_nonzero, increment_talk, load, loaded};
use crate::teardown::{collects, kept, with_more, Teardown, TeardownView};
use crate::traits::{BStackDrop, BStackWeakable};

verus! {

/// The conversation that points a weak field elsewhere: one exchange, and only then is the
/// reference that the field held before released.
pub open spec fn set_weak_talk<T: BStackWeakable>(
    field_off: u64,
    weak: BStackRange,
    before: TeardownView,
    new: TeardownView,
    s: Settings,
    t: Seq<Event>,
    r: Result<(), ReplaceError<WeakRef<T>>>,
) -> bool {
    &&& t.len() >= 1
    &&& t[0] matches Event::Swap { off, bytes, reply }
    &&& off == field_off
    &&& bytes == le_bytes(weak.start as nat, 8)
    &&& match reply {
        Err(e) => {
            &&& t.len() == 1
            &&& new == before
            &&& r matches Err(x) && x.source == e && (x.value matches Some(w) && w@
                == (BStackRange { start: weak.start, len: T::spec_control_size() }))
        },
        Ok(b) => {
            let was = le_value(b) as u64;
            if was == 0 {
                t.len() == 1 && new == before && r is Ok
            } else {
                exists|done: Result<(), Error>| #[trigger]
                    release_weak_talk(
                        BStackRange { start: was, len: T::spec_control_size() },
                        before,
                        new,
                        s,
                        t.skip(1),
                        done,
                    ) && match done {
                        Ok(_) => r is Ok,
                        Err(e) => r matches Err(x) && x.source == e && x.value is None,
                    }
            }
        },
    }
}

/// Point the weak field at `field_off` to the target of `weak`, and release what it held. The
/// weak count of `weak` becomes the field's. Where the exchange fails `weak` is given back;
/// where only the release fails the field holds it already.
pub fn set_weak_field<T: BStackWeakable, A: BStackRaiiAllocator>(
    ctx: &mut Teardown,
    a: &mut A,
    field_off: u64,
    weak: WeakRef<T>,
) -> (r: Result<(), ReplaceError<WeakRef<T>>>)
    ensures
        final(a).spec_settings() == old(a).spec_settings(),
        extends(old(a).trace(), final(a).trace()),
        kept(old(ctx)@, final(ctx)@),
        set_weak_talk::<T>(
            field_off,
            weak@,
            old(ctx)@,
            final(ctx)@,
            old(a).spec_settings(),
            since(old(a).trace(), final(a).trace()),
            r,
        ),
{
    let ghost before = a.trace();
    let ghost was_ctx = ctx@;
    assert(was_ctx.sink matches Some(k) ==> k.1.take(k.1.len() as int) =~= k.1);
    let ctrl_off: u64 = weak.ctrl_ref().start;
    let swapped = a.swap(field_off, u64_le(ctrl_off));
    let ghost t1 = seq![
        Event::Swap {
            off: field_off,
            bytes: le_bytes(ctrl_off as nat, 8),
            reply: bytes_view(swapped),
        },
    ];
    let ghost mid = a.trace();
    proof {
        lemma_le_bytes_len(ctrl_off as nat, 8);
        assert(mid =~= before + t1);
        lemma_since(before, t1);
    }
    let was: u64 = match swapped {
        Err(e) => {
            let back: WeakRef<T> = WeakRef::new(BStackRange::new(ctrl_off, T::control_size()));
            return Err(ReplaceError::recovered(e, back));
        },
        Ok(b) => {
            assert(b@.subrange(0, 8) =~= b@);
            get_u64(b.as_slice())
        },
    };
    if was != 0 {
        let old_weak: WeakRef<T> = WeakRef::new(BStackRange::new(was, T::control_size()));
        let done = old_weak.bstack_drop(ctx, a);
        proof {
            lemma_extends(mid, a.trace());
            let t2 = since(mid, a.trace());
            assert(a.trace() =~= before + (t1 + t2));
            lemma_since(before, t1 + t2);
            assert((t1 + t2).skip(1) =~= t2);
            assert(release_weak_talk(
                BStackRange { start: was, len: T::spec_control_size() },
                was_ctx,
                ctx@,
                a.spec_settings(),
                (t1 + t2).skip(1),
                done,
            ));
        }
        if let Err(e) = done {
            return Err(ReplaceError::lost(e));
        }
    }
    Ok(())
}

/// A strong reference gained from a weak one.
#[derive(Clone, Copy, Debug, PartialEq, Eq, Structural)]
pub struct Upgraded {
    pub data: BStackRange,
    pub ctrl: BStackRange,
}

/// The conversation that turns the weak field at `field_off` into a strong reference.
pub open spec fn upgrade_talk<T: BStackWeakable>(
    field_off: u64,
    before: Seq<Event>,
    new: Seq<Event>,
    r: Result<Option<Upgraded>, Error>,
) -> bool {
    exists|t1: Seq<Event>, found: Result<u64, Error>| #[trigger]
        loaded(before, t1, field_off, found) && match found {
            Err(e) => new == t1 && r == Err::<Option<Upgraded>, Error>(e),
            Ok(0) => new == t1 && r == Ok::<Option<Upgraded>, Error>(None),
            Ok(off) => if off + 16 > u64::MAX {
                new == t1 && r == Err::<Option<Upgraded>, Error>(Error::BlockOffsetOverflow)
            } else {
                pin_talk::<T>(off, t1, new, r)
            },
        }
}

/// The rest of it: count one more owner, if there is any, and read where the data is.
pub open spec fn pin_talk<T: BStackWeakable>(
    off: u64,
    before: Seq<Event>,
    new: Seq<Event>,
    r: Result<Option<Upgraded>, Error>,
) -> bool {
    exists|t2: Seq<Event>, counted: Result<Option<u64>, Error>| #[trigger]
        increment_talk(before, t2, (off + 16) as u64, counted) && match counted {
            Err(e) => new == t2 && r == Err::<Option<Upgraded>, Error>(e),
            Ok(None) => new == t2 && r == Ok::<Option<Upgraded>, Error>(None),
            Ok(Some(_)) => if off + 32 > u64::MAX {
                new == t2 && r == Err::<Option<Upgraded>, Error>(Error::BlockOffsetOverflow)
            } else {
                exists|data: Result<u64, Error>| #[trigger]
                    loaded(t2, new, (off + 32) as u64, data) && r == match data {
                        Err(e) => Err::<Option<Upgraded>, Error>(e),
                        Ok(d) => Ok(
                            Some(
                                Upgraded {
                                    data: BStackRange { start: d, len: T::spec_on_disk_size() },
                                    ctrl: BStackRange { start: off, len: T::spec_control_size() },
                                },
                            ),
                        ),
                    }
            },
        }
}

/// Turn the weak field at `field_off` into a strong reference: `None` where the field is unset
/// or its target is gone. The weak count of the field stays.
pub fn upgrade_weak_field<T: BStackWeakable, A: BStackRaiiAllocator>(
    a: &mut A,
    field_off: u64,
) -> (r: Result<Option<Upgraded>, Error>)
    ensures
        final(a).spec_settings() == old(a).spec_settings(),
        upgrade_talk::<T>(field_off, old(a).trace(), final(a).trace(), r),
{
    let ghost before = a.trace();
    let found = load(a, field_off);
    let ghost t1 = a.trace();
    assert(loaded(before, t1, field_off, found));
    let off: u64 = match found {
        Err(e) => {
            return Err(e);
        },
        Ok(off) => off,
    };
    if off == 0 {
        return Ok(None);
    }
    let strong: u64 = match checked_off(off, CTRL_STRONG_OFFSET) {
        Err(e) => {
            return Err(e);
        },
        Ok(p) => p,
    };
    let counted = increment_if_nonzero(a, strong);
    let ghost t2 = a.trace();
    assert(increment_talk(t1, t2, (off + 16) as u64, counted));
    match counted {
        Err(e) => {
            return Err(e);
        },
        Ok(None) => {
            return Ok(None);
        },
        Ok(Some(_)) => {},
    }
    let pos: u64 = match checked_off(off, CTRL_DATA_OFFSET) {
        Err(e) => {
            return Err(e);
        },
        Ok(p) => p,
    };
    let data = load(a, pos);
    assert(loaded(t2, a.trace(), (off + 32) as u64, data));
    match data {
        Err(e) => Err(e),
        Ok(d) => Ok(
            Some(
                Upgraded {
                    data: BStackRange::new(d, T::on_disk_size()),
                    ctrl: BStackRange::new(off, T::control_size()),
                },
            ),
        ),
    }
}

/// How many bytes lie between the header and the fields of a block.
pub open spec fn injected_size(mode: Mode) -> int {
    if mode == Mode::Plain {
        0
    } else {
        8
    }
}

/// How many bytes a block with `body` bytes of fields takes.
pub open spec fn whole_size(mode: Mode, body: nat) -> int {
    16 + injected_size(mode) + body
}

/// The bytes between the header and the fields: nothing, the count of the one owner, or the
/// offset of the control block.
pub open spec fn injected(mode: Mode, ctrl: u64) -> Seq<u8> {
    match mode {
        Mode::Plain => Seq::empty(),
        Mode::Rc => le_bytes(1, 8),
        Mode::RcWeak => le_bytes(ctrl as nat, 8),
    }
}

/// The bytes of a fresh block.
pub open spec fn fresh_image(mode: Mode, tag: Seq<u8>, ctrl: u64, body: Seq<u8>) -> Seq<u8> {
    BlockHeader::image(whole_size(mode, body.len()) as u64, tag) + injected(mode, ctrl) + body
}

/// A block that was made: where it is, and where its control block is if it has one.
#[derive(Clone, Copy, Debug, PartialEq, Eq, Structural)]
pub struct Built {
    pub data: BStackRange,
    pub ctrl: Option<BStackRange>,
}

/// The conversation that makes a block without a control block: take it, write it whole, and
/// give it back where that fails.
pub open spec fn build_talk(
    mode: Mode,
    tag: Seq<u8>,
    body: Seq<u8>,
    t: Seq<Event>,
    r: Result<Built, Error>,
) -> bool {
    &&& t.len() >= 1
    &&& t[0] matches Event::Alloc { len, reply: taken }
    &&& len == whole_size(mode, body.len())
    &&& match taken {
        Err(e) => t.len() == 1 && r == Err::<Built, Error>(e),
        Ok(data) => {
            &&& t.len() >= 2
            &&& t[1] matches Event::Write { off, bytes, reply: wrote }
            &&& off == data.start
            &&& bytes == fresh_image(mode, tag, 0, body)
            &&& match wrote {
                Ok(_) => t.len() == 2 && r == Ok::<Built, Error>(Built { data, ctrl: None }),
                Err(e) => {
                    &&& t.len() == 3
                    &&& t[2] matches Event::Dealloc { range, reply: _ }
                    &&& range == data
                    &&& r == Err::<Built, Error>(e)
                },
            }
        },
    }
}

/// The bytes of a fresh block.
pub(crate) fn fresh_bytes(mode: Mode, tag: &EightCC, ctrl: u64, body: &Vec<u8>) -> (r: Vec<u8>)
    requires
        body@.len() + 24 <= u64::MAX,
    ensures
        r@ == fresh_image(mode, tag@, ctrl, body@),
        r@.len() == whole_size(mode, body@.len()),
{
    let extra: u64 = match mode {
        Mode::Plain => 0,
        _ => 8,
    };
    let header = BlockHeader { size: 16 + extra + body.len() as u64, tag: *tag };
    let mut out = header.to_bytes();
    match mode {
        Mode::Plain => {},
        Mode::Rc => {
            out.extend_from_slice(u64_le(1).as_slice());
        },
        Mode::RcWeak => {
            out.extend_from_slice(u64_le(ctrl).as_slice());
        },
    }
    out.extend_from_slice(body.as_slice());
    proof {
        lemma_le_bytes_len(1, 8);
        lemma_le_bytes_len(ctrl as nat, 8);
        assert(out@ =~= fresh_image(mode, tag@, ctrl, body@));
    }
    out
}

/// Make a plain or counted block with the fields `body`, in one write.
pub fn build_block<A: BStackRaiiAllocator>(
    a: &mut A,
    mode: Mode,
    tag: &EightCC,
    body: &Vec<u8>,
) -> (r: Result<Built, Error>)
    requires
        mode != Mode::RcWeak,
        body@.len() + 24 <= u64::MAX,
    ensures
        final(a).spec_settings() == old(a).spec_settings(),
        extends(old(a).trace(), final(a).trace()),
        build_talk(mode, tag@, body@, since(old(a).trace(), final(a).trace()), r),
{
    let ghost before = a.trace();
    let image = fresh_bytes(mode, tag, 0, body);
    let ghost view = image@;
    let taken = a.alloc_range(image.len() as u64);
    let ghost mut t: Seq<Event> = seq![Event::Alloc { len: view.len() as u64, reply: taken }];
    proof {
        assert(a.trace() =~= before + t);
        lemma_since(before, t);
    }
    let data = match taken {
        Err(e) => {
            return Err(e);
        },
        Ok(data) => data,
    };
    let wrote = a.set(data.start, image);
    proof {
        t = t.push(Event::Write { off: data.start, bytes: view, reply: wrote });
        assert(a.trace() =~= before + t);
        lemma_since(before, t);
    }
    if let Err(e) = wrote {
        let back = a.dealloc(data);
        proof {
            t = t.push(Event::Dealloc { range: data, reply: back });
            assert(a.trace() =~= before + t);
            lemma_since(before, t);
        }
        return Err(e);
    }
    Ok(Built { data, ctrl: None })
}

/// The two writes that make a block and its control block.
pub open spec fn pair_writes(
    data: BStackRange,
    ctrl: BStackRange,
    tag: Seq<u8>,
    ctrl_tag: Seq<u8>,
    ctrl_size: u64,
    body: Seq<u8>,
) -> Seq<(u64, Seq<u8>)> {
    seq![
        (data.start, fresh_image(Mode::RcWeak, tag, ctrl.start, body)),
        (ctrl.start, control_image(ctrl_tag, data.start, ctrl_size)),
    ]
}

/// The conversation that makes a block with a control block: take both, write both in one
/// step, and free both where that fails.
pub open spec fn build_pair_talk(
    tag: Seq<u8>,
    ctrl_tag: Seq<u8>,
    ctrl_size: u64,
    body: Seq<u8>,
    before: TeardownView,
    new: TeardownView,
    s: Settings,
    k: int,
    taken: Result<Seq<BStackRange>, Error>,
    t: Seq<Event>,
    r: Result<Built, Error>,
) -> bool {
    let sizes = seq![whole_size(Mode::RcWeak, body.len()) as u64, ctrl_size];
    &&& 0 <= k <= t.len()
    &&& match taken {
        Err(e) => {
            &&& k == t.len()
            &&& r == Err::<Built, Error>(e)
            &&& take_pair_talk(sizes, before, new, s, t, taken)
        },
        Ok(blocks) => {
            &&& take_pair_talk(sizes, before, before, s, t.take(k), taken)
            &&& blocks.len() == 2
            &&& t.len() > k
            &&& t[k] matches Event::WriteBatch { writes, reply }
            &&& writes == pair_writes(blocks[0], blocks[1], tag, ctrl_tag, ctrl_size, body)
            &&& match reply {
                Ok(_) => t.len() == k + 1 && new == before && r == Ok::<Built, Error>(
                    Built { data: blocks[0], ctrl: Some(blocks[1]) },
                ),
                Err(e) => r == Err::<Built, Error>(e) && freed_both(
                    blocks,
                    before,
                    new,
                    s,
                    t.skip(k + 1),
                ),
            }
        },
    }
}

/// The conversation that takes blocks of these sizes, in one step where that can be.
pub open spec fn take_pair_talk(
    sizes: Seq<u64>,
    before: TeardownView,
    new: TeardownView,
    s: Settings,
    t: Seq<Event>,
    taken: Result<Seq<BStackRange>, Error>,
) -> bool {
    if s.bulk {
        new == before && t.len() == 1 && t[0] == (Event::AllocBulk { lens: sizes, reply: taken })
    } else {
        alloc_many_talk(sizes, before, new, s, t, taken)
    }
}

/// Whether both blocks were freed: given back in one step where that can be, else one by one,
/// unless they were collected.
pub open spec fn freed_both(
    blocks: Seq<BStackRange>,
    before: TeardownView,
    new: TeardownView,
    s: Settings,
    t: Seq<Event>,
) -> bool {
    if s.bulk {
        &&& new == before
        &&& t.len() == 1
        &&& t[0] matches Event::DeallocBulk { ranges, reply: _ }
        &&& ranges == blocks
    } else if collects(before, s) {
        &&& new == with_more(before, seq![(s.file, blocks[0]), (s.file, blocks[1])])
        &&& t.len() == 0
    } else {
        &&& new == before
        &&& t.len() == 2
        &&& t[0] matches Event::Dealloc { range: r0, reply: _ }
        &&& r0 == blocks[0]
        &&& t[1] matches Event::Dealloc { range: r1, reply: _ }
        &&& r1 == blocks[1]
    }
}

/// Make a counted block with weak references: the data block with the fields `body`, and its
/// control block, both in one write.
pub fn build_pair<A: BStackRaiiAllocator>(
    ctx: &mut Teardown,
    a: &mut A,
    tag: &EightCC,
    ctrl_tag: EightCC,
    ctrl_size: u64,
    body: &Vec<u8>,
) -> (r: Result<Built, Error>)
    requires
        body@.len() + 24 <= u64::MAX,
        40 <= ctrl_size <= usize::MAX,
    ensures
        final(a).spec_settings() == old(a).spec_settings(),
        extends(old(a).trace(), final(a).trace()),
        exists|k: int, taken: Result<Seq<BStackRange>, Error>| #[trigger]
            build_pair_talk(
                tag@,
                ctrl_tag@,
                ctrl_size,
                body@,
                old(ctx)@,
                final(ctx)@,
                old(a).spec_settings(),
                k,
                taken,
                since(old(a).trace(), final(a).trace()),
                r,
            ),
{
    let ghost before = a.trace();
    let ghost s = a.spec_settings();
    let ghost was = ctx@;
    let size: u64 = 24 + body.len() as u64;
    let mut sizes: Vec<u64> = Vec::new();
    sizes.push(size);
    sizes.push(ctrl_size);
    let ghost want = seq![whole_size(Mode::RcWeak, body@.len()) as u64, ctrl_size];
    assert(sizes@ =~= want);
    let got = alloc_many(ctx, a, sizes);
    let ghost taken = ranges_view(got);
    let ghost mid = a.trace();
    let ghost t1 = since(before, mid);
    let ghost k = t1.len() as int;
    proof {
        lemma_extends(before, mid);
        assert(t1.take(k) =~= t1);
        if s.bulk {
            let ev = Event::AllocBulk { lens: want, reply: taken };
            assert(mid =~= before + seq![ev]);
            lemma_since(before, seq![ev]);
        }
        assert(take_pair_talk(want, was, ctx@, s, t1, taken));
    }
    let blocks = match got {
        Err(e) => {
            assert(build_pair_talk(
                tag@,
                ctrl_tag@,
                ctrl_size,
                body@,
                was,
                ctx@,
                s,
                k,
                taken,
                t1,
                Err(e),
            ));
            return Err(e);
        },
        Ok(b) => b,
    };
    let data: BStackRange = blocks[0];
    let ctrl: BStackRange = blocks[1];
    let image = fresh_bytes(Mode::RcWeak, tag, ctrl.start, body);
    let payload = build_control_payload(ctrl_tag, data.start, ctrl_size);
    let mut writes: Vec<(u64, Vec<u8>)> = Vec::new();
    writes.push((data.start, image));
    writes.push((ctrl.start, payload));
    let ghost view = writes_view(writes@);
    assert(view =~= pair_writes(data, ctrl, tag@, ctrl_tag@, ctrl_size, body@));
    let wrote = a.set_batched(writes);
    let ghost t2 = t1.push(Event::WriteBatch { writes: view, reply: wrote });
    let ghost mid2 = a.trace();
    proof {
        assert(mid2 =~= before + t2);
        lemma_since(before, t2);
        assert(t2.take(k) =~= t1);
    }
    if let Err(e) = wrote {
        let ghost pair = blocks@;
        let _ = free_many(ctx, a, blocks);
        proof {
            lemma_extends(mid2, a.trace());
            let t3 = since(mid2, a.trace());
            let t = t2 + t3;
            assert(a.trace() =~= before + t);
            lemma_since(before, t);
            assert(t.take(k) =~= t1);
            assert(t.skip(k + 1) =~= t3);
            assert(t[k] == t2[k]);
            if !s.bulk && collects(was, s) {
                assert(pair.map_values(|x: BStackRange| (s.file, x)) =~= seq![
                    (s.file, pair[0]),
                    (s.file, pair[1]),
                ]);
                assert(a.trace() =~= mid2 + Seq::empty());
                lemma_since(mid2, Seq::empty());
            }
            assert(freed_both(pair, was, ctx@, s, t3));
            assert(build_pair_talk(
                tag@,
                ctrl_tag@,
                ctrl_size,
                body@,
                was,
                ctx@,
                s,
                k,
                taken,
                t,
                Err(e),
            ));
        }
        return Err(e);
    }
    let built = Built { data, ctrl: Some(ctrl) };
    assert(build_pair_talk(
        tag@,
        ctrl_tag@,
        ctrl_size,
        body@,
        was,
        ctx@,
        s,
        k,
        taken,
        t2,
        Ok(built),
    ));
    Ok(built)
}

/// What a constructor returns: the block, or the failure with the children that it had taken.
pub fn conclude_construction<F>(built: Result<Built, Error>, children: F) -> (r: Result<
    Built,
    ConstructError<F>,
>)
    ensures
        match built {
            Ok(b) => r matches Ok(x) && x == b,
            Err(e) => r matches Err(x) && x.source == e && x.fields == Some(children),
        },
{
    match built {
        Ok(b) => Ok(b),
        Err(e) => Err(ConstructError::recovered(e, children)),
    }
}

/// A failed construction leaves no block behind: what was taken is given back.
pub proof fn law_failed_construction_gives_the_block_back(
    mode: Mode,
    tag: Seq<u8>,
    body: Seq<u8>,
    t: Seq<Event>,
    e: Error,
)
    requires
        build_talk(mode, tag, body, t, Err(e)),
    ensures
        t[0] matches Event::Alloc { len: _, reply: Ok(data) } ==> (t.last() matches Event::Dealloc {
            range,
            reply: _,
        } && range == data),
{
}

/// A fresh counted block has one owner; a fresh block with a control block knows where that
/// is. Both are found at the offset that releases use.
pub proof fn law_fresh_block_is_counted(mode: Mode, tag: Seq<u8>, ctrl: u64, body: Seq<u8>)
    requires
        tag.len() == 8,
    ensures
        mode == Mode::Rc ==> le_value(fresh_image(mode, tag, ctrl, body).subrange(16, 24)) == 1,
        mode == Mode::RcWeak ==> le_value(fresh_image(mode, tag, ctrl, body).subrange(16, 24))
            == ctrl,
{
    let b = fresh_image(mode, tag, ctrl, body);
    crate::bytes::lemma_pow256_4_8();
    lemma_le_bytes_len(whole_size(mode, body.len()) as u64 as nat, 8);
    lemma_le_bytes_len(1, 8);
    lemma_le_bytes_len(ctrl as nat, 8);
    crate::bytes::lemma_le_value_of_bytes(1, 8);
    crate::bytes::lemma_le_value_of_bytes(ctrl as nat, 8);
    if mode == Mode::Rc {
        assert(b.subrange(16, 24) =~= le_bytes(1, 8));
    }
    if mode == Mode::RcWeak {
        assert(b.subrange(16, 24) =~= le_bytes(ctrl as nat, 8));
    }
}

} // verus!
