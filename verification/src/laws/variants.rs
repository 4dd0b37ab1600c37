//! Enums as blocks: what is put in comes out, is copied and is released by its variant.
use vstd::prelude::*;

use crate::allocator::{lemma_extends, since, BStackRaiiAllocator, Event};
use crate::bytes::{le_value, lemma_le_bytes_of_value, lemma_pow256_4_8, pow256};
use crate::derive::attr::Repr;
use crate::derive::kind::Mode;
use crate::duplicate::HomeClone;
use crate::error::Error;
use crate::range::BStackRange;
use crate::slot::Strong;
use crate::tagged::{
    arm_of, clone_plan, disc_value, drop_plan, drop_planned, drop_step, encode, is_block,
    is_suitable, law_value_round_trip, look, owns_any, read, suits, Arm, Data, DataView, DropPlan,
    DropStep, EnumLayout, Part, Seen, SeenView,
};
use crate::tagged::ClonePlan;


verus! {

/// Whether a variant with this part has something that goes with it.
pub open spec fn has_charge(part: Part) -> bool {
    match part {
        Part::Pod(_) => false,
        Part::Ref(_) => false,
        Part::Owned(_) => true,
        Part::Strong(_, _) => true,
        Part::Weak(_) => true,
        Part::Embed(_) => true,
    }
}

/// Whether some variant of the enum has something that goes with it.
pub open spec fn any_charge(layout: EnumLayout) -> bool {
    exists|i: int| 0 <= i < layout.arms@.len() && has_charge((#[trigger] layout.arms@[i]).part)
}

/// Where the number of the variant lies in a block: behind the header, and behind the count or
/// the offset of the control block where there is one.
pub open spec fn number_at(layout: EnumLayout) -> int {
    match layout.mode {
        Mode::Plain => 16,
        Mode::Rc => 24,
        Mode::RcWeak => 24,
    }
}

/// What is to be released with a value, where the payload lies at `at` in the block.
pub open spec fn charge_of(part: Part, d: DataView, at: int) -> DropStep {
    match (part, d) {
        (Part::Owned(_), DataView::Owned(r)) => DropStep::Owned(r),
        (Part::Strong(_, _), DataView::Strong(s)) => DropStep::Strong(s.data),
        (Part::Weak(_), DataView::Weak(Some(r))) => DropStep::Weak(r),
        (Part::Embed(n), _) => DropStep::Embedded(at as u64, n),
        _ => DropStep::Nothing,
    }
}

/// What is to be done about what a value refers to when it is copied.
pub open spec fn copy_of(part: Part, d: DataView, at: int) -> HomeClone {
    match (part, d) {
        (Part::Owned(_), DataView::Owned(r)) => if r.start == 0 {
            HomeClone::Nothing
        } else {
            HomeClone::Deep(r)
        },
        (Part::Strong(_, _), DataView::Strong(s)) => if s.data.start == 0 {
            HomeClone::Nothing
        } else {
            HomeClone::Strong(s.data)
        },
        (Part::Weak(_), DataView::Weak(Some(r))) => HomeClone::Weak(r.start),
        (Part::Embed(n), _) => HomeClone::Inline(at as u64, n),
        _ => HomeClone::Nothing,
    }
}

/// How many bytes the number of a variant takes.
pub open spec fn number_width(layout: EnumLayout) -> int {
    match layout.repr {
        Repr::U8 | Repr::I8 => 1,
        Repr::U16 | Repr::I16 => 2,
        Repr::U32 | Repr::I32 => 4,
        Repr::U64 | Repr::I64 => 8,
    }
}

/// The conversation with one more read of the whole block.
pub open spec fn with_read(
    asked: Seq<Event>,
    block: BStackRange,
    got: Result<Seq<u8>, Error>,
) -> Seq<Event> {
    asked.push(Event::Read { off: block.start, len: block.len, reply: got })
}

/// Whether the bytes behind the header are those made for variant number `i` with this value.
pub open spec fn made_for(layout: EnumLayout, i: usize, d: Data, body: Seq<u8>) -> bool {
    exists|made: Vec<u8>| #[trigger]
        call_ensures(encode, (&layout, i, &d), made) && made@ == body
}

/// What a value looks like before any other block is looked at.
pub open spec fn looks_like(part: Part, i: int, d: DataView) -> SeenView {
    match (part, d) {
        (Part::Strong(_, Some(c)), DataView::Strong(s)) => SeenView::Counted(i, s.data, c),
        (Part::Embed(n), _) => SeenView::Embedded(i, n),
        _ => SeenView::Value(i, d),
    }
}

pub(crate) proof fn lemma_owns(layout: EnumLayout)
    ensures
        owns_any(layout.arms@) == any_charge(layout),
{
    if owns_any(layout.arms@) {
        let i = choose|i: int|
            0 <= i < layout.arms@.len() && crate::tagged::owns((#[trigger] layout.arms@[i]).part);
        assert(has_charge(layout.arms@[i].part));
    }
    if any_charge(layout) {
        let i = choose|i: int|
            0 <= i < layout.arms@.len() && has_charge((#[trigger] layout.arms@[i]).part);
        assert(crate::tagged::owns(layout.arms@[i].part));
    }
}

/// What is made of a value says that value again, and its variant.
pub proof fn law_what_is_made_of_a_value_says_it(
    layout: EnumLayout,
    i: usize,
    d: Data,
    body: Vec<u8>,
    bytes: &[u8],
    r: Seen,
)
    requires
        layout.wf(),
        i < layout.arms@.len(),
        suits(layout.arms@[i as int].part, d@),
        call_ensures(encode, (&layout, i, &d), body),
        bytes@ == body@,
        call_ensures(look, (&layout, bytes), r),
    ensures
        r@ == looks_like(layout.arms@[i as int].part, i as int, d@),
        body@.len() == number_width(layout) + layout.payload,
{
    law_value_round_trip(layout, i as int, d@);
}

/// The number of a variant as it lies in a block, without regard to a sign.
pub open spec fn number_word(layout: EnumLayout, i: int) -> int {
    let disc = layout.arms@[i].disc as int;
    if disc >= 0 {
        disc
    } else {
        let w = number_width(layout);
        if w == 1 {
            disc + 0x100
        } else if w == 2 {
            disc + 0x1_0000
        } else if w == 4 {
            disc + 0x1_0000_0000
        } else {
            disc + 0x1_0000_0000_0000_0000
        }
    }
}

/// The number that lies at the start of the bytes behind a header.
pub open spec fn number_in(layout: EnumLayout, body: Seq<u8>) -> int {
    le_value(body.take(number_width(layout))) as int
}

proof fn lemma_arm(arms: Seq<Arm>, disc: int)
    ensures
        match arm_of(arms, disc) {
            Some(i) => 0 <= i < arms.len() && arms[i].disc == disc,
            None => forall|i: int| 0 <= i < arms.len() ==> (#[trigger] arms[i]).disc != disc,
        },
    decreases arms.len(),
{
    if arms.len() > 0 {
        let init = arms.drop_last();
        lemma_arm(init, disc);
        if arm_of(arms, disc) is None {
            assert forall|i: int| 0 <= i < arms.len() implies (#[trigger] arms[i]).disc != disc by {
                if i < init.len() {
                    assert(init[i] == arms[i]);
                }
            }
        }
    }
}

proof fn lemma_number(layout: EnumLayout, body: Seq<u8>, i: int)
    requires
        layout.wf(),
        body.len() >= number_width(layout),
        0 <= i < layout.arms@.len(),
    ensures
        disc_value(layout.repr, body.take(number_width(layout))) == layout.arms@[i].disc
            <==> number_in(layout, body) == number_word(layout, i),
{
    let w = number_width(layout);
    let s = body.take(w);
    lemma_le_bytes_of_value(s);
    lemma_pow256_4_8();
    reveal_with_fuel(pow256, 3);
    assert(layout.arms@[i] == layout.arms@[i]);
}

/// A block is of the variant whose number lies in it, and of none where no variant has that
/// number.
pub proof fn law_the_number_says_the_variant(layout: EnumLayout, body: &[u8], r: Seen)
    requires
        layout.wf(),
        body@.len() == number_width(layout) + layout.payload,
        call_ensures(look, (&layout, body), r),
    ensures
        match r {
            Seen::Unknown => forall|i: int|
                0 <= i < layout.arms@.len() ==> #[trigger] number_word(layout, i) != number_in(
                    layout,
                    body@,
                ),
            Seen::Value(i, _) => i < layout.arms@.len() && number_word(layout, i as int)
                == number_in(layout, body@),
            Seen::Counted(i, _, _) => i < layout.arms@.len() && number_word(layout, i as int)
                == number_in(layout, body@),
            Seen::Embedded(i, _) => i < layout.arms@.len() && number_word(layout, i as int)
                == number_in(layout, body@),
        },
{
    let w = number_width(layout);
    let found = disc_value(layout.repr, body@.take(w));
    lemma_arm(layout.arms@, found);
    match arm_of(layout.arms@, found) {
        Some(i) => {
            lemma_number(layout, body@, i);
        },
        None => {
            assert forall|i: int| 0 <= i < layout.arms@.len() implies #[trigger] number_word(
                layout,
                i,
            ) != number_in(layout, body@) by {
                lemma_number(layout, body@, i);
                assert(layout.arms@[i].disc != found);
            }
        },
    }
}

pub(crate) proof fn lemma_no_variant(layout: EnumLayout, body: Seq<u8>)
    requires
        layout.wf(),
        body.len() == number_width(layout) + layout.payload,
        forall|i: int|
            0 <= i < layout.arms@.len() ==> #[trigger] number_word(layout, i) != number_in(
                layout,
                body,
            ),
    ensures
        crate::tagged::seen(layout, body) == SeenView::Unknown,
{
    let found = disc_value(layout.repr, body.take(number_width(layout)));
    lemma_arm(layout.arms@, found);
    if let Some(i) = arm_of(layout.arms@, found) {
        lemma_number(layout, body, i);
        assert(number_word(layout, i) != number_in(layout, body));
    }
}

/// A value suits a variant where it is of the variant's kind, and what it leads to is as long as
/// the variant says.
pub proof fn law_values_suit_their_variant(layout: &EnumLayout, i: usize, d: &Data, r: bool)
    requires
        call_ensures(is_suitable, (layout, i, d), r),
    ensures
        r <==> i < layout.arms@.len() && match (layout.arms@[i as int].part, d@) {
            (Part::Pod(n), DataView::Pod(b)) => b.len() == n,
            (Part::Owned(n), DataView::Owned(x)) => x.len == n,
            (Part::Ref(n), DataView::Ref(x)) => x.len == n,
            (Part::Embed(n), DataView::Embed(x)) => x.len == n,
            (Part::Strong(n, None), DataView::Strong(s)) => s.data.len == n && s.ctrl is None,
            (Part::Strong(n, Some(c)), DataView::Strong(s)) => s.data.len == n && (
            s.ctrl matches Some(x) && x.len == c),
            (Part::Weak(c), DataView::Weak(None)) => true,
            (Part::Weak(c), DataView::Weak(Some(x))) => x.len == c && x.start != 0,
            _ => false,
        },
{
}

/// Releasing an enum releases what its active variant owns: the plan names the variant, and asks
/// for nothing only where the value has nothing that goes with it.
pub proof fn law_a_release_takes_what_the_variant_owns<A: BStackRaiiAllocator>(
    a: &mut A,
    layout: &EnumLayout,
    block: BStackRange,
    i: usize,
    d: Data,
    r: Result<DropPlan, Error>,
)
    requires
        layout.wf(),
        is_block(*layout, block),
        i < layout.arms@.len(),
        suits(layout.arms@[i as int].part, d@),
        call_ensures(drop_plan::<A>, (a, layout, block), r),
    ensures
        if !any_charge(*layout) {
            final(a).trace() == old(a).trace() && r == Ok::<DropPlan, Error>(
                DropPlan { variant: None, step: DropStep::Nothing },
            )
        } else {
            exists|got: Result<Seq<u8>, Error>|
                final(a).trace() == #[trigger] with_read(old(a).trace(), block, got)
                    && match got {
                    Err(e) => r == Err::<DropPlan, Error>(e),
                    Ok(b) => made_for(*layout, i, d, b.skip(number_at(*layout))) ==> r == Ok::<
                        DropPlan,
                        Error,
                    >(
                        DropPlan {
                            variant: Some(i),
                            step: charge_of(
                                layout.arms@[i as int].part,
                                d@,
                                number_at(*layout) + number_width(*layout),
                            ),
                        },
                    ),
                }
        },
{
    lemma_owns(*layout);
    lemma_extends(old(a).trace(), final(a).trace());
    let t = since(old(a).trace(), final(a).trace());
    if any_charge(*layout) {
        let got = t[0]->Read_reply;
        assert(old(a).trace() + t =~= with_read(old(a).trace(), block, got));
        law_value_round_trip(*layout, i as int, d@);
        if r is Ok {
            let v = choose|v: SeenView| #[trigger]
                drop_planned(*layout, v, r->Ok_0) && crate::tagged::read_talk(
                    *layout,
                    block,
                    t,
                    Ok(v),
                );
            assert(drop_planned(*layout, v, r->Ok_0));
        }
    } else {
        assert(old(a).trace() + t =~= old(a).trace());
    }
}

/// The same of what is to be released, without the variant.
pub proof fn law_a_release_step_is_that_of_the_plan<A: BStackRaiiAllocator>(
    a: &mut A,
    layout: &EnumLayout,
    block: BStackRange,
    i: usize,
    d: Data,
    r: Result<DropStep, Error>,
)
    requires
        layout.wf(),
        is_block(*layout, block),
        i < layout.arms@.len(),
        suits(layout.arms@[i as int].part, d@),
        call_ensures(drop_step::<A>, (a, layout, block), r),
    ensures
        if !any_charge(*layout) {
            final(a).trace() == old(a).trace() && r == Ok::<DropStep, Error>(DropStep::Nothing)
        } else {
            exists|got: Result<Seq<u8>, Error>|
                final(a).trace() == #[trigger] with_read(old(a).trace(), block, got)
                    && match got {
                    Err(e) => r == Err::<DropStep, Error>(e),
                    Ok(b) => made_for(*layout, i, d, b.skip(number_at(*layout))) ==> r == Ok::<
                        DropStep,
                        Error,
                    >(
                        charge_of(
                            layout.arms@[i as int].part,
                            d@,
                            number_at(*layout) + number_width(*layout),
                        ),
                    ),
                }
        },
{
    lemma_owns(*layout);
    lemma_extends(old(a).trace(), final(a).trace());
    let t = since(old(a).trace(), final(a).trace());
    if any_charge(*layout) {
        let got = t[0]->Read_reply;
        assert(old(a).trace() + t =~= with_read(old(a).trace(), block, got));
        law_value_round_trip(*layout, i as int, d@);
        if r is Ok {
            let p = choose|p: DropPlan| #[trigger]
                crate::tagged::drop_plan_talk(*layout, block, t, Ok(p)) && p.step == r->Ok_0;
            let v = choose|v: SeenView| #[trigger]
                drop_planned(*layout, v, p) && crate::tagged::read_talk(
                    *layout,
                    block,
                    t,
                    Ok(v),
                );
            assert(drop_planned(*layout, v, p));
        }
    } else {
        assert(old(a).trace() + t =~= old(a).trace());
    }
}

/// A copied enum has what it owns for itself: what its variant owns is copied, or counted once
/// more. A counted enum is not copied at all.
pub proof fn law_a_copy_owns_what_it_refers_to<A: BStackRaiiAllocator>(
    a: &mut A,
    layout: &EnumLayout,
    block: BStackRange,
    i: usize,
    d: Data,
    r: Result<ClonePlan, Error>,
)
    requires
        layout.wf(),
        is_block(*layout, block),
        i < layout.arms@.len(),
        suits(layout.arms@[i as int].part, d@),
        call_ensures(clone_plan::<A>, (a, layout, block), r),
    ensures
        if layout.mode != Mode::Plain {
            final(a).trace() == old(a).trace() && r is Err
        } else {
            exists|got: Result<Seq<u8>, Error>|
                final(a).trace() == #[trigger] with_read(old(a).trace(), block, got)
                    && match got {
                    Err(e) => r is Err,
                    Ok(b) => made_for(*layout, i, d, b.skip(16)) ==> {
                        &&& r matches Ok(p)
                        &&& p.bytes@ == b
                        &&& p.step == copy_of(
                            layout.arms@[i as int].part,
                            d@,
                            16 + number_width(*layout),
                        )
                        &&& has_charge(layout.arms@[i as int].part) ==> p.variant == Some(i)
                    },
                }
        },
{
    lemma_owns(*layout);
    lemma_extends(old(a).trace(), final(a).trace());
    let t = since(old(a).trace(), final(a).trace());
    if layout.mode == Mode::Plain {
        let got = t[0]->Read_reply;
        assert(old(a).trace() + t =~= with_read(old(a).trace(), block, got));
        law_value_round_trip(*layout, i as int, d@);
        assert(has_charge(layout.arms@[i as int].part) ==> any_charge(*layout));
    } else {
        assert(old(a).trace() + t =~= old(a).trace());
    }
}

/// Reading an enum shows the value that was put in.
pub proof fn law_a_read_shows_what_was_put_in<A: BStackRaiiAllocator>(
    a: &mut A,
    layout: &EnumLayout,
    block: BStackRange,
    i: usize,
    d: Data,
    r: Result<Seen, Error>,
)
    requires
        layout.wf(),
        is_block(*layout, block),
        i < layout.arms@.len(),
        suits(layout.arms@[i as int].part, d@),
        call_ensures(read::<A>, (a, layout, block), r),
    ensures
        exists|got: Result<Seq<u8>, Error>|
            final(a).trace() == #[trigger] with_read(old(a).trace(), block, got) && match got {
                Err(e) => r is Err,
                Ok(b) => made_for(*layout, i, d, b.skip(number_at(*layout))) ==> (r matches Ok(v)
                    && v@ == looks_like(layout.arms@[i as int].part, i as int, d@)),
            },
{
    lemma_extends(old(a).trace(), final(a).trace());
    let t = since(old(a).trace(), final(a).trace());
    let got = t[0]->Read_reply;
    assert(old(a).trace() + t =~= with_read(old(a).trace(), block, got));
    law_value_round_trip(*layout, i as int, d@);
}

/// Whether no variant has the number that lies in this block.
pub open spec fn of_no_variant(layout: EnumLayout, b: Seq<u8>) -> bool {
    forall|i: int|
        0 <= i < layout.arms@.len() ==> #[trigger] number_word(layout, i) != number_in(
            layout,
            b.skip(number_at(layout)),
        )
}

pub(crate) proof fn lemma_of_no_variant(layout: EnumLayout, block: BStackRange, b: Seq<u8>)
    requires
        layout.wf(),
        is_block(layout, block),
        b.len() == block.len,
        of_no_variant(layout, b),
    ensures
        crate::tagged::seen(layout, b.skip(number_at(layout))) == SeenView::Unknown,
{
    lemma_no_variant(layout, b.skip(number_at(layout)));
}

/// A block whose number no variant has is no value of the enum: it is neither read, nor released,
/// nor copied.
pub proof fn law_a_number_of_no_variant_is_an_error<A: BStackRaiiAllocator>(
    a: &mut A,
    layout: &EnumLayout,
    block: BStackRange,
    r: Result<Seen, Error>,
)
    requires
        layout.wf(),
        is_block(*layout, block),
        call_ensures(read::<A>, (a, layout, block), r),
    ensures
        exists|got: Result<Seq<u8>, Error>|
            final(a).trace() == #[trigger] with_read(old(a).trace(), block, got) && (got matches Ok(
                b,
            ) ==> b.len() == block.len && of_no_variant(*layout, b) ==> (r matches Err(e) && e
                == Error::InvalidDiscriminant)),
{
    lemma_extends(old(a).trace(), final(a).trace());
    let t = since(old(a).trace(), final(a).trace());
    let got = t[0]->Read_reply;
    assert(old(a).trace() + t =~= with_read(old(a).trace(), block, got));
    if let Ok(b) = got {
        if b.len() == block.len && of_no_variant(*layout, b) {
            lemma_of_no_variant(*layout, block, b);
        }
    }
}

/// The same of a release.
pub proof fn law_a_number_of_no_variant_is_not_released<A: BStackRaiiAllocator>(
    a: &mut A,
    layout: &EnumLayout,
    block: BStackRange,
    r: Result<DropPlan, Error>,
)
    requires
        layout.wf(),
        is_block(*layout, block),
        any_charge(*layout),
        call_ensures(drop_plan::<A>, (a, layout, block), r),
    ensures
        exists|got: Result<Seq<u8>, Error>|
            final(a).trace() == #[trigger] with_read(old(a).trace(), block, got) && (got matches Ok(
                b,
            ) ==> b.len() == block.len && of_no_variant(*layout, b) ==> (r matches Err(e) && e
                == Error::InvalidDiscriminant)),
{
    lemma_owns(*layout);
    lemma_extends(old(a).trace(), final(a).trace());
    let t = since(old(a).trace(), final(a).trace());
    let got = t[0]->Read_reply;
    assert(old(a).trace() + t =~= with_read(old(a).trace(), block, got));
    if let Ok(b) = got {
        if b.len() == block.len && of_no_variant(*layout, b) {
            lemma_of_no_variant(*layout, block, b);
        }
    }
}

/// The same of a copy; of an enum that owns nothing, the bytes are all there is to copy.
pub proof fn law_a_number_of_no_variant_is_not_copied<A: BStackRaiiAllocator>(
    a: &mut A,
    layout: &EnumLayout,
    block: BStackRange,
    r: Result<ClonePlan, Error>,
)
    requires
        layout.wf(),
        is_block(*layout, block),
        layout.mode == Mode::Plain,
        call_ensures(clone_plan::<A>, (a, layout, block), r),
    ensures
        exists|got: Result<Seq<u8>, Error>|
            final(a).trace() == #[trigger] with_read(old(a).trace(), block, got) && (got matches Ok(
                b,
            ) ==> {
                &&& !any_charge(*layout) ==> (r matches Ok(p) && p.bytes@ == b && p.step
                    == HomeClone::Nothing && p.variant is None)
                &&& any_charge(*layout) && b.len() == block.len && of_no_variant(*layout, b) ==> (
                r matches Err(e) && e == Error::InvalidDiscriminant)
            }),
{
    lemma_owns(*layout);
    lemma_extends(old(a).trace(), final(a).trace());
    let t = since(old(a).trace(), final(a).trace());
    let got = t[0]->Read_reply;
    assert(old(a).trace() + t =~= with_read(old(a).trace(), block, got));
    if let Ok(b) = got {
        if b.len() == block.len && of_no_variant(*layout, b) {
            lemma_of_no_variant(*layout, block, b);
        }
    }
}

} // verus!
