//! What a type of block says of itself.
//!
//! The specification functions say it to the verifier. They have a default that says nothing,
//! for types whose code is not verified.
use vstd::pervasive::arbitrary;
use vstd::prelude::*;

use crate::allocator::{extends, since, BStackRaiiAllocator, Event, Settings};
use crate::error::Error;
use crate::layout::EightCC;
use crate::range::BStackRange;
use crate::teardown::{kept, Teardown, TeardownView};

verus! {

/// A type with a name in every header.
pub trait BStackCast {
    open spec fn spec_eightcc() -> Seq<u8> {
        arbitrary()
    }

    fn eightcc() -> (r: EightCC)
        ensures
            r@ == Self::spec_eightcc(),
    ;
}

/// A type of block.
pub trait BStackBlock: BStackCast + Sized {
    open spec fn spec_on_disk_size() -> u64 {
        arbitrary()
    }

    /// How many bytes a block of this type takes.
    fn on_disk_size() -> (r: u64)
        ensures
            r == Self::spec_on_disk_size(),
    ;

    open spec fn spec_range(&self) -> BStackRange {
        arbitrary()
    }

    /// Where the block is.
    fn range(&self) -> (r: BStackRange)
        ensures
            r == self.spec_range(),
    ;

    /// The handle of the block at `range`, which the caller says is of this type.
    fn from_range(range: BStackRange) -> (r: Self)
        ensures
            r.spec_range() == range,
    ;

    /// Whether this conversation releases everything that the block at `range` owns, with this
    /// outcome.
    open spec fn children_talk(
        range: BStackRange,
        before: TeardownView,
        new: TeardownView,
        s: Settings,
        t: Seq<Event>,
        r: Result<(), Error>,
    ) -> bool {
        arbitrary()
    }

    /// Release everything that the block at `range` owns, but not the block itself.
    fn bstack_drop_children<A: BStackRaiiAllocator>(
        range: BStackRange,
        ctx: &mut Teardown,
        a: &mut A,
    ) -> (r: Result<(), Error>)
        ensures
            final(a).spec_settings() == old(a).spec_settings(),
            extends(old(a).trace(), final(a).trace()),
            kept(old(ctx)@, final(ctx)@),
            Self::children_talk(
                range,
                old(ctx)@,
                final(ctx)@,
                old(a).spec_settings(),
                since(old(a).trace(), final(a).trace()),
                r,
            ),
    ;
}

/// A type of block that weak references can lead to.
pub trait BStackWeakable: BStackBlock {
    /// The type of the control block.
    type Control;

    open spec fn spec_control_size() -> u64 {
        arbitrary()
    }

    /// How many bytes the control block takes.
    fn control_size() -> (r: u64)
        ensures
            r == Self::spec_control_size(),
    ;
}

/// A counted type of block.
pub trait BStackShared: BStackBlock {
    /// How many bytes the control block takes; `None` where the count lies in the block itself.
    open spec fn spec_control() -> Option<u64> {
        arbitrary()
    }

    fn control() -> (r: Option<u64>)
        ensures
            r == Self::spec_control(),
    ;
}

/// A type of block that can lie in another block: a plain one.
pub trait BStackEmbeddable: BStackBlock {

}

/// Something that can be duplicated, where that may fail.
pub trait TryClone: Sized {
    fn try_clone(&self) -> (r: Result<Self, Error>);
}

/// Something that can be released: a block with all that it owns, or one reference.
pub trait BStackDrop: Sized {
    /// Whether this conversation releases it, with this outcome.
    open spec fn release_talk(
        &self,
        before: TeardownView,
        new: TeardownView,
        s: Settings,
        t: Seq<Event>,
        r: Result<(), Error>,
    ) -> bool {
        arbitrary()
    }

    /// Release it.
    fn bstack_drop<A: BStackRaiiAllocator>(self, ctx: &mut Teardown, a: &mut A) -> (r: Result<
        (),
        Error,
    >)
        ensures
            final(a).spec_settings() == old(a).spec_settings(),
            extends(old(a).trace(), final(a).trace()),
            kept(old(ctx)@, final(ctx)@),
            self.release_talk(
                old(ctx)@,
                final(ctx)@,
                old(a).spec_settings(),
                since(old(a).trace(), final(a).trace()),
                r,
            ),
    ;
}

} // verus!
