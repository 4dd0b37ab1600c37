//! The sole owner of a block, as a value.
use vstd::pervasive::arbitrary;
use vstd::prelude::*;

use crate::allocator::{extends, since, BStackRaiiAllocator, Event, Settings};
use crate::error::Error;
use crate::range::BStackRange;
use crate::teardown::{
    drop_block, drop_talk, kept, release_of, teardown_talk, wal_teardown, Teardown, TeardownView,
};
use crate::traits::{BStackBlock, BStackDrop};

verus! {

/// The sole owner of the block that `T` is a handle of. Nothing is freed when it goes out of
/// scope: it is released by name, or through [`AutoDrop`].
pub struct BStackOwned<T: BStackBlock>(T);

impl<T: BStackBlock> BStackOwned<T> {
    /// The handle inside.
    pub closed spec fn inner(&self) -> T {
        self.0
    }

    /// Mark `inner` as the sole owner of its block, which the caller says it is.
    pub fn from_raw(inner: T) -> (r: BStackOwned<T>)
        ensures
            r.inner() == inner,
    {
        BStackOwned(inner)
    }

    /// The handle; the caller takes over the ownership.
    pub fn into_inner(self) -> (r: T)
        ensures
            r == self.inner(),
    {
        self.0
    }

    /// The handle, on loan.
    pub fn handle(&self) -> (r: &T)
        ensures
            *r == self.inner(),
    {
        &self.0
    }

    /// Bind the owner to its allocator.
    pub fn auto<'a, A: BStackRaiiAllocator>(self, allocator: &'a mut A) -> (r: AutoDrop<'a, T, A>)
        ensures
            r.owned() == self,
            *r.allocator == *old(allocator),
            *final(r.allocator) == *final(allocator),
    {
        AutoDrop { owned: self, allocator }
    }

    /// Forget the type: the owner of the bare range.
    pub fn into_slice(self) -> (r: BStackOwnedSlice)
        ensures
            r@ == self.inner().spec_range(),
    {
        BStackOwnedSlice { range: self.0.range() }
    }
}

/// A block that is to be released whole.
pub struct BlockShell<T> {
    range: BStackRange,
    marker: std::marker::PhantomData<T>,
}

impl<T: BStackBlock> BlockShell<T> {
    pub closed spec fn spec_range(&self) -> BStackRange {
        self.range
    }

    pub fn new(range: BStackRange) -> (r: BlockShell<T>)
        ensures
            r.spec_range() == range,
    {
        BlockShell { range, marker: std::marker::PhantomData }
    }
}

impl<T: BStackBlock> BStackDrop for BlockShell<T> {
    open spec fn release_talk(
        &self,
        before: TeardownView,
        new: TeardownView,
        s: Settings,
        t: Seq<Event>,
        r: Result<(), Error>,
    ) -> bool {
        drop_talk::<T>(self.spec_range(), before, new, s, t, r)
    }

    /// What the block owns goes first, the block itself last.
    fn bstack_drop<A: BStackRaiiAllocator>(self, ctx: &mut Teardown, a: &mut A) -> (r: Result<
        (),
        Error,
    >) {
        drop_block::<T, A>(self.range, ctx, a)
    }
}

/// The conversation that releases the block at `range`.
pub open spec fn block_release<T: BStackBlock>(range: BStackRange, s: Settings) -> spec_fn(
    TeardownView,
    TeardownView,
    Seq<Event>,
    Result<(), Error>,
) -> bool {
    |before: TeardownView, new: TeardownView, t: Seq<Event>, r: Result<(), Error>|
        drop_talk::<T>(range, before, new, s, t, r)
}

/// The conversation that releases the block at `range`, and all that it owns, as one
/// transaction.
pub open spec fn owner_talk<T: BStackBlock>(
    range: BStackRange,
    before: TeardownView,
    new: TeardownView,
    s: Settings,
    t: Seq<Event>,
    r: Result<(), Error>,
) -> bool {
    teardown_talk(block_release::<T>(range, s), before, new, s, t, r)
}

impl<T: BStackBlock> BStackDrop for BStackOwned<T> {
    open spec fn release_talk(
        &self,
        before: TeardownView,
        new: TeardownView,
        s: Settings,
        t: Seq<Event>,
        r: Result<(), Error>,
    ) -> bool {
        owner_talk::<T>(self.inner().spec_range(), before, new, s, t, r)
    }

    /// The block and all that it owns go as one transaction.
    fn bstack_drop<A: BStackRaiiAllocator>(self, ctx: &mut Teardown, a: &mut A) -> (r: Result<
        (),
        Error,
    >) {
        let range = self.0.range();
        let shell = BlockShell::<T>::new(range);
        assert(release_of(shell, a.spec_settings()) =~= block_release::<T>(
            range,
            a.spec_settings(),
        ));
        wal_teardown(shell, ctx, a)
    }
}

/// The sole owner of a block of unknown type.
pub struct BStackOwnedSlice {
    pub range: BStackRange,
}

impl View for BStackOwnedSlice {
    type V = BStackRange;

    open spec fn view(&self) -> BStackRange {
        self.range
    }
}

/// An owner together with its allocator.
pub struct AutoDrop<'a, T: BStackBlock, A: BStackRaiiAllocator> {
    pub owned: BStackOwned<T>,
    pub allocator: &'a mut A,
}

impl<'a, T: BStackBlock, A: BStackRaiiAllocator> AutoDrop<'a, T, A> {
    /// The owner.
    pub open spec fn owned(&self) -> BStackOwned<T> {
        self.owned
    }

    /// Take the owner out again.
    pub fn into_owned(self) -> (r: BStackOwned<T>)
        ensures
            r == self.owned(),
    {
        self.owned
    }

    /// Release the block through the allocator.
    pub fn release(self, ctx: &mut Teardown) -> (r: Result<(), Error>)
        ensures
            kept(old(ctx)@, final(ctx)@),
            final(self.allocator).spec_settings() == old(self.allocator).spec_settings(),
            extends(old(self.allocator).trace(), final(self.allocator).trace()),
            owner_talk::<T>(
                self.owned().inner().spec_range(),
                old(ctx)@,
                final(ctx)@,
                old(self.allocator).spec_settings(),
                since(old(self.allocator).trace(), final(self.allocator).trace()),
                r,
            ),
    {
        self.owned.bstack_drop(ctx, self.allocator)
    }
}

/// A type of block that can be taken apart: what it refers to comes out, and only the block
/// itself is freed.
pub trait BStackMove: BStackBlock {
    /// What comes out.
    type Fields;

    /// Whether this conversation takes the block at `range` apart, with this outcome.
    open spec fn move_talk(
        range: BStackRange,
        before: TeardownView,
        new: TeardownView,
        s: Settings,
        t: Seq<Event>,
        r: Result<Self::Fields, Error>,
    ) -> bool {
        arbitrary()
    }

    /// Take the block apart.
    fn bstack_move<A: BStackRaiiAllocator>(
        owned: BStackOwned<Self>,
        ctx: &mut Teardown,
        a: &mut A,
    ) -> (r: Result<Self::Fields, Error>)
        ensures
            final(a).spec_settings() == old(a).spec_settings(),
            extends(old(a).trace(), final(a).trace()),
            kept(old(ctx)@, final(ctx)@),
            Self::move_talk(
                owned.inner().spec_range(),
                old(ctx)@,
                final(ctx)@,
                old(a).spec_settings(),
                since(old(a).trace(), final(a).trace()),
                r,
            ),
    ;
}

impl<'a, T: BStackMove, A: BStackRaiiAllocator> AutoDrop<'a, T, A> {
    /// Take the block apart through the allocator.
    pub fn bstack_move(self, ctx: &mut Teardown) -> (r: Result<T::Fields, Error>)
        ensures
            kept(old(ctx)@, final(ctx)@),
            final(self.allocator).spec_settings() == old(self.allocator).spec_settings(),
            extends(old(self.allocator).trace(), final(self.allocator).trace()),
            T::move_talk(
                self.owned().inner().spec_range(),
                old(ctx)@,
                final(ctx)@,
                old(self.allocator).spec_settings(),
                since(old(self.allocator).trace(), final(self.allocator).trace()),
                r,
            ),
    {
        T::bstack_move(self.owned, ctx, self.allocator)
    }
}

} // verus!
