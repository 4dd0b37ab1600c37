//! References to blocks of a known type.
use std::marker::PhantomData;
use vstd::prelude::*;

use crate::range::BStackRange;

verus! {

/// A reference to a block of type `T`: where it is, and nothing more.
pub struct BStackRef<T> {
    range: BStackRange,
    marker: PhantomData<T>,
}

impl<T> View for BStackRef<T> {
    type V = BStackRange;

    closed spec fn view(&self) -> BStackRange {
        self.range
    }
}

impl<T> BStackRef<T> {
    /// The reference to the block at `range`, which the caller says is of type `T`.
    pub fn from_range(range: BStackRange) -> (r: BStackRef<T>)
        ensures
            r@ == range,
    {
        BStackRef { range, marker: PhantomData }
    }

    /// Where the block is.
    pub fn into_range(self) -> (r: BStackRange)
        ensures
            r == self@,
    {
        self.range
    }

    /// Where the block is.
    pub fn range(&self) -> (r: BStackRange)
        ensures
            r == self@,
    {
        self.range
    }
}

/// A reference is its range.
pub proof fn law_reference_is_its_range<T>(r: BStackRef<T>, s: BStackRef<T>)
    requires
        r@ == s@,
    ensures
        r == s,
{
}

} // verus!
