//! The two classifications that everything else follows: of a block, and of a field.
use vstd::prelude::*;

verus! {

/// How a block is owned.
#[derive(Clone, Copy, Debug, PartialEq, Eq, Structural)]
pub enum Mode {
    /// By one owner.
    Plain,
    /// By counted owners; the count lies in the block.
    Rc,
    /// By counted owners, with weak references; the counts lie in a control block.
    RcWeak,
}

/// How a field refers to its target.
#[derive(Clone, Copy, Debug, PartialEq, Eq, Structural)]
pub enum Kind {
    Owned,
    Strong,
    Weak,
    Ref,
    /// The target lies in the block itself, header and all.
    Embed,
    /// Plain bytes; there is no target.
    Pod,
}

} // verus!
