//! The description of a type of block that is kept in a file.
use vstd::prelude::*;

use crate::layout::EightCC;

verus! {

/// The shape of a field.
pub enum Shape {
    /// Plain bytes, this many.
    Pod { width: u32 },
    /// A block with this tag, referred to in one way or another, or lying in the field.
    Owned(EightCC),
    Strong(EightCC),
    Weak(EightCC),
    Ref(EightCC),
    Embed(EightCC),
    /// What may be absent.
    Option(Box<Shape>),
    /// Any number of elements.
    Vec(Box<Shape>),
    /// This many elements.
    Array { n: u32, inner: Box<Shape> },
}

/// A field: its name, where it lies in a block, and its shape.
pub struct RttiField {
    pub name: String,
    pub offset: u32,
    pub shape: Shape,
}

/// A type of block.
pub struct RttiType {
    pub tag: EightCC,
    pub name: String,
    pub rc: bool,
    pub weak: bool,
    pub ondisk_size: u64,
    pub fields: Vec<RttiField>,
}

} // verus!
