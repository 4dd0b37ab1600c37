//! What the attribute macros decide: which shapes of fields a block can have, how each is
//! stored, and what is generated for it.
pub mod kind;
pub mod mix;
pub mod problem;
pub mod ty;
pub mod shape;
pub mod syntax;
pub mod attr;
pub mod tag;
pub mod disc;
pub mod words;
pub mod class;
pub mod field;
pub mod convert;
pub mod model;
pub mod plan;
pub mod block;
pub mod enums;
