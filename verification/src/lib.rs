//! Typed, reference-counted, crash-safe ownership of the blocks of a file-backed stack.
pub mod bytes;
pub mod embed;
pub mod error;
pub mod range;
pub mod allocator;
pub mod mem;
pub mod wal;
pub mod laws;
pub mod layout;
pub mod refcount;
pub mod teardown;
pub mod traits;
pub mod reference;
pub mod handle;
pub mod bulk;
pub mod handback;
pub mod cast;
pub mod construct;
pub mod nested;
pub mod owned;
pub mod path;
pub mod registry;
pub mod fields;
pub mod foreign;
pub mod rtti;
pub mod slot;
pub mod strongs;
pub mod tagged;
pub mod derive;
pub mod duplicate;
