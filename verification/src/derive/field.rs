//! The fields of a struct or of a variant.
use vstd::prelude::*;

use super::ty::Ty;

verus! {

/// A field: its name, its type, and the names of its annotations. An annotation whose name is
/// a longer path stands as `None`.
pub struct Field {
    pub name: String,
    pub ty: Ty,
    pub attrs: Vec<Option<String>>,
}

} // verus!
