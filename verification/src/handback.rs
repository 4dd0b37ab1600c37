//! Errors that hand back what the failed operation had taken.
use vstd::pervasive::arbitrary;
use vstd::prelude::*;

use crate::error::Error;

verus! {

/// An error that wraps a failure of the file below.
pub trait HandBack {
    open spec fn spec_io(&self) -> Error {
        arbitrary()
    }

    /// The failure underneath.
    fn io(&self) -> (r: &Error)
        ensures
            *r == self.spec_io(),
    ;
}

/// A failed construction, with the children that it had taken.
pub struct ConstructError<F> {
    pub source: Error,
    /// The children, if they could be kept.
    pub fields: Option<F>,
}

impl<F> ConstructError<F> {
    /// The children are given back.
    pub fn recovered(source: Error, fields: F) -> (r: ConstructError<F>)
        ensures
            r == (ConstructError { source, fields: Some(fields) }),
    {
        ConstructError { source, fields: Some(fields) }
    }

    /// The children could not be kept.
    pub fn lost(source: Error) -> (r: ConstructError<F>)
        ensures
            r == (ConstructError::<F> { source, fields: None }),
    {
        ConstructError { source, fields: None }
    }

    /// The failure alone; the children are let go.
    pub fn into_source(self) -> (r: Error)
        ensures
            r == self.source,
    {
        self.source
    }
}

impl<F> HandBack for ConstructError<F> {
    open spec fn spec_io(&self) -> Error {
        self.source
    }

    fn io(&self) -> (r: &Error) {
        &self.source
    }
}

/// A failure before anything could be kept is a lost construction.
impl<F> From<Error> for ConstructError<F> {
    fn from(source: Error) -> (r: ConstructError<F>) {
        ConstructError { source, fields: None }
    }
}

impl<F> vstd::std_specs::convert::FromSpecImpl<Error> for ConstructError<F> {
    open spec fn obeys_from_spec() -> bool {
        true
    }

    open spec fn from_spec(source: Error) -> ConstructError<F> {
        ConstructError { source, fields: None }
    }
}

/// A failed replacement, with the value that was to be put in place.
pub struct ReplaceError<V> {
    pub source: Error,
    /// The value, unless it is in place already.
    pub value: Option<V>,
}

impl<V> ReplaceError<V> {
    /// The value is given back; what was there before still is.
    pub fn recovered(source: Error, value: V) -> (r: ReplaceError<V>)
        ensures
            r == (ReplaceError { source, value: Some(value) }),
    {
        ReplaceError { source, value: Some(value) }
    }

    /// The value is in place; what was there before could not be handed out.
    pub fn lost(source: Error) -> (r: ReplaceError<V>)
        ensures
            r == (ReplaceError::<V> { source, value: None }),
    {
        ReplaceError { source, value: None }
    }
}

impl<V> HandBack for ReplaceError<V> {
    open spec fn spec_io(&self) -> Error {
        self.source
    }

    fn io(&self) -> (r: &Error) {
        &self.source
    }
}

/// A failed downcast, with the block.
pub enum CastError<S> {
    /// The block is not of the type that was asked for.
    Mismatch(S),
    /// The header could not be read.
    Io(Error, S),
}

impl<S> CastError<S> {
    pub open spec fn spec_slice(self) -> S {
        match self {
            CastError::Mismatch(s) => s,
            CastError::Io(_, s) => s,
        }
    }

    pub open spec fn spec_io(self) -> Option<Error> {
        match self {
            CastError::Mismatch(_) => None,
            CastError::Io(e, _) => Some(e),
        }
    }

    /// The block, unharmed.
    pub fn into_slice(self) -> (r: S)
        ensures
            r == self.spec_slice(),
    {
        match self {
            CastError::Mismatch(s) => s,
            CastError::Io(_, s) => s,
        }
    }

    /// The failure underneath; none where the block is just of another type.
    pub fn io(&self) -> (r: Option<Error>)
        ensures
            r == self.spec_io(),
    {
        match self {
            CastError::Mismatch(_) => None,
            CastError::Io(e, _) => Some(*e),
        }
    }

    /// The words for this failure.
    pub fn message(&self) -> (r: &'static str)
        ensures
            r@ == (match self.spec_io() {
                Some(e) => e.spec_message(),
                None => Error::CastMismatch.spec_message(),
            }),
    {
        match self {
            CastError::Mismatch(_) => Error::CastMismatch.message(),
            CastError::Io(e, _) => e.message(),
        }
    }
}

/// A failed resolution of a cross-file handle, with the handle.
pub struct IntoLocalError<H> {
    pub source: Error,
    pub handle: H,
}

impl<H> IntoLocalError<H> {
    /// The handle is given back.
    pub fn recovered(source: Error, handle: H) -> (r: IntoLocalError<H>)
        ensures
            r == (IntoLocalError { source, handle }),
    {
        IntoLocalError { source, handle }
    }

    /// The handle, unharmed.
    pub fn into_handle(self) -> (r: H)
        ensures
            r == self.handle,
    {
        self.handle
    }

    /// The failure alone; the handle is let go.
    pub fn into_source(self) -> (r: Error)
        ensures
            r == self.source,
    {
        self.source
    }
}

impl<H> HandBack for IntoLocalError<H> {
    open spec fn spec_io(&self) -> Error {
        self.source
    }

    fn io(&self) -> (r: &Error) {
        &self.source
    }
}

} // verus!
