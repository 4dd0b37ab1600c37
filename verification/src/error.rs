//! The failures of the library, with the kind and the words of each.
use vstd::prelude::*;

verus! {

/// The class of a failure.
#[derive(Clone, Copy, Debug, PartialEq, Eq, Structural)]
pub enum ErrorKind {
    AlreadyExists,
    InvalidData,
    InvalidInput,
    NotFound,
    OutOfMemory,
    Unsupported,
    WouldBlock,
    Other,
}

/// A failure: one that the library raises, or one that came from a file.
#[derive(Clone, Copy, Debug, PartialEq, Eq, Structural)]
pub enum Error {
    /// A block offset plus a field offset does not fit in 64 bits.
    BlockOffsetOverflow,
    /// A counter would exceed 64 bits.
    RefcountOverflow,
    /// A counter would fall below zero.
    RefcountUnderflow,
    /// The eight bytes of a counter would end past 64 bits.
    RefcountOffsetOverflow,
    /// The log block's header claims an impossible size.
    CorruptWalCapacity,
    /// The allocator names no slot for the log block's offset.
    NoWalAnchor,
    /// A clone came back to a file that this thread is cloning already.
    CloneReentry,
    /// The ownership recursion passed its bound.
    TeardownTooDeep,
    /// No identity is left for another file.
    RegistryExhausted,
    /// The host is live under another identity.
    HostAttachedElsewhere,
    /// The registry was set up twice.
    RegistryAlreadyInitialized,
    /// The registry was used before it was set up.
    RegistryNotInitialized,
    /// A cross-file pointer leads to a file that is not open.
    ForeignNotAttached,
    /// A cross-file owner was handed to an allocator of another file.
    ForeignHomeMismatch,
    /// An owning element's file is not open, so that it cannot be cloned.
    CloneOwnedNotAttached,
    /// A strong element's file is not open, so that it cannot be cloned.
    CloneStrongNotAttached,
    /// A weak element's file is not open, so that it cannot be cloned.
    CloneWeakNotAttached,
    /// A cross-file pointer to be cloned names no possible file.
    CloneMalformedFile,
    /// The index lies outside the array.
    ArrayIndexOutOfBounds,
    /// The block is not of the type that was asked for.
    CastMismatch,
    /// The number of a variant is none that the enum has.
    InvalidDiscriminant,
    /// A counted block is shared, not copied.
    CloneCountedBlock,
    /// A counted enum is shared, not copied.
    CloneCountedEnum,
    /// Bytes that were asked for lie outside the file.
    OutOfRange,
    /// The space for a new block is used up.
    NoSpace,
    /// The range is not a block in use.
    NotAllocated,
    /// A failure of the file below; `ticket` says which.
    Outside { ticket: u64 },
}

impl Error {
    /// The class of this failure; `None` where only the file below knows.
    pub open spec fn spec_kind(self) -> Option<ErrorKind> {
        match self {
            Error::BlockOffsetOverflow
            | Error::RefcountOverflow
            | Error::RefcountUnderflow
            | Error::RefcountOffsetOverflow
            | Error::CorruptWalCapacity
            | Error::CloneMalformedFile
            | Error::InvalidDiscriminant
            | Error::CastMismatch => Some(ErrorKind::InvalidData),
            Error::CloneCountedBlock | Error::CloneCountedEnum => Some(ErrorKind::Unsupported),
            Error::NoWalAnchor | Error::TeardownTooDeep => Some(ErrorKind::Other),
            Error::CloneReentry => Some(ErrorKind::WouldBlock),
            Error::RegistryExhausted | Error::NoSpace => Some(ErrorKind::OutOfMemory),
            Error::HostAttachedElsewhere
            | Error::ForeignHomeMismatch
            | Error::ArrayIndexOutOfBounds
            | Error::OutOfRange
            | Error::NotAllocated => Some(ErrorKind::InvalidInput),
            Error::RegistryAlreadyInitialized => Some(ErrorKind::AlreadyExists),
            Error::RegistryNotInitialized
            | Error::ForeignNotAttached
            | Error::CloneOwnedNotAttached
            | Error::CloneStrongNotAttached
            | Error::CloneWeakNotAttached => Some(ErrorKind::NotFound),
            Error::Outside { ticket } => None,
        }
    }

    /// The class of this failure; `None` where only the file below knows.
    pub fn kind(&self) -> (r: Option<ErrorKind>)
        ensures
            r == self.spec_kind(),
    {
        match *self {
            Error::BlockOffsetOverflow
            | Error::RefcountOverflow
            | Error::RefcountUnderflow
            | Error::RefcountOffsetOverflow
            | Error::CorruptWalCapacity
            | Error::CloneMalformedFile
            | Error::InvalidDiscriminant
            | Error::CastMismatch => Some(ErrorKind::InvalidData),
            Error::CloneCountedBlock | Error::CloneCountedEnum => Some(ErrorKind::Unsupported),
            Error::NoWalAnchor | Error::TeardownTooDeep => Some(ErrorKind::Other),
            Error::CloneReentry => Some(ErrorKind::WouldBlock),
            Error::RegistryExhausted | Error::NoSpace => Some(ErrorKind::OutOfMemory),
            Error::HostAttachedElsewhere
            | Error::ForeignHomeMismatch
            | Error::ArrayIndexOutOfBounds
            | Error::OutOfRange
            | Error::NotAllocated => Some(ErrorKind::InvalidInput),
            Error::RegistryAlreadyInitialized => Some(ErrorKind::AlreadyExists),
            Error::RegistryNotInitialized
            | Error::ForeignNotAttached
            | Error::CloneOwnedNotAttached
            | Error::CloneStrongNotAttached
            | Error::CloneWeakNotAttached => Some(ErrorKind::NotFound),
            Error::Outside { ticket: _ } => None,
        }
    }

    /// The words for this failure.
    pub open spec fn spec_message(self) -> Seq<char> {
        match self {
            Error::BlockOffsetOverflow => "block offset overflow"@,
            Error::RefcountOverflow => "refcount overflow"@,
            Error::RefcountUnderflow => "refcount underflow"@,
            Error::RefcountOffsetOverflow => "refcount offset overflow"@,
            Error::CorruptWalCapacity =>
                "corrupt persistent WAL block: capacity/count out of range"@,
            Error::NoWalAnchor => "allocator names no WAL anchor slot"@,
            Error::CloneReentry =>
                "clone re-entered a file already being cloned on this thread (an owned cross-file cycle, or a `Foreign` that resolves to the home file); this would deadlock on the per-file WAL lock"@,
            Error::TeardownTooDeep =>
                "teardown recursion too deep (an owned-reference cycle?)"@,
            Error::RegistryExhausted => "file registry exhausted the ordinary id space"@,
            Error::HostAttachedElsewhere =>
                "attach: this host is already attached under a different FileId"@,
            Error::RegistryAlreadyInitialized => "file registry already initialized"@,
            Error::RegistryNotInitialized =>
                "file registry not initialized, init with `bstack_raii::registry::init` first"@,
            Error::ForeignNotAttached => "Foreign: target file not attached"@,
            Error::ForeignHomeMismatch =>
                "ForeignOwned::into_local: the pointer's home file is not the given target allocator's file"@,
            Error::CloneOwnedNotAttached =>
                "cannot clone `#[bstack_owned] Foreign<T>` element: target file not attached"@,
            Error::CloneStrongNotAttached =>
                "cannot clone `#[bstack_strong] Foreign<T>` element: target file not attached"@,
            Error::CloneWeakNotAttached =>
                "cannot clone `#[bstack_weak] Foreign<T>` element: target file not attached"@,
            Error::CloneMalformedFile => "cannot clone `Foreign<T>`: malformed file id"@,
            Error::ArrayIndexOutOfBounds => "array index out of bounds"@,
            Error::CastMismatch => "bstack_cast!: block tag/size is not the target type"@,
            Error::InvalidDiscriminant => "bstack_enum: invalid discriminant"@,
            Error::CloneCountedBlock =>
                "TryCloneIn: a reference-counted (`rc` / `rc, weak`) block is shared, not deep-cloned — duplicate its handle with `BStackRc::try_clone` (see the `TryClone` trait)"@,
            Error::CloneCountedEnum =>
                "TryCloneIn: a reference-counted (`rc` / `rc, weak`) enum block is shared, not deep-cloned — duplicate its handle with `BStackRc::try_clone` (see the `TryClone` trait)"@,
            Error::OutOfRange => "range lies outside the stack"@,
            Error::NoSpace => "the stack is full"@,
            Error::NotAllocated => "range is not an allocated block"@,
            Error::Outside { ticket } => "failure of the backing file"@,
        }
    }

    /// The words for this failure.
    pub fn message(&self) -> (r: &'static str)
        ensures
            r@ == self.spec_message(),
    {
        match *self {
            Error::BlockOffsetOverflow => "block offset overflow",
            Error::RefcountOverflow => "refcount overflow",
            Error::RefcountUnderflow => "refcount underflow",
            Error::RefcountOffsetOverflow => "refcount offset overflow",
            Error::CorruptWalCapacity =>
                "corrupt persistent WAL block: capacity/count out of range",
            Error::NoWalAnchor => "allocator names no WAL anchor slot",
            Error::CloneReentry =>
                "clone re-entered a file already being cloned on this thread (an owned cross-file cycle, or a `Foreign` that resolves to the home file); this would deadlock on the per-file WAL lock",
            Error::TeardownTooDeep => "teardown recursion too deep (an owned-reference cycle?)",
            Error::RegistryExhausted => "file registry exhausted the ordinary id space",
            Error::HostAttachedElsewhere =>
                "attach: this host is already attached under a different FileId",
            Error::RegistryAlreadyInitialized => "file registry already initialized",
            Error::RegistryNotInitialized =>
                "file registry not initialized, init with `bstack_raii::registry::init` first",
            Error::ForeignNotAttached => "Foreign: target file not attached",
            Error::ForeignHomeMismatch =>
                "ForeignOwned::into_local: the pointer's home file is not the given target allocator's file",
            Error::CloneOwnedNotAttached =>
                "cannot clone `#[bstack_owned] Foreign<T>` element: target file not attached",
            Error::CloneStrongNotAttached =>
                "cannot clone `#[bstack_strong] Foreign<T>` element: target file not attached",
            Error::CloneWeakNotAttached =>
                "cannot clone `#[bstack_weak] Foreign<T>` element: target file not attached",
            Error::CloneMalformedFile => "cannot clone `Foreign<T>`: malformed file id",
            Error::ArrayIndexOutOfBounds => "array index out of bounds",
            Error::CastMismatch => "bstack_cast!: block tag/size is not the target type",
            Error::InvalidDiscriminant => "bstack_enum: invalid discriminant",
            Error::CloneCountedBlock =>
                "TryCloneIn: a reference-counted (`rc` / `rc, weak`) block is shared, not deep-cloned — duplicate its handle with `BStackRc::try_clone` (see the `TryClone` trait)",
            Error::CloneCountedEnum =>
                "TryCloneIn: a reference-counted (`rc` / `rc, weak`) enum block is shared, not deep-cloned — duplicate its handle with `BStackRc::try_clone` (see the `TryClone` trait)",
            Error::OutOfRange => "range lies outside the stack",
            Error::NoSpace => "the stack is full",
            Error::NotAllocated => "range is not an allocated block",
            Error::Outside { ticket: _ } => "failure of the backing file",
        }
    }
}

} // verus!
