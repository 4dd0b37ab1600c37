//! Why a type cannot be made into a block.
use vstd::prelude::*;

use super::attr::Repr;

verus! {

/// A reason for which an attribute, a field or a type is refused.
#[derive(Clone, Copy, Debug, PartialEq, Eq, Structural)]
pub enum Problem {
    TooManyAnnotations,
    WeakWithoutRc,
    UnknownOption,
    /// What stands between the brackets is no list of arguments.
    BadArguments,
    /// It is longer, or has more signs, than is looked at.
    ArgumentsTooLong,
    NotAString,
    BadReprList,
    BadReprName,
    ReprOfPointerWidth,
    SameControlTag,
    BadAllowList,
    BadAllowName,
    ClassOfEnum,
    ClassVariable,
    DoubleOption,
    VecInVec,
    TupleInVec,
    OptionOfArray,
    TupleInClass,
    /// This discriminant is given to more than one variant.
    DuplicateDiscriminant(i128),
    DiscriminantOverflow,
    /// The discriminants, of which these are the least and the greatest, do not all fit in the
    /// integer type that was asked for.
    DiscriminantOutOfRange(Repr, i128, i128),
    NotAnIntegerLiteral,
    BadIntegerLiteral,
    EmbeddedForeign,
    UnannotatedForeign,
    ForeignToForeign,
    ForeignToOptionalForeign,
    ForeignToOption,
    ForeignToVec,
    ForeignToArray,
    ForeignToTuple,
    ForeignInClass,
    ForeignInOddPlace,
    NestedConstArray,
    GenericClass,
    GenericLifetime,
    GenericEnumParameter,
    GenericCounted,
    GenericCountedEnum,
    GenericBesideForeign,
    GenericBesideForeignVariant,
    GenericInlineVariant,
    GenericPodAndBlock,
    ReprOnStruct,
    MutableForeignContainer,
    MutableVariant,
    MutableCountedEnum,
    MutableEmbeddingEnum,
    NotACast,
    CastTargetNotAPath,
    CastToBorrowedSlice,
    CastWithoutTarget,
    MoveArguments,
}

impl Problem {
    /// The number under which the problem is documented; `0` where it has none.
    pub open spec fn spec_code(self) -> nat {
        match self {
            Problem::TooManyAnnotations => 1,
            Problem::WeakWithoutRc => 2,
            Problem::UnknownOption => 3,
            Problem::NotAString => 4,
            Problem::BadReprList => 5,
            Problem::BadReprName => 5,
            Problem::ReprOfPointerWidth => 6,
            Problem::SameControlTag => 6,
            Problem::BadAllowName => 7,
            Problem::ClassOfEnum => 9,
            Problem::ClassVariable => 10,
            Problem::DoubleOption => 101,
            Problem::VecInVec => 102,
            Problem::TupleInVec => 103,
            Problem::OptionOfArray => 104,
            Problem::TupleInClass => 112,
            Problem::DuplicateDiscriminant(_) => 201,
            Problem::DiscriminantOverflow => 202,
            Problem::DiscriminantOutOfRange(_, _, _) => 203,
            Problem::NotAnIntegerLiteral => 204,
            Problem::EmbeddedForeign => 301,
            Problem::UnannotatedForeign => 302,
            Problem::ForeignToForeign => 303,
            Problem::ForeignToOptionalForeign => 304,
            Problem::ForeignToOption => 305,
            Problem::ForeignToVec => 306,
            Problem::ForeignToArray => 307,
            Problem::ForeignToTuple => 308,
            Problem::ForeignInClass => 309,
            Problem::GenericCountedEnum => 402,
            Problem::GenericEnumParameter => 403,
            Problem::GenericBesideForeignVariant => 405,
            Problem::GenericInlineVariant => 406,
            Problem::NestedConstArray => 407,
            Problem::GenericClass => 408,
            Problem::MutableVariant => 603,
            Problem::MutableCountedEnum => 604,
            Problem::MutableEmbeddingEnum => 605,
            Problem::NotACast => 701,
            Problem::CastTargetNotAPath => 702,
            Problem::CastToBorrowedSlice => 703,
            Problem::CastWithoutTarget => 704,
            _ => 0,
        }
    }

    /// The number under which the problem is documented; `0` where it has none.
    pub fn code(&self) -> (r: u32)
        ensures
            r == self.spec_code(),
    {
        match *self {
            Problem::TooManyAnnotations => 1,
            Problem::WeakWithoutRc => 2,
            Problem::UnknownOption => 3,
            Problem::NotAString => 4,
            Problem::BadReprList => 5,
            Problem::BadReprName => 5,
            Problem::ReprOfPointerWidth => 6,
            Problem::SameControlTag => 6,
            Problem::BadAllowName => 7,
            Problem::ClassOfEnum => 9,
            Problem::ClassVariable => 10,
            Problem::DoubleOption => 101,
            Problem::VecInVec => 102,
            Problem::TupleInVec => 103,
            Problem::OptionOfArray => 104,
            Problem::TupleInClass => 112,
            Problem::DuplicateDiscriminant(_) => 201,
            Problem::DiscriminantOverflow => 202,
            Problem::DiscriminantOutOfRange(_, _, _) => 203,
            Problem::NotAnIntegerLiteral => 204,
            Problem::EmbeddedForeign => 301,
            Problem::UnannotatedForeign => 302,
            Problem::ForeignToForeign => 303,
            Problem::ForeignToOptionalForeign => 304,
            Problem::ForeignToOption => 305,
            Problem::ForeignToVec => 306,
            Problem::ForeignToArray => 307,
            Problem::ForeignToTuple => 308,
            Problem::ForeignInClass => 309,
            Problem::GenericCountedEnum => 402,
            Problem::GenericEnumParameter => 403,
            Problem::GenericBesideForeignVariant => 405,
            Problem::GenericInlineVariant => 406,
            Problem::NestedConstArray => 407,
            Problem::GenericClass => 408,
            Problem::MutableVariant => 603,
            Problem::MutableCountedEnum => 604,
            Problem::MutableEmbeddingEnum => 605,
            Problem::NotACast => 701,
            Problem::CastTargetNotAPath => 702,
            Problem::CastToBorrowedSlice => 703,
            Problem::CastWithoutTarget => 704,
            _ => 0,
        }
    }
}

} // verus!
