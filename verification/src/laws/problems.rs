//! Problems: each is documented under its number, and says it.
use vstd::prelude::*;

use crate::derive::problem::Problem;

verus! {

/// Whether a text starts with this number, in four digits and in brackets.
pub open spec fn says_number(text: Seq<char>, n: int) -> bool {
    &&& text.len() > 12
    &&& text[0] == '['
    &&& text[7] as int - '0' as int == n / 1000
    &&& text[8] as int - '0' as int == n / 100 % 10
    &&& text[9] as int - '0' as int == n / 10 % 10
    &&& text[10] as int - '0' as int == n % 10
    &&& text[11] == ']'
}

/// A problem that is documented under a number says that number first.
pub proof fn law_a_problem_says_its_number(p: Problem, what: &str, code: u32, r: String)
    requires
        call_ensures(Problem::code, (&p,), code),
        call_ensures(Problem::message, (&p, what), r),
    ensures
        code != 0 ==> says_number(r@, code as int),
{
    match p {
        Problem::TooManyAnnotations => {
            reveal_strlit(
                "[BSTACK0001] at most one bstack ownership annotation is allowed here",
            );
        },
        Problem::WeakWithoutRc => {
            reveal_strlit(
                "[BSTACK0002] `weak` requires `rc` (use `rc, weak`)",
            );
        },
        Problem::UnknownOption => {
            reveal_strlit(
                "[BSTACK0003] expected `rc`, `weak`, `tag = \"...\"`, `ctrl_tag = \"...\"`, `allow(...)`, or (enums) `repr(...)`",
            );
        },
        Problem::NotAString => {
            reveal_strlit(
                "[BSTACK0004] expected a string literal",
            );
        },
        Problem::BadReprList => {
            reveal_strlit(
                "[BSTACK0005] expected `repr(u8|u16|u32|u64|i8|i16|i32|i64|aligned)`",
            );
        },
        Problem::BadReprName => {
            reveal_strlit(
                "[BSTACK0005] expected `u8|u16|u32|u64|i8|i16|i32|i64|aligned`",
            );
        },
        Problem::ReprOfPointerWidth => {
            reveal_strlit(
                "[BSTACK0006] `repr(usize)` / `repr(isize)` are not allowed — bstack offsets are 64-bit, so pick an explicit width (e.g. `repr(u64)`)",
            );
        },
        Problem::SameControlTag => {
            reveal_strlit(
                "[BSTACK0006] the explicit `ctrl_tag` equals the data tag — a control block would then pass every data-block identity check; choose a distinct `ctrl_tag` (or omit it to auto-derive one)",
            );
        },
        Problem::BadAllowName => {
            reveal_strlit(
                "[BSTACK0007] expected `overlong_tag`, `coerced_ref`, or `deprecated`",
            );
        },
        Problem::ClassOfEnum => {
            reveal_strlit(
                "[BSTACK0009] #[bstack_class] on an enum is not yet supported (enum RTTI is a later phase). Use #[bstack_enum] for the block machinery in the meantime.",
            );
        },
        Problem::ClassVariable => {
            reveal_strlit(
                "[BSTACK0010] ",
            );
        },
        Problem::DoubleOption => {
            reveal_strlit(
                "[BSTACK0101] nested `Option<Option<T>>` is not supported: a field / `Vec` slot lowers a single `Option` to the absent/`0` niche, and a second layer has nowhere to live on disk. Model the states explicitly with a `#[bstack_enum]`, e.g. `enum Slot { Missing, Empty, Present(T) }`.",
            );
        },
        Problem::VecInVec => {
            reveal_strlit(
                "[BSTACK0102] nested `Vec<Vec<T>>` / `Vec<String>` is not supported: a `Vec` field stores one inline descriptor whose elements are a single leaf (POD or a block reference), not another dynamically-sized region. Wrap the inner vector in an explicit `#[bstack_block]` struct and store `Vec<ThatStruct>` (annotating the element per its ownership).",
            );
        },
        Problem::TupleInVec => {
            reveal_strlit(
                "[BSTACK0103] a tuple is not supported as a `Vec` element: a `Vec` element must be a single leaf — POD, or a block reference — and a tuple (a POD one has no `Vec` layout, a `(ref, pod)` one cannot be split into offset + inline bytes) is neither. Wrap it in a named `#[bstack_block]` struct and store `Vec<ThatStruct>` (annotating each reference field inside it, leaving POD fields plain).",
            );
        },
        Problem::OptionOfArray => {
            reveal_strlit(
                "[BSTACK0104] `Option` wrapping a whole sub-array is not supported; move the `Option` onto the leaf element, e.g. `[[Option<T>; N]; M]`",
            );
        },
        Problem::TupleInClass => {
            reveal_strlit(
                "[BSTACK0112] ",
            );
        },
        Problem::DuplicateDiscriminant(_) => {
            reveal_strlit(
                "[BSTACK0201] discriminant value `",
            );
        },
        Problem::DiscriminantOverflow => {
            reveal_strlit(
                "[BSTACK0202] #[bstack_enum] discriminant overflow",
            );
        },
        Problem::DiscriminantOutOfRange(_, _, _) => {
            reveal_strlit(
                "[BSTACK0203] a discriminant value is out of range for `repr(",
            );
        },
        Problem::NotAnIntegerLiteral => {
            reveal_strlit(
                "[BSTACK0204] expected an integer literal discriminant",
            );
        },
        Problem::EmbeddedForeign => {
            reveal_strlit(
                "[BSTACK0301] `Foreign<T>` is a pointer and cannot be `#[embed]`ed",
            );
        },
        Problem::UnannotatedForeign => {
            reveal_strlit(
                "[BSTACK0302] ",
            );
        },
        Problem::ForeignToForeign => {
            reveal_strlit(
                "[BSTACK0303] ",
            );
        },
        Problem::ForeignToOptionalForeign => {
            reveal_strlit(
                "[BSTACK0304] ",
            );
        },
        Problem::ForeignToOption => {
            reveal_strlit(
                "[BSTACK0305] ",
            );
        },
        Problem::ForeignToVec => {
            reveal_strlit(
                "[BSTACK0306] ",
            );
        },
        Problem::ForeignToArray => {
            reveal_strlit(
                "[BSTACK0307] ",
            );
        },
        Problem::ForeignToTuple => {
            reveal_strlit(
                "[BSTACK0308] ",
            );
        },
        Problem::ForeignInClass => {
            reveal_strlit(
                "[BSTACK0309] ",
            );
        },
        Problem::NestedConstArray => {
            reveal_strlit(
                "[BSTACK0407] a nested array `[[T; N]; M]` with a const-parameter dimension is not supported: its flattened length would be a const expression (`N * M`), which stable Rust forbids from using a generic parameter. Use a single `[T; N]`, or make the dimensions concrete.",
            );
        },
        Problem::GenericClass => {
            reveal_strlit(
                "[BSTACK0408] a generic #[bstack_class] is not supported: RTTI needs a single concrete on-disk layout to describe. Use a concrete type, or #[bstack_block] without RTTI.",
            );
        },
        Problem::GenericEnumParameter => {
            reveal_strlit(
                "[BSTACK0403] a generic #[bstack_enum] currently supports only type parameters (no lifetime or const generics)",
            );
        },
        Problem::GenericCountedEnum => {
            reveal_strlit(
                "[BSTACK0402] a generic #[bstack_enum] currently supports plain mode only (not `rc` / `rc, weak`)",
            );
        },
        Problem::GenericBesideForeignVariant => {
            reveal_strlit(
                "[BSTACK0405] a generic type parameter in a non-`Foreign` position of a `Foreign` variant is not supported; use concrete types for the non-foreign parts",
            );
        },
        Problem::GenericInlineVariant => {
            reveal_strlit(
                "[BSTACK0406] a generic type parameter in a `#[bstack_enum]` variant must be a reference (`#[bstack_owned]` / `#[bstack_strong]` / `#[bstack_weak]` / `#[bstack_ref]`), not stored inline — a POD or `#[embed]` variant's payload width would depend on the parameter",
            );
        },
        Problem::MutableVariant => {
            reveal_strlit(
                "[BSTACK0603] #[bstack_mut] on a `#[bstack_enum]` goes on the enum itself (a whole-value `set` / `replace`), not on a variant — a variant has no separately mutable field",
            );
        },
        Problem::MutableCountedEnum => {
            reveal_strlit(
                "[BSTACK0604] #[bstack_mut] on a `#[bstack_enum]` is only supported for a plain enum — a shared (`rc` / `rc, weak`) enum's refcount / control block can't be overwritten in place; rebuild the value instead",
            );
        },
        Problem::MutableEmbeddingEnum => {
            reveal_strlit(
                "[BSTACK0605] #[bstack_mut] is not yet supported on a `#[bstack_enum]` with an `#[embed]` variant",
            );
        },
        Problem::NotACast => {
            reveal_strlit(
                "[BSTACK0701] bstack_cast! expects `expr as Target` (e.g. `bstack_cast!(slice as BStackOwned<X, _>)`)",
            );
        },
        Problem::CastTargetNotAPath => {
            reveal_strlit(
                "[BSTACK0702] bstack_cast!: target must be a type path",
            );
        },
        Problem::CastToBorrowedSlice => {
            reveal_strlit(
                "[BSTACK0703] bstack_cast! can't build a borrowed slice (it needs a stack); use `handle.as_slice(stack)` instead",
            );
        },
        Problem::CastWithoutTarget => {
            reveal_strlit(
                "[BSTACK0704] expected `BStackOwned<BlockType, _>` for an owned downcast",
            );
        },
        _ => {},
    }
}

/// Problems that are documented under one number are the same, but for two pairs that are: what is
/// no integer type, and what would be taken for something else.
pub proof fn law_problems_are_told_apart_by_number(p: Problem, q: Problem, n: u32)
    requires
        call_ensures(Problem::code, (&p,), n),
        call_ensures(Problem::code, (&q,), n),
        n != 0,
        n != 5,
        n != 6,
    ensures
        match (p, q) {
            (Problem::DuplicateDiscriminant(_), Problem::DuplicateDiscriminant(_)) => true,
            (
                Problem::DiscriminantOutOfRange(_, _, _),
                Problem::DiscriminantOutOfRange(_, _, _),
            ) => true,
            _ => p == q,
        },
{
}

/// The hundreds of a number say what a problem is about: how types nest, numbers of variants,
/// pointers to other files, parameters, change in place, and casts.
pub proof fn law_the_hundreds_say_what_it_is_about(p: Problem, n: u32)
    requires
        call_ensures(Problem::code, (&p,), n),
    ensures
        n / 100 == 1 <==> p is DoubleOption || p is VecInVec || p is TupleInVec || p
            is OptionOfArray || p is TupleInClass,
        n / 100 == 2 <==> p is DuplicateDiscriminant || p is DiscriminantOverflow || p
            is DiscriminantOutOfRange || p is NotAnIntegerLiteral,
        n / 100 == 3 <==> p is EmbeddedForeign || p is UnannotatedForeign || p is ForeignToForeign
            || p is ForeignToOptionalForeign || p is ForeignToOption || p is ForeignToVec || p
            is ForeignToArray || p is ForeignToTuple || p is ForeignInClass,
        n / 100 == 4 <==> p is GenericCountedEnum || p is GenericEnumParameter || p
            is GenericBesideForeignVariant || p is GenericInlineVariant || p is NestedConstArray
            || p is GenericClass,
        n / 100 == 6 <==> p is MutableVariant || p is MutableCountedEnum || p
            is MutableEmbeddingEnum,
        n / 100 == 7 <==> p is NotACast || p is CastTargetNotAPath || p is CastToBorrowedSlice || p
            is CastWithoutTarget,
{
}

} // verus!
