//! The words for each problem.
use vstd::prelude::*;
use vstd::string::StringExecFns;

use super::attr::{unknown_opt, Repr};
use super::disc::{all_digits, decimal};
use super::problem::Problem;

verus! {

/// The character for a decimal digit.
pub open spec fn digit(d: int) -> char {
    (48 + d) as u8 as char
}

/// A number in decimal digits, without leading zeros.
pub open spec fn shown_nat(n: nat) -> Seq<char>
    decreases n,
{
    if n < 10 {
        seq![digit(n as int)]
    } else {
        shown_nat(n / 10).push(digit((n % 10) as int))
    }
}

/// A number in decimal digits, with a `-` where it is negative.
pub open spec fn shown(n: int) -> Seq<char> {
    if n < 0 {
        seq!['-'] + shown_nat((-n) as nat)
    } else {
        shown_nat(n as nat)
    }
}

/// What is shown of a number are digits that spell it.
pub proof fn law_shown_number_reads_back(n: nat)
    ensures
        all_digits(shown_nat(n)),
        decimal(shown_nat(n)) == n,
    decreases n,
{
    if n < 10 {
        assert(shown_nat(n).drop_last() =~= Seq::empty());
        assert(decimal(Seq::empty()) == 0);
    } else {
        law_shown_number_reads_back(n / 10);
        assert(shown_nat(n).drop_last() =~= shown_nat(n / 10));
    }
}

fn show_nat(n: u128) -> (r: String)
    ensures
        r@ == shown_nat(n as nat),
    decreases n,
{
    let d: u8 = (n % 10) as u8;
    let c: char = (48 + d) as char;
    let mut out: String = if n < 10 {
        String::new()
    } else {
        show_nat(n / 10)
    };
    out.push(c);
    proof {
        if n < 10 {
            assert(out@ =~= shown_nat(n as nat));
        }
    }
    out
}

/// A number in decimal digits, with a `-` where it is negative.
pub fn show(n: i128) -> (r: String)
    ensures
        r@ == shown(n as int),
{
    if n < 0 {
        let low: u128 = (-(n + 1)) as u128;
        let digits = show_nat(low + 1);
        let mut out = "-".to_owned();
        proof {
            reveal_strlit("-");
            assert(out@ =~= seq!['-']);
        }
        out.append(digits.as_str());
        out
    } else {
        show_nat(n as u128)
    }
}

/// The name of an integer type.
pub open spec fn repr_text(repr: Repr) -> Seq<char> {
    match repr {
        Repr::U8 => "u8"@,
        Repr::U16 => "u16"@,
        Repr::U32 => "u32"@,
        Repr::U64 => "u64"@,
        Repr::I8 => "i8"@,
        Repr::I16 => "i16"@,
        Repr::I32 => "i32"@,
        Repr::I64 => "i64"@,
    }
}

/// The name of an integer type.
pub fn repr_name(repr: Repr) -> (r: &'static str)
    ensures
        r@ == repr_text(repr),
{
    match repr {
        Repr::U8 => "u8",
        Repr::U16 => "u16",
        Repr::U32 => "u32",
        Repr::U64 => "u64",
        Repr::I8 => "i8",
        Repr::I16 => "i16",
        Repr::I32 => "i32",
        Repr::I64 => "i64",
    }
}

fn own(text: &str) -> (r: String)
    ensures
        r@ == text@,
{
    text.to_owned()
}

fn glue(a: &str, b: &str, c: &str) -> (r: String)
    ensures
        r@ == a@ + b@ + c@,
        r@ == a@ + (b@ + c@),
{
    let mut out = a.to_owned();
    out.append(b);
    out.append(c);
    assert(a@ + b@ + c@ =~= a@ + (b@ + c@));
    out
}

impl Problem {
    /// The words for the problem; `what` names the field, or the form of pointer, that has it.
    pub open spec fn spec_message(self, what: Seq<char>) -> Seq<char> {
        match self {
            Problem::TooManyAnnotations =>
                "[BSTACK0001] at most one bstack ownership annotation is allowed here"@,
            Problem::WeakWithoutRc =>
                "[BSTACK0002] `weak` requires `rc` (use `rc, weak`)"@,
            Problem::UnknownOption =>
                "[BSTACK0003] expected `rc`, `weak`, `tag = \"...\"`, `ctrl_tag = \"...\"`, `allow(...)`, or (enums) `repr(...)`"@,
            Problem::BadArguments =>
                "expected a list of arguments, separated by commas"@,
            Problem::ArgumentsTooLong =>
                "the arguments are longer, or have more signs, than is looked at"@,
            Problem::NotAString =>
                "[BSTACK0004] expected a string literal"@,
            Problem::BadReprList =>
                "[BSTACK0005] expected `repr(u8|u16|u32|u64|i8|i16|i32|i64|aligned)`"@,
            Problem::BadReprName =>
                "[BSTACK0005] expected `u8|u16|u32|u64|i8|i16|i32|i64|aligned`"@,
            Problem::ReprOfPointerWidth =>
                "[BSTACK0006] `repr(usize)` / `repr(isize)` are not allowed — bstack offsets are 64-bit, so pick an explicit width (e.g. `repr(u64)`)"@,
            Problem::SameControlTag =>
                "[BSTACK0006] the explicit `ctrl_tag` equals the data tag — a control block would then pass every data-block identity check; choose a distinct `ctrl_tag` (or omit it to auto-derive one)"@,
            Problem::BadAllowList =>
                "expected a list of names in `allow(..)`"@,
            Problem::BadAllowName =>
                "[BSTACK0007] expected `overlong_tag`, `coerced_ref`, or `deprecated`"@,
            Problem::ClassOfEnum =>
                "[BSTACK0009] #[bstack_class] on an enum is not yet supported (enum RTTI is a later phase). Use #[bstack_enum] for the block machinery in the meantime."@,
            Problem::ClassVariable => "[BSTACK0010] "@ + what
                + ": `#[bstack_static]` class variables are not yet supported by #[bstack_class]"@,
            Problem::DoubleOption =>
                "[BSTACK0101] nested `Option<Option<T>>` is not supported: a field / `Vec` slot lowers a single `Option` to the absent/`0` niche, and a second layer has nowhere to live on disk. Model the states explicitly with a `#[bstack_enum]`, e.g. `enum Slot { Missing, Empty, Present(T) }`."@,
            Problem::VecInVec =>
                "[BSTACK0102] nested `Vec<Vec<T>>` / `Vec<String>` is not supported: a `Vec` field stores one inline descriptor whose elements are a single leaf (POD or a block reference), not another dynamically-sized region. Wrap the inner vector in an explicit `#[bstack_block]` struct and store `Vec<ThatStruct>` (annotating the element per its ownership)."@,
            Problem::TupleInVec =>
                "[BSTACK0103] a tuple is not supported as a `Vec` element: a `Vec` element must be a single leaf — POD, or a block reference — and a tuple (a POD one has no `Vec` layout, a `(ref, pod)` one cannot be split into offset + inline bytes) is neither. Wrap it in a named `#[bstack_block]` struct and store `Vec<ThatStruct>` (annotating each reference field inside it, leaving POD fields plain)."@,
            Problem::OptionOfArray =>
                "[BSTACK0104] `Option` wrapping a whole sub-array is not supported; move the `Option` onto the leaf element, e.g. `[[Option<T>; N]; M]`"@,
            Problem::TupleInClass => "[BSTACK0112] "@ + what
                + ": a tuple field is not yet supported by #[bstack_class]; wrap it in a named #[bstack_class] struct"@,
            Problem::DuplicateDiscriminant(value) => "[BSTACK0201] discriminant value `"@ + shown(
                value as int,
            ) + "` assigned more than once"@,
            Problem::DiscriminantOverflow =>
                "[BSTACK0202] #[bstack_enum] discriminant overflow"@,
            Problem::DiscriminantOutOfRange(repr, least, greatest) =>
                "[BSTACK0203] a discriminant value is out of range for `repr("@ + repr_text(repr)
                + (")` (values span "@ + shown(least as int) + ("..="@ + shown(greatest as int)
                + ")"@)),
            Problem::NotAnIntegerLiteral =>
                "[BSTACK0204] expected an integer literal discriminant"@,
            Problem::BadIntegerLiteral =>
                "number too large to fit in target type"@,
            Problem::EmbeddedForeign =>
                "[BSTACK0301] `Foreign<T>` is a pointer and cannot be `#[embed]`ed"@,
            Problem::UnannotatedForeign => "[BSTACK0302] "@ + what
                + " needs an ownership annotation naming the target's kind (`#[bstack_owned/strong/weak/ref]`); a bare foreign pointer targets a block"@,
            Problem::ForeignToForeign => "[BSTACK0303] "@ + what
                + ": a `Foreign` cannot point at another `Foreign` — a pointer to a pointer is not allowed. bridge it inside an explicit `#[bstack_block]` struct and point the `Foreign` at that struct. (A collection OF pointers such as `Vec<Foreign<T>>` / `[Foreign<T>; N]` IS allowed; it is a pointer TO a pointer/collection that is not.)"@,
            Problem::ForeignToOptionalForeign => "[BSTACK0304] "@ + what
                + ": `Foreign<Option<Foreign<T>>>` is a double `Foreign` (a pointer to a nullable pointer). bridge it inside an explicit `#[bstack_block]` struct and point the `Foreign` at that struct."@,
            Problem::ForeignToOption => "[BSTACK0305] "@ + what
                + ": use `Option<Foreign<T>>` for a nullable foreign pointer, not `Foreign<Option<T>>` — nullability belongs on the field/element, and a null element is a `Foreign` with offset 0, not a pointer to a nullable value."@,
            Problem::ForeignToVec => "[BSTACK0306] "@ + what
                + ": a `Foreign` target must be a `#[bstack_block]`, not a `Vec` / `String`. `Vec<Foreign<T>>` (a vector OF pointers) is allowed, but `Foreign<Vec<T>>` (a pointer TO a vector) is not — bridge it inside an explicit `#[bstack_block]` struct and point the `Foreign` at that struct."@,
            Problem::ForeignToArray => "[BSTACK0307] "@ + what
                + ": a `Foreign` target must be a `#[bstack_block]`, not an array. `[Foreign<T>; N]` (an array OF pointers) is allowed, but `Foreign<[T; N]>` is not — bridge it inside an explicit `#[bstack_block]` struct and point the `Foreign` at that struct."@,
            Problem::ForeignToTuple => "[BSTACK0308] "@ + what
                + ": a `Foreign` target must be a `#[bstack_block]`, not a tuple — bridge it inside an explicit `#[bstack_block]` struct and point the `Foreign` at that struct."@,
            Problem::ForeignInClass => "[BSTACK0309] "@ + what
                + ": `Foreign` is not yet supported by #[bstack_class] (cross-file RTTI is a later phase)"@,
            Problem::ForeignInOddPlace =>
                "`Foreign` is nested in an unsupported position (e.g. inside a tuple or another POD aggregate). It is supported as a scalar `Foreign<T>` / `Option<Foreign<T>>`, a `Vec<Foreign<T>>` / `Vec<Option<Foreign<T>>>`, or a `[Foreign<T>; N]` — anywhere else, wrap the `Foreign` inside a `#[bstack_block]` struct and use that."@,
            Problem::NestedConstArray =>
                "[BSTACK0407] a nested array `[[T; N]; M]` with a const-parameter dimension is not supported: its flattened length would be a const expression (`N * M`), which stable Rust forbids from using a generic parameter. Use a single `[T; N]`, or make the dimensions concrete."@,
            Problem::GenericClass =>
                "[BSTACK0408] a generic #[bstack_class] is not supported: RTTI needs a single concrete on-disk layout to describe. Use a concrete type, or #[bstack_block] without RTTI."@,
            Problem::GenericLifetime =>
                "a generic #[bstack_block] currently supports type and const parameters, not lifetimes"@,
            Problem::GenericEnumParameter =>
                "[BSTACK0403] a generic #[bstack_enum] currently supports only type parameters (no lifetime or const generics)"@,
            Problem::GenericCounted =>
                "a generic #[bstack_block] currently supports plain mode only (not `rc` / `rc, weak`)"@,
            Problem::GenericCountedEnum =>
                "[BSTACK0402] a generic #[bstack_enum] currently supports plain mode only (not `rc` / `rc, weak`)"@,
            Problem::GenericBesideForeign =>
                "a generic type parameter in a non-`Foreign` position of a field that also holds a `Foreign` is not supported; use concrete types for the non-foreign parts"@,
            Problem::GenericBesideForeignVariant =>
                "[BSTACK0405] a generic type parameter in a non-`Foreign` position of a `Foreign` variant is not supported; use concrete types for the non-foreign parts"@,
            Problem::GenericInlineVariant =>
                "[BSTACK0406] a generic type parameter in a `#[bstack_enum]` variant must be a reference (`#[bstack_owned]` / `#[bstack_strong]` / `#[bstack_weak]` / `#[bstack_ref]`), not stored inline — a POD or `#[embed]` variant's payload width would depend on the parameter"@,
            Problem::GenericPodAndBlock =>
                "a generic type parameter cannot be used both as a POD field and as a reference / embed field — a `Pod` value and a `#[bstack_block]` reference are different kinds of thing, with incompatible bounds"@,
            Problem::ReprOnStruct =>
                "`repr(..)` selects an enum discriminant width; it is only for #[bstack_enum]"@,
            Problem::MutableForeignContainer =>
                "#[bstack_mut] is not yet supported on `Foreign` inside a container or tuple (`Vec<Foreign>`, `[Foreign; N]`, a foreign tuple) — only a scalar `Foreign<T>` / `Option<Foreign<T>>` field is mutable"@,
            Problem::MutableVariant =>
                "[BSTACK0603] #[bstack_mut] on a `#[bstack_enum]` goes on the enum itself (a whole-value `set` / `replace`), not on a variant — a variant has no separately mutable field"@,
            Problem::MutableCountedEnum =>
                "[BSTACK0604] #[bstack_mut] on a `#[bstack_enum]` is only supported for a plain enum — a shared (`rc` / `rc, weak`) enum's refcount / control block can't be overwritten in place; rebuild the value instead"@,
            Problem::MutableEmbeddingEnum =>
                "[BSTACK0605] #[bstack_mut] is not yet supported on a `#[bstack_enum]` with an `#[embed]` variant"@,
            Problem::NotACast =>
                "[BSTACK0701] bstack_cast! expects `expr as Target` (e.g. `bstack_cast!(slice as BStackOwned<X, _>)`)"@,
            Problem::CastTargetNotAPath =>
                "[BSTACK0702] bstack_cast!: target must be a type path"@,
            Problem::CastToBorrowedSlice =>
                "[BSTACK0703] bstack_cast! can't build a borrowed slice (it needs a stack); use `handle.as_slice(stack)` instead"@,
            Problem::CastWithoutTarget =>
                "[BSTACK0704] expected `BStackOwned<BlockType, _>` for an owned downcast"@,
            Problem::MoveArguments =>
                "bstack_move! takes `handle` or `owned, allocator`"@,
        }
    }

    /// The words for the problem; `what` names the field, or the form of pointer, that has it.
    pub fn message(&self, what: &str) -> (r: String)
        ensures
            r@ == self.spec_message(what@),
    {
        match *self {
            Problem::TooManyAnnotations => own(
                "[BSTACK0001] at most one bstack ownership annotation is allowed here",
            ),
            Problem::WeakWithoutRc => own(
                "[BSTACK0002] `weak` requires `rc` (use `rc, weak`)",
            ),
            Problem::UnknownOption => own(unknown_opt()),
            Problem::BadArguments => own(
                "expected a list of arguments, separated by commas",
            ),
            Problem::ArgumentsTooLong => own(
                "the arguments are longer, or have more signs, than is looked at",
            ),
            Problem::NotAString => own(
                "[BSTACK0004] expected a string literal",
            ),
            Problem::BadReprList => own(
                "[BSTACK0005] expected `repr(u8|u16|u32|u64|i8|i16|i32|i64|aligned)`",
            ),
            Problem::BadReprName => own(
                "[BSTACK0005] expected `u8|u16|u32|u64|i8|i16|i32|i64|aligned`",
            ),
            Problem::ReprOfPointerWidth => own(
                "[BSTACK0006] `repr(usize)` / `repr(isize)` are not allowed — bstack offsets are 64-bit, so pick an explicit width (e.g. `repr(u64)`)",
            ),
            Problem::SameControlTag => own(
                "[BSTACK0006] the explicit `ctrl_tag` equals the data tag — a control block would then pass every data-block identity check; choose a distinct `ctrl_tag` (or omit it to auto-derive one)",
            ),
            Problem::BadAllowList => own(
                "expected a list of names in `allow(..)`",
            ),
            Problem::BadAllowName => own(
                "[BSTACK0007] expected `overlong_tag`, `coerced_ref`, or `deprecated`",
            ),
            Problem::ClassOfEnum => own(
                "[BSTACK0009] #[bstack_class] on an enum is not yet supported (enum RTTI is a later phase). Use #[bstack_enum] for the block machinery in the meantime.",
            ),
            Problem::ClassVariable => glue(
                "[BSTACK0010] ",
                what,
                ": `#[bstack_static]` class variables are not yet supported by #[bstack_class]",
            ),
            Problem::DoubleOption => own(
                "[BSTACK0101] nested `Option<Option<T>>` is not supported: a field / `Vec` slot lowers a single `Option` to the absent/`0` niche, and a second layer has nowhere to live on disk. Model the states explicitly with a `#[bstack_enum]`, e.g. `enum Slot { Missing, Empty, Present(T) }`.",
            ),
            Problem::VecInVec => own(
                "[BSTACK0102] nested `Vec<Vec<T>>` / `Vec<String>` is not supported: a `Vec` field stores one inline descriptor whose elements are a single leaf (POD or a block reference), not another dynamically-sized region. Wrap the inner vector in an explicit `#[bstack_block]` struct and store `Vec<ThatStruct>` (annotating the element per its ownership).",
            ),
            Problem::TupleInVec => own(
                "[BSTACK0103] a tuple is not supported as a `Vec` element: a `Vec` element must be a single leaf — POD, or a block reference — and a tuple (a POD one has no `Vec` layout, a `(ref, pod)` one cannot be split into offset + inline bytes) is neither. Wrap it in a named `#[bstack_block]` struct and store `Vec<ThatStruct>` (annotating each reference field inside it, leaving POD fields plain).",
            ),
            Problem::OptionOfArray => own(
                "[BSTACK0104] `Option` wrapping a whole sub-array is not supported; move the `Option` onto the leaf element, e.g. `[[Option<T>; N]; M]`",
            ),
            Problem::TupleInClass => glue(
                "[BSTACK0112] ",
                what,
                ": a tuple field is not yet supported by #[bstack_class]; wrap it in a named #[bstack_class] struct",
            ),
            Problem::DuplicateDiscriminant(value) => glue(
                "[BSTACK0201] discriminant value `",
                show(value).as_str(),
                "` assigned more than once",
            ),
            Problem::DiscriminantOverflow => own(
                "[BSTACK0202] #[bstack_enum] discriminant overflow",
            ),
            Problem::DiscriminantOutOfRange(repr, least, greatest) => {
                let to = glue("..=", show(greatest).as_str(), ")");
                let span = glue(")` (values span ", show(least).as_str(), to.as_str());
                glue(
                    "[BSTACK0203] a discriminant value is out of range for `repr(",
                    repr_name(repr),
                    span.as_str(),
                )
            },
            Problem::NotAnIntegerLiteral => own(
                "[BSTACK0204] expected an integer literal discriminant",
            ),
            Problem::BadIntegerLiteral => own(
                "number too large to fit in target type",
            ),
            Problem::EmbeddedForeign => own(
                "[BSTACK0301] `Foreign<T>` is a pointer and cannot be `#[embed]`ed",
            ),
            Problem::UnannotatedForeign => glue(
                "[BSTACK0302] ",
                what,
                " needs an ownership annotation naming the target's kind (`#[bstack_owned/strong/weak/ref]`); a bare foreign pointer targets a block",
            ),
            Problem::ForeignToForeign => glue(
                "[BSTACK0303] ",
                what,
                ": a `Foreign` cannot point at another `Foreign` — a pointer to a pointer is not allowed. bridge it inside an explicit `#[bstack_block]` struct and point the `Foreign` at that struct. (A collection OF pointers such as `Vec<Foreign<T>>` / `[Foreign<T>; N]` IS allowed; it is a pointer TO a pointer/collection that is not.)",
            ),
            Problem::ForeignToOptionalForeign => glue(
                "[BSTACK0304] ",
                what,
                ": `Foreign<Option<Foreign<T>>>` is a double `Foreign` (a pointer to a nullable pointer). bridge it inside an explicit `#[bstack_block]` struct and point the `Foreign` at that struct.",
            ),
            Problem::ForeignToOption => glue(
                "[BSTACK0305] ",
                what,
                ": use `Option<Foreign<T>>` for a nullable foreign pointer, not `Foreign<Option<T>>` — nullability belongs on the field/element, and a null element is a `Foreign` with offset 0, not a pointer to a nullable value.",
            ),
            Problem::ForeignToVec => glue(
                "[BSTACK0306] ",
                what,
                ": a `Foreign` target must be a `#[bstack_block]`, not a `Vec` / `String`. `Vec<Foreign<T>>` (a vector OF pointers) is allowed, but `Foreign<Vec<T>>` (a pointer TO a vector) is not — bridge it inside an explicit `#[bstack_block]` struct and point the `Foreign` at that struct.",
            ),
            Problem::ForeignToArray => glue(
                "[BSTACK0307] ",
                what,
                ": a `Foreign` target must be a `#[bstack_block]`, not an array. `[Foreign<T>; N]` (an array OF pointers) is allowed, but `Foreign<[T; N]>` is not — bridge it inside an explicit `#[bstack_block]` struct and point the `Foreign` at that struct.",
            ),
            Problem::ForeignToTuple => glue(
                "[BSTACK0308] ",
                what,
                ": a `Foreign` target must be a `#[bstack_block]`, not a tuple — bridge it inside an explicit `#[bstack_block]` struct and point the `Foreign` at that struct.",
            ),
            Problem::ForeignInClass => glue(
                "[BSTACK0309] ",
                what,
                ": `Foreign` is not yet supported by #[bstack_class] (cross-file RTTI is a later phase)",
            ),
            Problem::ForeignInOddPlace => own(
                "`Foreign` is nested in an unsupported position (e.g. inside a tuple or another POD aggregate). It is supported as a scalar `Foreign<T>` / `Option<Foreign<T>>`, a `Vec<Foreign<T>>` / `Vec<Option<Foreign<T>>>`, or a `[Foreign<T>; N]` — anywhere else, wrap the `Foreign` inside a `#[bstack_block]` struct and use that.",
            ),
            Problem::NestedConstArray => own(
                "[BSTACK0407] a nested array `[[T; N]; M]` with a const-parameter dimension is not supported: its flattened length would be a const expression (`N * M`), which stable Rust forbids from using a generic parameter. Use a single `[T; N]`, or make the dimensions concrete.",
            ),
            Problem::GenericClass => own(
                "[BSTACK0408] a generic #[bstack_class] is not supported: RTTI needs a single concrete on-disk layout to describe. Use a concrete type, or #[bstack_block] without RTTI.",
            ),
            Problem::GenericLifetime => own(
                "a generic #[bstack_block] currently supports type and const parameters, not lifetimes",
            ),
            Problem::GenericEnumParameter => own(
                "[BSTACK0403] a generic #[bstack_enum] currently supports only type parameters (no lifetime or const generics)",
            ),
            Problem::GenericCounted => own(
                "a generic #[bstack_block] currently supports plain mode only (not `rc` / `rc, weak`)",
            ),
            Problem::GenericCountedEnum => own(
                "[BSTACK0402] a generic #[bstack_enum] currently supports plain mode only (not `rc` / `rc, weak`)",
            ),
            Problem::GenericBesideForeign => own(
                "a generic type parameter in a non-`Foreign` position of a field that also holds a `Foreign` is not supported; use concrete types for the non-foreign parts",
            ),
            Problem::GenericBesideForeignVariant => own(
                "[BSTACK0405] a generic type parameter in a non-`Foreign` position of a `Foreign` variant is not supported; use concrete types for the non-foreign parts",
            ),
            Problem::GenericInlineVariant => own(
                "[BSTACK0406] a generic type parameter in a `#[bstack_enum]` variant must be a reference (`#[bstack_owned]` / `#[bstack_strong]` / `#[bstack_weak]` / `#[bstack_ref]`), not stored inline — a POD or `#[embed]` variant's payload width would depend on the parameter",
            ),
            Problem::GenericPodAndBlock => own(
                "a generic type parameter cannot be used both as a POD field and as a reference / embed field — a `Pod` value and a `#[bstack_block]` reference are different kinds of thing, with incompatible bounds",
            ),
            Problem::ReprOnStruct => own(
                "`repr(..)` selects an enum discriminant width; it is only for #[bstack_enum]",
            ),
            Problem::MutableForeignContainer => own(
                "#[bstack_mut] is not yet supported on `Foreign` inside a container or tuple (`Vec<Foreign>`, `[Foreign; N]`, a foreign tuple) — only a scalar `Foreign<T>` / `Option<Foreign<T>>` field is mutable",
            ),
            Problem::MutableVariant => own(
                "[BSTACK0603] #[bstack_mut] on a `#[bstack_enum]` goes on the enum itself (a whole-value `set` / `replace`), not on a variant — a variant has no separately mutable field",
            ),
            Problem::MutableCountedEnum => own(
                "[BSTACK0604] #[bstack_mut] on a `#[bstack_enum]` is only supported for a plain enum — a shared (`rc` / `rc, weak`) enum's refcount / control block can't be overwritten in place; rebuild the value instead",
            ),
            Problem::MutableEmbeddingEnum => own(
                "[BSTACK0605] #[bstack_mut] is not yet supported on a `#[bstack_enum]` with an `#[embed]` variant",
            ),
            Problem::NotACast => own(
                "[BSTACK0701] bstack_cast! expects `expr as Target` (e.g. `bstack_cast!(slice as BStackOwned<X, _>)`)",
            ),
            Problem::CastTargetNotAPath => own(
                "[BSTACK0702] bstack_cast!: target must be a type path",
            ),
            Problem::CastToBorrowedSlice => own(
                "[BSTACK0703] bstack_cast! can't build a borrowed slice (it needs a stack); use `handle.as_slice(stack)` instead",
            ),
            Problem::CastWithoutTarget => own(
                "[BSTACK0704] expected `BStackOwned<BlockType, _>` for an owned downcast",
            ),
            Problem::MoveArguments => own(
                "bstack_move! takes `handle` or `owned, allocator`",
            ),
        }
    }
}

} // verus!
