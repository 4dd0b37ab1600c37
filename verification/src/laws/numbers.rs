//! The numbers of variants: each its own or one more than the last, none twice, in a type that
//! holds them.
use vstd::prelude::*;

use crate::derive::attr::{parse_repr, Repr};
use crate::derive::disc::{
    all_digits, assigned, decimal, discriminants, discriminants_of, greatest, int_bounds, is_digit,
    least, parse_disc_expr, payload_size, said_by, DiscExpr, Discriminants,
};
use crate::derive::problem::Problem;

verus! {

/// Whether these are the numbers of variants that say this: each that says one has that one, each
/// that says nothing has one more than the one before it, the first zero; and none occurs twice.
pub open spec fn are_numbers(
    said: Seq<Option<Result<i128, Problem>>>,
    values: Seq<i128>,
) -> bool {
    &&& values.len() == said.len()
    &&& forall|k: int| 0 <= k < said.len() ==> #[trigger] is_number(said, values, k)
    &&& forall|j: int, k: int|
        0 <= j < k < values.len() ==> #[trigger] values[j] != #[trigger] values[k]
}

/// Whether variant number `k` has the number that it says, or the next one.
pub open spec fn is_number(
    said: Seq<Option<Result<i128, Problem>>>,
    values: Seq<i128>,
    k: int,
) -> bool {
    &&& values[k] < i128::MAX
    &&& match said[k] {
        Some(Ok(v)) => values[k] == v,
        Some(Err(_)) => false,
        None => if k == 0 {
            values[k] == 0
        } else {
            values[k] == values[k - 1] + 1
        },
    }
}

proof fn lemma_numbers_are_assigned(
    said: Seq<Option<Result<i128, Problem>>>,
    values: Seq<i128>,
)
    requires
        are_numbers(said, values),
    ensures
        assigned(said) == Ok::<Seq<i128>, Problem>(values),
    decreases said.len(),
{
    if said.len() == 0 {
        assert(values =~= Seq::empty());
    } else {
        let n = said.len() - 1;
        let init = said.drop_last();
        let early = values.drop_last();
        assert forall|k: int| 0 <= k < init.len() implies #[trigger] is_number(
            init,
            early,
            k,
        ) by {
            assert(is_number(said, values, k));
        }
        lemma_numbers_are_assigned(init, early);
        assert(is_number(said, values, n));
        assert(!early.contains(values[n])) by {
            if early.contains(values[n]) {
                let j = early.index_of(values[n]);
                assert(values[j] == values[n]);
            }
        }
        assert(early.push(values[n]) =~= values);
    }
}

proof fn lemma_assigned_are_numbers(said: Seq<Option<Result<i128, Problem>>>)
    requires
        assigned(said) is Ok,
    ensures
        are_numbers(said, assigned(said)->Ok_0),
    decreases said.len(),
{
    if said.len() > 0 {
        let n = said.len() - 1;
        let init = said.drop_last();
        lemma_assigned_are_numbers(init);
        let early = assigned(init)->Ok_0;
        let values = assigned(said)->Ok_0;
        assert forall|k: int| 0 <= k < said.len() implies #[trigger] is_number(
            said,
            values,
            k,
        ) by {
            if k < n {
                assert(is_number(init, early, k));
            } else if n > 0 {
                assert(is_number(init, early, n - 1));
            }
        }
        assert forall|j: int, k: int|
            0 <= j < k < values.len() implies #[trigger] values[j] != #[trigger] values[k] by {
            if k < n {
                assert(early[j] != early[k]);
            } else {
                assert(early[j] == values[j]);
                assert(early.contains(early[j]));
            }
        }
    }
}

/// Whether an integer type has this value.
pub open spec fn has_value(ty: Repr, v: int) -> bool {
    match ty {
        Repr::U8 => 0 <= v <= u8::MAX,
        Repr::U16 => 0 <= v <= u16::MAX,
        Repr::U32 => 0 <= v <= u32::MAX,
        Repr::U64 => 0 <= v <= u64::MAX,
        Repr::I8 => i8::MIN <= v <= i8::MAX,
        Repr::I16 => i16::MIN <= v <= i16::MAX,
        Repr::I32 => i32::MIN <= v <= i32::MAX,
        Repr::I64 => i64::MIN <= v <= i64::MAX,
    }
}

/// Whether an integer type has all these values.
pub open spec fn has_all(ty: Repr, values: Seq<i128>) -> bool {
    forall|k: int| 0 <= k < values.len() ==> has_value(ty, #[trigger] values[k] as int)
}

/// Whether an integer type has negative values.
pub open spec fn has_sign(ty: Repr) -> bool {
    has_value(ty, -1)
}

/// Whether the second type has every value of the first.
pub open spec fn is_no_wider(a: Repr, b: Repr) -> bool {
    forall|v: int| #[trigger] has_value(a, v) ==> has_value(b, v)
}

/// Whether some value is negative.
pub open spec fn any_negative(values: Seq<i128>) -> bool {
    exists|k: int| 0 <= k < values.len() && #[trigger] values[k] < 0
}

proof fn lemma_span(values: Seq<i128>)
    ensures
        forall|k: int|
            0 <= k < values.len() ==> least(values) <= #[trigger] values[k] <= greatest(values),
        values.len() > 0 ==> values.contains(least(values) as i128) && values.contains(
            greatest(values) as i128,
        ) && i128::MIN <= least(values) && greatest(values) <= i128::MAX,
        values.len() == 0 ==> least(values) == 0 && greatest(values) == 0,
    decreases values.len(),
{
    if values.len() > 0 {
        let init = values.drop_last();
        lemma_span(init);
        assert(values[values.len() - 1] == values.last());
        assert forall|k: int| 0 <= k < values.len() implies least(values) <= #[trigger] values[k]
            <= greatest(values) by {
            if k < init.len() {
                assert(init[k] == values[k]);
            }
        }
        if init.len() > 0 {
            let i = init.index_of(least(init) as i128);
            let j = init.index_of(greatest(init) as i128);
            assert(values[i] == least(init));
            assert(values[j] == greatest(init));
        }
    }
}

proof fn lemma_fits(ty: Repr, values: Seq<i128>)
    ensures
        crate::derive::disc::holds(ty, least(values), greatest(values)) <==> has_all(ty, values),
{
    lemma_span(values);
    if values.len() > 0 && has_all(ty, values) {
        let i = values.index_of(least(values) as i128);
        let j = values.index_of(greatest(values) as i128);
        assert(has_value(ty, values[i] as int));
        assert(has_value(ty, values[j] as int));
    }
}

/// Variants are numbered as they say, and else in turn, in a type that has all the numbers: the
/// one that was asked for, or a narrow one that has a sign only where a number is negative. Where
/// there is no such numbering there is a problem, and only there.
pub proof fn law_variants_are_numbered_in_turn(
    said: &Vec<Option<Result<i128, Problem>>>,
    repr: Option<Repr>,
    r: Result<Discriminants, Problem>,
    other: Seq<i128>,
    ty: Repr,
)
    requires
        call_ensures(discriminants_of, (said, repr), r),
    ensures
        r matches Ok(d) ==> {
            &&& are_numbers(said@, d.values@)
            &&& repr matches Some(t) ==> d.ty == t && has_all(t, d.values@)
            &&& repr is None ==> has_sign(d.ty) == any_negative(d.values@)
            &&& repr is None && has_sign(ty) == any_negative(d.values@) && has_all(ty, d.values@)
                ==> has_all(d.ty, d.values@) && is_no_wider(d.ty, ty)
        },
        are_numbers(said@, other) && (repr matches Some(t) ==> has_all(t, other)) ==> (r matches Ok(
            d,
        ) && d.values@ == other),
{
    lemma_span(Seq::empty());
    if assigned(said@) is Ok {
        lemma_assigned_are_numbers(said@);
        let values = assigned(said@)->Ok_0;
        lemma_span(values);
        lemma_fits(Repr::I8, values);
        lemma_fits(Repr::I16, values);
        lemma_fits(Repr::I32, values);
        lemma_fits(Repr::I64, values);
        lemma_fits(Repr::U8, values);
        lemma_fits(Repr::U16, values);
        lemma_fits(Repr::U32, values);
        lemma_fits(Repr::U64, values);
        assert(any_negative(values) <==> least(values) < 0) by {
            if values.len() > 0 && least(values) < 0 {
                let i = values.index_of(least(values) as i128);
                assert(values[i] < 0);
            }
        }
    }
    if are_numbers(said@, other) {
        lemma_numbers_are_assigned(said@, other);
        if let Some(t) = repr {
            lemma_fits(t, other);
        }
    }
}

/// Where variants are not numbered the problem says why: one of them says no number, says a number
/// twice, or says one that does not fit.
pub proof fn law_unnumbered_variants_have_a_problem(
    said: &Vec<Option<Result<i128, Problem>>>,
    repr: Option<Repr>,
    p: Problem,
)
    requires
        call_ensures(discriminants_of, (said, repr), Err(p)),
    ensures
        says_problem(said@, p) || p is DuplicateDiscriminant || p == Problem::DiscriminantOverflow
            || exists|lo: i128, hi: i128| #[trigger] out_of_range(p, repr, lo, hi),
{
    if assigned(said@) is Err {
        lemma_problem(said@, p);
    } else {
        let values = assigned(said@)->Ok_0;
        let lo = least(values) as i128;
        let hi = greatest(values) as i128;
        lemma_span(values);
        assert(out_of_range(p, repr, lo, hi));
    }
}

/// Whether some variant says this problem instead of a number.
pub open spec fn says_problem(said: Seq<Option<Result<i128, Problem>>>, p: Problem) -> bool {
    exists|k: int| 0 <= k < said.len() && #[trigger] said[k] == Some(Err::<i128, Problem>(p))
}

/// Whether the problem is that the type that was asked for does not reach from `lo` to `hi`.
pub open spec fn out_of_range(p: Problem, repr: Option<Repr>, lo: i128, hi: i128) -> bool {
    repr matches Some(ty) && p == Problem::DiscriminantOutOfRange(ty, lo, hi) && lo <= hi && !(
    has_value(ty, lo as int) && has_value(ty, hi as int))
}

proof fn lemma_problem(said: Seq<Option<Result<i128, Problem>>>, p: Problem)
    requires
        assigned(said) == Err::<Seq<i128>, Problem>(p),
    ensures
        says_problem(said, p) || p is DuplicateDiscriminant || p == Problem::DiscriminantOverflow,
    decreases said.len(),
{
    if said.len() > 0 {
        let init = said.drop_last();
        if assigned(init) is Err {
            lemma_problem(init, p);
            if says_problem(init, p) {
                let k = choose|k: int|
                    0 <= k < init.len() && #[trigger] init[k] == Some(Err::<i128, Problem>(p));
                assert(said[k] == init[k]);
            }
        } else {
            assert(said[said.len() - 1] == said.last());
        }
    }
}

/// What variants say is what their expressions say.
pub proof fn law_variants_say_what_is_written(
    exprs: &Vec<Option<DiscExpr>>,
    said: &Vec<Option<Result<i128, Problem>>>,
    repr: Option<Repr>,
    r: Result<Discriminants, Problem>,
    q: Result<Discriminants, Problem>,
)
    requires
        said@.len() == exprs@.len(),
        forall|k: int|
            0 <= k < exprs@.len() ==> match #[trigger] exprs@[k] {
                None => said@[k] is None,
                Some(e) => said@[k] matches Some(v) && call_ensures(parse_disc_expr, (&e,), v),
            },
        call_ensures(discriminants, (exprs, repr), r),
        call_ensures(discriminants_of, (said, repr), q),
    ensures
        match (r, q) {
            (Ok(x), Ok(y)) => x.ty == y.ty && x.values@ == y.values@,
            (Err(x), Err(y)) => x == y,
            _ => false,
        },
{
    assert(said_by(exprs@) =~= said@);
}

/// A number that is written out is that number, and with a minus sign its opposite; nothing else
/// is a number.
pub proof fn law_a_written_number_is_that_number(e: &DiscExpr, r: Result<i128, Problem>)
    requires
        call_ensures(parse_disc_expr, (e,), r),
    ensures
        match *e {
            DiscExpr::Literal(text) => match r {
                Ok(v) => all_digits(text@) && v == decimal(text@),
                Err(p) => p == Problem::BadIntegerLiteral && (!all_digits(text@) || decimal(text@)
                    > i128::MAX),
            },
            DiscExpr::Negated(text) => match r {
                Ok(v) => all_digits(text@) && v == -decimal(text@),
                Err(p) => p == Problem::BadIntegerLiteral && (!all_digits(text@) || decimal(text@)
                    > i128::MAX),
            },
            DiscExpr::Other => r == Err::<i128, Problem>(Problem::NotAnIntegerLiteral),
        },
{
}

/// One more digit makes a number ten times as large, and adds the digit.
pub proof fn law_digits_count_in_tens(digits: Seq<char>, d: char)
    requires
        is_digit(d),
    ensures
        decimal(digits.push(d)) == 10 * decimal(digits) + (d as int - 48),
        decimal(Seq::empty()) == 0,
{
    assert(digits.push(d).drop_last() =~= digits);
}

/// The bounds of an integer type are its least and its greatest value.
pub proof fn law_bounds_bound_the_type(ty: Repr, r: (i128, i128), v: int)
    requires
        call_ensures(int_bounds, (ty,), r),
    ensures
        has_value(ty, v) <==> r.0 <= v <= r.1,
{
}

/// The room for a payload is enough for every variant, and no more than one of them needs.
pub proof fn law_the_room_is_that_of_the_largest(sizes: &Vec<usize>, r: usize)
    requires
        call_ensures(payload_size, (sizes,), r),
    ensures
        forall|i: int| 0 <= i < sizes@.len() ==> #[trigger] sizes@[i] <= r,
        sizes@.len() == 0 ==> r == 0,
        sizes@.len() > 0 && r > 0 ==> exists|i: int|
            0 <= i < sizes@.len() && #[trigger] sizes@[i] == r,
{
}

/// The name of an integer type.
pub open spec fn name_of(ty: Repr) -> Seq<char> {
    match ty {
        Repr::U8 => "u8"@,
        Repr::U16 => "u16"@,
        Repr::U32 => "u32"@,
        Repr::U64 => "u64"@,
        Repr::I8 => "i8"@,
        Repr::I16 => "i16"@,
        Repr::I32 => "i32"@,
        Repr::I64 => "i64"@,
    }
}

/// An integer type is asked for by its name, or as one that leaves what follows aligned; the
/// types whose width depends on the machine are refused.
pub proof fn law_an_integer_type_goes_by_its_name(name: &String, r: Result<Repr, Problem>)
    requires
        call_ensures(parse_repr, (name,), r),
    ensures
        match r {
            Ok(ty) => name@ == name_of(ty) || (name@ == "aligned"@ && ty == Repr::U64),
            Err(Problem::ReprOfPointerWidth) => name@ == "usize"@ || name@ == "isize"@,
            Err(p) => p == Problem::BadReprName && name@ != "usize"@ && name@ != "isize"@,
        },
        r is Err ==> name@ != "aligned"@ && forall|ty: Repr| name@ != #[trigger] name_of(ty),
{
}

} // verus!
