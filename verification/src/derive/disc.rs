//! The number that stands for each variant of an enum, and the room that a payload needs.
use vstd::prelude::*;

use super::attr::Repr;
use super::problem::Problem;

verus! {

/// What stands behind the `=` of a variant.
pub enum DiscExpr {
    /// An integer literal: its value in decimal digits, whatever base and suffix it was written
    /// with.
    Literal(String),
    /// An integer literal behind a minus sign, in decimal digits.
    Negated(String),
    /// Anything else.
    Other,
}

/// Whether a character is a decimal digit.
pub open spec fn is_digit(c: char) -> bool {
    '0' <= c <= '9'
}

/// The number that decimal digits spell.
pub open spec fn decimal(digits: Seq<char>) -> nat
    decreases digits.len(),
{
    if digits.len() == 0 {
        0
    } else {
        (10 * decimal(digits.drop_last()) + (digits.last() as int - '0' as int)) as nat
    }
}

/// Whether a text is one decimal digit or more, and nothing else.
pub open spec fn all_digits(text: Seq<char>) -> bool {
    text.len() > 0 && forall|i: int| 0 <= i < text.len() ==> is_digit(#[trigger] text[i])
}

/// The value of decimal digits; nothing where the text is anything else, or the value is too
/// large.
pub open spec fn literal_value(text: Seq<char>) -> Option<i128> {
    if all_digits(text) && decimal(text) <= i128::MAX {
        Some(decimal(text) as i128)
    } else {
        None
    }
}

/// The value of decimal digits.
pub fn parse_literal(text: &str) -> (r: Option<i128>)
    ensures
        r == literal_value(text@),
{
    let n: usize = text.unicode_len();
    if n == 0 {
        return None;
    }
    let mut value: i128 = 0;
    let mut small: bool = true;
    let mut i: usize = 0;
    assert(text@.take(0) =~= Seq::empty());
    while i < n
        invariant
            i <= n,
            n == text@.len(),
            forall|j: int| 0 <= j < i ==> is_digit(#[trigger] text@[j]),
            0 <= value,
            small ==> value == decimal(text@.take(i as int)),
            !small ==> decimal(text@.take(i as int)) > i128::MAX,
        decreases n - i,
    {
        let c: char = text.get_char(i);
        if !('0' <= c && c <= '9') {
            return None;
        }
        let d: i128 = (c as u32 - '0' as u32) as i128;
        assert(text@.take(i + 1).drop_last() =~= text@.take(i as int));
        assert(text@.take(i + 1).last() == c);
        if small && value <= (i128::MAX - d) / 10 {
            value = value * 10 + d;
        } else {
            small = false;
        }
        i += 1;
    }
    assert(text@.take(i as int) =~= text@);
    if small {
        Some(value)
    } else {
        None
    }
}

/// The discriminant that a literal of this value gives, behind a minus sign or not. The least
/// value has no opposite.
pub open spec fn signed_value(negated: bool, parsed: Option<i128>) -> Result<i128, Problem> {
    match parsed {
        None => Err(Problem::BadIntegerLiteral),
        Some(v) => if !negated {
            Ok(v)
        } else if v == i128::MIN {
            Err(Problem::BadIntegerLiteral)
        } else {
            Ok((-v) as i128)
        },
    }
}

/// The discriminant that a literal of this value gives, behind a minus sign or not.
pub fn literal_discriminant(negated: bool, parsed: Option<i128>) -> (r: Result<i128, Problem>)
    ensures
        r == signed_value(negated, parsed),
{
    match parsed {
        None => Err(Problem::BadIntegerLiteral),
        Some(v) => if !negated {
            Ok(v)
        } else if v == i128::MIN {
            Err(Problem::BadIntegerLiteral)
        } else {
            Ok(-v)
        },
    }
}

/// The discriminant that an expression gives.
pub open spec fn expr_value(expr: DiscExpr) -> Result<i128, Problem> {
    match expr {
        DiscExpr::Literal(text) => signed_value(false, literal_value(text@)),
        DiscExpr::Negated(text) => signed_value(true, literal_value(text@)),
        DiscExpr::Other => Err(Problem::NotAnIntegerLiteral),
    }
}

/// The discriminant that an expression gives: only an integer literal will do.
pub fn parse_disc_expr(expr: &DiscExpr) -> (r: Result<i128, Problem>)
    ensures
        r == expr_value(*expr),
{
    match expr {
        DiscExpr::Literal(text) => literal_discriminant(false, parse_literal(text.as_str())),
        DiscExpr::Negated(text) => literal_discriminant(true, parse_literal(text.as_str())),
        DiscExpr::Other => Err(Problem::NotAnIntegerLiteral),
    }
}

/// The least and the greatest value of an integer type.
pub open spec fn bounds(ty: Repr) -> (int, int) {
    match ty {
        Repr::U8 => (0, 0xff),
        Repr::U16 => (0, 0xffff),
        Repr::U32 => (0, 0xffff_ffff),
        Repr::U64 => (0, 0xffff_ffff_ffff_ffff),
        Repr::I8 => (-0x80, 0x7f),
        Repr::I16 => (-0x8000, 0x7fff),
        Repr::I32 => (-0x8000_0000, 0x7fff_ffff),
        Repr::I64 => (-0x8000_0000_0000_0000, 0x7fff_ffff_ffff_ffff),
    }
}

/// Whether an integer type holds all of a range.
pub open spec fn holds(ty: Repr, min: int, max: int) -> bool {
    bounds(ty).0 <= min && max <= bounds(ty).1
}

/// The least and the greatest value of an integer type.
pub fn int_bounds(ty: Repr) -> (r: (i128, i128))
    ensures
        r.0 == bounds(ty).0,
        r.1 == bounds(ty).1,
{
    match ty {
        Repr::U8 => (0, u8::MAX as i128),
        Repr::U16 => (0, u16::MAX as i128),
        Repr::U32 => (0, u32::MAX as i128),
        Repr::U64 => (0, u64::MAX as i128),
        Repr::I8 => (i8::MIN as i128, i8::MAX as i128),
        Repr::I16 => (i16::MIN as i128, i16::MAX as i128),
        Repr::I32 => (i32::MIN as i128, i32::MAX as i128),
        Repr::I64 => (i64::MIN as i128, i64::MAX as i128),
    }
}

/// How many bytes an integer type takes.
pub open spec fn width(ty: Repr) -> int {
    match ty {
        Repr::U8 => 1,
        Repr::I8 => 1,
        Repr::U16 => 2,
        Repr::I16 => 2,
        Repr::U32 => 4,
        Repr::I32 => 4,
        Repr::U64 => 8,
        Repr::I64 => 8,
    }
}

/// Whether an integer type has negative values.
pub open spec fn signed(ty: Repr) -> bool {
    bounds(ty).0 < 0
}

/// The integer type for a range: signed exactly where the range has negative values, and of
/// its kind the narrowest that holds the range, or the widest where none does.
pub open spec fn inferred(min: int, max: int) -> Repr {
    if min < 0 {
        if holds(Repr::I8, min, max) {
            Repr::I8
        } else if holds(Repr::I16, min, max) {
            Repr::I16
        } else if holds(Repr::I32, min, max) {
            Repr::I32
        } else {
            Repr::I64
        }
    } else {
        if holds(Repr::U8, min, max) {
            Repr::U8
        } else if holds(Repr::U16, min, max) {
            Repr::U16
        } else if holds(Repr::U32, min, max) {
            Repr::U32
        } else {
            Repr::U64
        }
    }
}

fn fits(ty: Repr, min: i128, max: i128) -> (r: bool)
    ensures
        r == holds(ty, min as int, max as int),
{
    let (lo, hi): (i128, i128) = int_bounds(ty);
    min >= lo && max <= hi
}

/// The integer type for a range of discriminants.
pub fn infer_disc_ty(min: i128, max: i128) -> (r: Repr)
    ensures
        r == inferred(min as int, max as int),
{
    if min < 0 {
        if fits(Repr::I8, min, max) {
            Repr::I8
        } else if fits(Repr::I16, min, max) {
            Repr::I16
        } else if fits(Repr::I32, min, max) {
            Repr::I32
        } else {
            Repr::I64
        }
    } else {
        if fits(Repr::U8, min, max) {
            Repr::U8
        } else if fits(Repr::U16, min, max) {
            Repr::U16
        } else if fits(Repr::U32, min, max) {
            Repr::U32
        } else {
            Repr::U64
        }
    }
}

/// Where some integer type of the right sign holds the range, the one that is chosen holds it,
/// and none that is narrower does.
pub proof fn law_inferred_type_is_the_narrowest(min: int, max: int, other: Repr)
    requires
        holds(other, min, max),
        signed(other) == (min < 0),
    ensures
        holds(inferred(min, max), min, max),
        signed(inferred(min, max)) == (min < 0),
        width(inferred(min, max)) <= width(other),
{
}

/// What a variant without a discriminant of its own gets: one more than the last, or zero.
pub open spec fn following(values: Seq<i128>) -> i128 {
    if values.len() == 0 {
        0
    } else {
        (values.last() + 1) as i128
    }
}

/// The discriminants of variants that say these values, or nothing.
pub open spec fn assigned(said: Seq<Option<Result<i128, Problem>>>) -> Result<Seq<i128>, Problem>
    decreases said.len(),
{
    if said.len() == 0 {
        Ok(Seq::empty())
    } else {
        match assigned(said.drop_last()) {
            Err(p) => Err(p),
            Ok(values) => {
                let own = match said.last() {
                    Some(v) => v,
                    None => Ok(following(values)),
                };
                match own {
                    Err(p) => Err(p),
                    Ok(d) => if values.contains(d) {
                        Err(Problem::DuplicateDiscriminant(d))
                    } else if d == i128::MAX {
                        Err(Problem::DiscriminantOverflow)
                    } else {
                        Ok(values.push(d))
                    },
                }
            },
        }
    }
}

/// The least of some values; zero where there are none.
pub open spec fn least(values: Seq<i128>) -> int
    decreases values.len(),
{
    if values.len() == 0 {
        0
    } else if values.len() == 1 || values.last() < least(values.drop_last()) {
        values.last() as int
    } else {
        least(values.drop_last())
    }
}

/// The greatest of some values; zero where there are none.
pub open spec fn greatest(values: Seq<i128>) -> int
    decreases values.len(),
{
    if values.len() == 0 {
        0
    } else if values.len() == 1 || values.last() > greatest(values.drop_last()) {
        values.last() as int
    } else {
        greatest(values.drop_last())
    }
}

/// The discriminants of an enum, in the order of its variants, and their integer type.
pub struct Discriminants {
    pub ty: Repr,
    pub values: Vec<i128>,
}

/// The discriminants of variants that say these values, in the type that was asked for or in
/// one that suits them.
pub open spec fn decided(
    said: Seq<Option<Result<i128, Problem>>>,
    repr: Option<Repr>,
) -> Result<(Repr, Seq<i128>), Problem> {
    match assigned(said) {
        Err(p) => Err(p),
        Ok(values) => match repr {
            Some(ty) => if holds(ty, least(values), greatest(values)) {
                Ok((ty, values))
            } else {
                Err(
                    Problem::DiscriminantOutOfRange(
                        ty,
                        least(values) as i128,
                        greatest(values) as i128,
                    ),
                )
            },
            None => Ok((inferred(least(values), greatest(values)), values)),
        },
    }
}

/// Whether a result is that one.
pub open spec fn is_decided(
    r: Result<Discriminants, Problem>,
    want: Result<(Repr, Seq<i128>), Problem>,
) -> bool {
    match want {
        Err(p) => r matches Err(q) && p == q,
        Ok((ty, values)) => r matches Ok(d) && d.ty == ty && d.values@ == values,
    }
}

fn has(values: &Vec<i128>, d: i128) -> (r: bool)
    ensures
        r == values@.contains(d),
{
    let mut i: usize = 0;
    while i < values.len()
        invariant
            i <= values@.len(),
            forall|j: int| 0 <= j < i ==> values@[j] != d,
        decreases values@.len() - i,
    {
        if values[i] == d {
            return true;
        }
        i += 1;
    }
    false
}

proof fn lemma_error_stays(said: Seq<Option<Result<i128, Problem>>>, n: int)
    requires
        0 <= n <= said.len(),
        assigned(said.take(n)) is Err,
    ensures
        assigned(said) == assigned(said.take(n)),
    decreases said.len(),
{
    if n == said.len() {
        assert(said.take(n) =~= said);
    } else {
        assert(said.drop_last().take(n) =~= said.take(n));
        lemma_error_stays(said.drop_last(), n);
    }
}

/// Assigns the discriminants of variants that say these values, or nothing.
fn assign(said: &Vec<Option<Result<i128, Problem>>>) -> (r: Result<Vec<i128>, Problem>)
    ensures
        match assigned(said@) {
            Err(p) => r matches Err(q) && p == q,
            Ok(values) => r matches Ok(out) && out@ == values,
        },
{
    let mut out: Vec<i128> = Vec::new();
    let mut next: i128 = 0;
    let mut i: usize = 0;
    assert(said@.take(0) =~= Seq::empty());
    while i < said.len()
        invariant
            i <= said@.len(),
            assigned(said@.take(i as int)) == Ok::<Seq<i128>, Problem>(out@),
            next == following(out@),
            forall|j: int| 0 <= j < out@.len() ==> out@[j] < i128::MAX,
        decreases said@.len() - i,
    {
        assert(said@.take(i + 1).drop_last() =~= said@.take(i as int));
        assert(said@.take(i + 1).last() == said@[i as int]);
        let own: Result<i128, Problem> = match said[i] {
            Some(v) => v,
            None => Ok(next),
        };
        match own {
            Err(p) => {
                proof {
                    lemma_error_stays(said@, i + 1);
                }
                return Err(p);
            },
            Ok(d) => {
                if has(&out, d) {
                    proof {
                        lemma_error_stays(said@, i + 1);
                    }
                    return Err(Problem::DuplicateDiscriminant(d));
                }
                if d == i128::MAX {
                    proof {
                        lemma_error_stays(said@, i + 1);
                    }
                    return Err(Problem::DiscriminantOverflow);
                }
                out.push(d);
                next = d + 1;
            },
        }
        i += 1;
    }
    assert(said@.take(i as int) =~= said@);
    Ok(out)
}

fn span(values: &Vec<i128>) -> (r: (i128, i128))
    ensures
        r.0 == least(values@),
        r.1 == greatest(values@),
{
    let mut lo: i128 = 0;
    let mut hi: i128 = 0;
    let mut i: usize = 0;
    assert(values@.take(0) =~= Seq::empty());
    while i < values.len()
        invariant
            i <= values@.len(),
            lo == least(values@.take(i as int)),
            hi == greatest(values@.take(i as int)),
        decreases values@.len() - i,
    {
        assert(values@.take(i + 1).drop_last() =~= values@.take(i as int));
        let v: i128 = values[i];
        if i == 0 || v < lo {
            lo = v;
        }
        if i == 0 || v > hi {
            hi = v;
        }
        i += 1;
    }
    assert(values@.take(i as int) =~= values@);
    (lo, hi)
}

/// The discriminants of variants that say these values: each its own or one more than the
/// last, none twice, in the type that was asked for where it holds them all, else in one that
/// suits them.
pub fn discriminants_of(
    said: &Vec<Option<Result<i128, Problem>>>,
    repr: Option<Repr>,
) -> (r: Result<Discriminants, Problem>)
    ensures
        is_decided(r, decided(said@, repr)),
{
    match assign(said) {
        Err(p) => Err(p),
        Ok(values) => {
            let (lo, hi): (i128, i128) = span(&values);
            match repr {
                Some(ty) => if fits(ty, lo, hi) {
                    Ok(Discriminants { ty, values })
                } else {
                    Err(Problem::DiscriminantOutOfRange(ty, lo, hi))
                },
                None => Ok(Discriminants { ty: infer_disc_ty(lo, hi), values }),
            }
        },
    }
}

/// What variants say with these expressions.
pub open spec fn said_by(exprs: Seq<Option<DiscExpr>>) -> Seq<Option<Result<i128, Problem>>> {
    exprs.map_values(
        |e: Option<DiscExpr>|
            match e {
                Some(x) => Some(expr_value(x)),
                None => None,
            },
    )
}

/// The discriminants of an enum whose variants have these expressions, or none.
pub fn discriminants(exprs: &Vec<Option<DiscExpr>>, repr: Option<Repr>) -> (r: Result<
    Discriminants,
    Problem,
>)
    ensures
        is_decided(r, decided(said_by(exprs@), repr)),
{
    let mut said: Vec<Option<Result<i128, Problem>>> = Vec::new();
    let mut i: usize = 0;
    while i < exprs.len()
        invariant
            i <= exprs@.len(),
            said@ =~= said_by(exprs@).take(i as int),
        decreases exprs@.len() - i,
    {
        let one: Option<Result<i128, Problem>> = match &exprs[i] {
            Some(e) => Some(parse_disc_expr(e)),
            None => None,
        };
        said.push(one);
        i += 1;
    }
    assert(said@ =~= said_by(exprs@));
    discriminants_of(&said, repr)
}

proof fn lemma_span_bounds(values: Seq<i128>, k: int)
    requires
        0 <= k < values.len(),
    ensures
        least(values) <= values[k] <= greatest(values),
    decreases values.len(),
{
    if k < values.len() - 1 {
        lemma_span_bounds(values.drop_last(), k);
    }
}

proof fn lemma_assigned_distinct(said: Seq<Option<Result<i128, Problem>>>, j: int, k: int)
    requires
        assigned(said) is Ok,
        0 <= j < k < said.len(),
    ensures
        assigned(said)->Ok_0.len() == said.len(),
        assigned(said)->Ok_0[j] != assigned(said)->Ok_0[k],
    decreases said.len(),
{
    lemma_assigned_len(said.drop_last());
    let values = assigned(said.drop_last())->Ok_0;
    if k < said.len() - 1 {
        lemma_assigned_distinct(said.drop_last(), j, k);
    } else {
        assert(values[j] == assigned(said)->Ok_0[j]);
        assert(values.contains(values[j]));
    }
}

proof fn lemma_assigned_len(said: Seq<Option<Result<i128, Problem>>>)
    requires
        assigned(said) is Ok,
    ensures
        assigned(said)->Ok_0.len() == said.len(),
    decreases said.len(),
{
    if said.len() > 0 {
        lemma_assigned_len(said.drop_last());
    }
}

/// Every variant gets a discriminant, no two the same.
pub proof fn law_discriminants_are_distinct(
    said: Seq<Option<Result<i128, Problem>>>,
    repr: Option<Repr>,
    j: int,
    k: int,
)
    requires
        decided(said, repr) is Ok,
        0 <= j < k < said.len(),
    ensures
        decided(said, repr)->Ok_0.1.len() == said.len(),
        decided(said, repr)->Ok_0.1[j] != decided(said, repr)->Ok_0.1[k],
{
    lemma_assigned_distinct(said, j, k);
}

/// In a type that was asked for, every discriminant fits.
pub proof fn law_discriminants_fit(
    said: Seq<Option<Result<i128, Problem>>>,
    ty: Repr,
    k: int,
)
    requires
        decided(said, Some(ty)) is Ok,
        0 <= k < said.len(),
    ensures
        decided(said, Some(ty))->Ok_0.1.len() == said.len(),
        holds(
            ty,
            decided(said, Some(ty))->Ok_0.1[k] as int,
            decided(said, Some(ty))->Ok_0.1[k] as int,
        ),
{
    lemma_assigned_len(said);
    lemma_span_bounds(assigned(said)->Ok_0, k);
}

/// The room for a payload: that of the largest variant.
pub fn payload_size(sizes: &Vec<usize>) -> (r: usize)
    ensures
        forall|i: int| 0 <= i < sizes@.len() ==> #[trigger] sizes@[i] <= r,
        r == 0 || sizes@.contains(r),
{
    let mut most: usize = 0;
    let mut i: usize = 0;
    while i < sizes.len()
        invariant
            i <= sizes@.len(),
            forall|j: int| 0 <= j < i ==> #[trigger] sizes@[j] <= most,
            most == 0 || sizes@.contains(most),
        decreases sizes@.len() - i,
    {
        if sizes[i] > most {
            most = sizes[i];
        }
        i += 1;
    }
    most
}

} // verus!
