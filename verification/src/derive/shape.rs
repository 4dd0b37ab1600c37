//! Shapes of field types: what is optional, what is a vector, what leads to another file.
use vstd::prelude::*;

use crate::derive::kind::Kind;
use crate::derive::problem::Problem;
use crate::derive::ty::{any_in, any_is_param, is_name, texts, Arg, LenExpr, Ty};

verus! {

/// The `X` of a type `Name<X>`, if the type is called `name` and its first argument is a type.
pub open spec fn inner_of(ty: Ty, name: Seq<char>) -> Option<Ty> {
    match ty {
        Ty::Path { last, args, others } => if last@ == name && args@.len() > 0 {
            match args@[0] {
                Arg::Type(t) => Some(t),
                Arg::Other(_) => None,
            }
        } else {
            None
        },
        _ => None,
    }
}

/// What an exec search for a type found, as a value.
pub open spec fn found(r: Option<&Ty>) -> Option<Ty> {
    match r {
        Some(t) => Some(*t),
        None => None,
    }
}

fn inner<'a>(ty: &'a Ty, name: &str) -> (r: Option<&'a Ty>)
    ensures
        found(r) == inner_of(*ty, name@),
{
    match ty {
        Ty::Path { last, args, others: _ } => {
            if is_name(last, name) && args.len() > 0 {
                match &args[0] {
                    Arg::Type(t) => Some(t),
                    Arg::Other(_) => None,
                }
            } else {
                None
            }
        },
        _ => None,
    }
}

pub open spec fn option_of(ty: Ty) -> Option<Ty> {
    inner_of(ty, "Option"@)
}

pub open spec fn vec_of(ty: Ty) -> Option<Ty> {
    inner_of(ty, "Vec"@)
}

pub open spec fn foreign_of(ty: Ty) -> Option<Ty> {
    inner_of(ty, "Foreign"@)
}

/// The type without one outer `Option`.
pub open spec fn unopt(ty: Ty) -> Ty {
    match option_of(ty) {
        Some(t) => t,
        None => ty,
    }
}

/// The `T` of `Option<T>`.
pub fn option_inner(ty: &Ty) -> (r: Option<&Ty>)
    ensures
        found(r) == option_of(*ty),
{
    inner(ty, "Option")
}

/// The `T` of `Vec<T>`.
pub fn vec_inner(ty: &Ty) -> (r: Option<&Ty>)
    ensures
        found(r) == vec_of(*ty),
{
    inner(ty, "Vec")
}

/// The `T` of `Foreign<T>`.
pub fn foreign_inner(ty: &Ty) -> (r: Option<&Ty>)
    ensures
        found(r) == foreign_of(*ty),
{
    inner(ty, "Foreign")
}

fn without_option(ty: &Ty) -> (r: &Ty)
    ensures
        *r == unopt(*ty),
{
    match option_inner(ty) {
        Some(t) => t,
        None => ty,
    }
}

/// The type that a field leads to: what is behind `&`, in an array, and in an `Option`, a `Vec`
/// or a `Foreign`.
pub open spec fn leaf_of(ty: Ty) -> Ty
    decreases ty,
{
    match ty {
        Ty::Reference { elem, others } => leaf_of(*elem),
        Ty::Array { elem, len } => leaf_of(*elem),
        Ty::Path { last, args, others } => if (last@ == "Option"@ || last@ == "Vec"@ || last@
            == "Foreign"@) && args@.len() > 0 {
            match args@[0] {
                Arg::Type(t) => leaf_of(t),
                Arg::Other(_) => ty,
            }
        } else {
            ty
        },
        _ => ty,
    }
}

/// The type that a field leads to.
pub fn leaf(ty: &Ty) -> (r: &Ty)
    ensures
        *r == leaf_of(*ty),
    decreases ty,
{
    match ty {
        Ty::Reference { elem, others: _ } => leaf(elem),
        Ty::Array { elem, len: _ } => leaf(elem),
        Ty::Path { last, args, others: _ } => {
            if (is_name(last, "Option") || is_name(last, "Vec") || is_name(last, "Foreign"))
                && args.len() > 0 {
                match &args[0] {
                    Arg::Type(t) => leaf(t),
                    Arg::Other(_) => ty,
                }
            } else {
                ty
            }
        },
        _ => ty,
    }
}

/// Whether the last name of the type is `name`.
pub open spec fn is_called(ty: Ty, name: Seq<char>) -> bool {
    ty matches Ty::Path { last, args: _, others: _ } && last@ == name
}

/// Whether the type is `str`.
pub fn is_str(ty: &Ty) -> (r: bool)
    ensures
        r == is_called(*ty, "str"@),
{
    match ty {
        Ty::Path { last, args: _, others: _ } => is_name(last, "str"),
        _ => false,
    }
}

/// What a vector holds.
pub enum VecInfo<'a> {
    /// A `String`: bytes.
    Text,
    /// A `Vec` of this type.
    Of(&'a Ty),
}

/// [`VecInfo`], as a value.
pub enum VecShape {
    Text,
    Of(Ty),
}

pub open spec fn vec_shape(ty: Ty) -> Option<VecShape> {
    if is_called(ty, "String"@) {
        Some(VecShape::Text)
    } else {
        match vec_of(ty) {
            Some(t) => Some(VecShape::Of(t)),
            None => None,
        }
    }
}

pub open spec fn shape_of(v: Option<VecInfo>) -> Option<VecShape> {
    match v {
        Some(VecInfo::Text) => Some(VecShape::Text),
        Some(VecInfo::Of(t)) => Some(VecShape::Of(*t)),
        None => None,
    }
}

/// Whether the type is a vector or a string, and of what.
pub fn vec_info(ty: &Ty) -> (r: Option<VecInfo>)
    ensures
        shape_of(r) == vec_shape(*ty),
{
    let text: bool = match ty {
        Ty::Path { last, args: _, others: _ } => is_name(last, "String"),
        _ => false,
    };
    if text {
        return Some(VecInfo::Text);
    }
    match vec_inner(ty) {
        Some(t) => Some(VecInfo::Of(t)),
        None => None,
    }
}

/// The element of an array of any depth; any other type as it is.
pub open spec fn peeled(ty: Ty) -> Ty
    decreases ty,
{
    match ty {
        Ty::Array { elem, len } => peeled(*elem),
        _ => ty,
    }
}

/// The lengths of an array of any depth, the outermost first.
pub open spec fn dims_of(ty: Ty) -> Seq<LenExpr>
    decreases ty,
{
    match ty {
        Ty::Array { elem, len } => seq![len] + dims_of(*elem),
        _ => Seq::empty(),
    }
}

fn peel(ty: &Ty) -> (r: &Ty)
    ensures
        *r == peeled(*ty),
    decreases ty,
{
    match ty {
        Ty::Array { elem, len: _ } => peel(elem),
        _ => ty,
    }
}

/// Whether the element of a vector is one that can be stored.
pub open spec fn vec_elem_problem(ty: Ty) -> Option<Problem> {
    let t = peeled(ty);
    match option_of(t) {
        Some(inner) => if option_of(inner) is Some {
            Some(Problem::DoubleOption)
        } else if vec_shape(inner) is Some {
            Some(Problem::VecInVec)
        } else if inner is Tuple {
            Some(Problem::TupleInVec)
        } else {
            None
        },
        None => if vec_shape(t) is Some {
            Some(Problem::VecInVec)
        } else if t is Tuple {
            Some(Problem::TupleInVec)
        } else {
            None
        },
    }
}

/// Whether a type without an outer `Option` is one that can be stored.
pub open spec fn bare_problem(ty: Ty) -> Option<Problem> {
    match vec_of(ty) {
        Some(elem) => vec_elem_problem(elem),
        None => None,
    }
}

/// What is wrong with how `Vec` and `Option` are nested in the type of a field, if anything.
pub open spec fn nesting_problem(ty: Ty) -> Option<Problem> {
    match option_of(ty) {
        Some(inner) => if option_of(inner) is Some {
            Some(Problem::DoubleOption)
        } else {
            bare_problem(inner)
        },
        None => bare_problem(ty),
    }
}

/// A result that fails with exactly this problem.
pub open spec fn fails_with(r: Result<(), Problem>, p: Option<Problem>) -> bool {
    match p {
        None => r is Ok,
        Some(x) => r == Err::<(), Problem>(x),
    }
}

/// Whether the element of a vector is one that can be stored: a leaf, or an array of leaves,
/// in one `Option` at most.
pub fn check_vec_elem(ty: &Ty) -> (r: Result<(), Problem>)
    ensures
        fails_with(r, vec_elem_problem(*ty)),
{
    let t = peel(ty);
    if let Some(inner) = option_inner(t) {
        if option_inner(inner).is_some() {
            return Err(Problem::DoubleOption);
        }
        if vec_info(inner).is_some() {
            return Err(Problem::VecInVec);
        }
        if let Ty::Tuple { elems: _ } = inner {
            return Err(Problem::TupleInVec);
        }
        return Ok(());
    }
    if vec_info(t).is_some() {
        return Err(Problem::VecInVec);
    }
    if let Ty::Tuple { elems: _ } = t {
        return Err(Problem::TupleInVec);
    }
    Ok(())
}

/// Whether a type without an outer `Option` is one that can be stored.
pub fn check_bare(ty: &Ty) -> (r: Result<(), Problem>)
    ensures
        fails_with(r, bare_problem(*ty)),
{
    match vec_inner(ty) {
        Some(elem) => check_vec_elem(elem),
        None => Ok(()),
    }
}

/// Whether `Vec` and `Option` are nested in the type of a field as they may be.
pub fn check_container_nesting(ty: &Ty) -> (r: Result<(), Problem>)
    ensures
        fails_with(r, nesting_problem(*ty)),
{
    if let Some(inner) = option_inner(ty) {
        if option_inner(inner).is_some() {
            return Err(Problem::DoubleOption);
        }
        return check_bare(inner);
    }
    check_bare(ty)
}

/// What is wrong with a type that a pointer to another file leads to, if anything: it has to
/// be a block, not another pointer, nor something optional, nor a collection.
pub open spec fn target_problem(ty: Ty) -> Option<Problem> {
    if foreign_of(ty) is Some {
        Some(Problem::ForeignToForeign)
    } else {
        match option_of(ty) {
            Some(inner) => if foreign_of(inner) is Some {
                Some(Problem::ForeignToOptionalForeign)
            } else {
                Some(Problem::ForeignToOption)
            },
            None => if vec_shape(ty) is Some || is_called(ty, "str"@) {
                Some(Problem::ForeignToVec)
            } else if ty is Array {
                Some(Problem::ForeignToArray)
            } else if ty is Tuple {
                Some(Problem::ForeignToTuple)
            } else {
                None
            },
        }
    }
}

/// Whether a pointer to another file can lead to this type.
pub fn reject_bad_foreign_target(ty: &Ty) -> (r: Result<(), Problem>)
    ensures
        fails_with(r, target_problem(*ty)),
{
    if foreign_inner(ty).is_some() {
        return Err(Problem::ForeignToForeign);
    }
    if let Some(inner) = option_inner(ty) {
        if foreign_inner(inner).is_some() {
            return Err(Problem::ForeignToOptionalForeign);
        }
        return Err(Problem::ForeignToOption);
    }
    if vec_info(ty).is_some() || is_str(ty) {
        return Err(Problem::ForeignToVec);
    }
    if let Ty::Array { elem: _, len: _ } = ty {
        return Err(Problem::ForeignToArray);
    }
    if let Ty::Tuple { elems: _ } = ty {
        return Err(Problem::ForeignToTuple);
    }
    Ok(())
}

/// What is wrong with a pointer to another file of this kind to this type, if anything.
pub open spec fn foreign_problem(kind: Kind, ty: Ty) -> Option<Problem> {
    match kind {
        Kind::Pod => Some(Problem::UnannotatedForeign),
        Kind::Embed => Some(Problem::EmbeddedForeign),
        _ => target_problem(ty),
    }
}

/// Whether a field can be a pointer to another file, of this kind, to this type.
pub fn validate_foreign_target(kind: Kind, ty: &Ty) -> (r: Result<(), Problem>)
    ensures
        fails_with(r, foreign_problem(kind, *ty)),
{
    match kind {
        Kind::Pod => {
            return Err(Problem::UnannotatedForeign);
        },
        Kind::Embed => {
            return Err(Problem::EmbeddedForeign);
        },
        _ => {},
    }
    reject_bad_foreign_target(ty)
}

/// The target of the first element of a tuple that leads to another file.
pub open spec fn first_foreign(elems: Seq<Ty>) -> Option<Ty>
    decreases elems.len(),
{
    if elems.len() == 0 {
        None
    } else {
        match foreign_of(unopt(elems[0])) {
            Some(x) => Some(x),
            None => first_foreign(elems.drop_first()),
        }
    }
}

/// The target of the pointer to another file that the field holds, where it holds one in a
/// place that is supported.
pub open spec fn foreign_target(ty: Ty) -> Option<Ty> {
    let t = unopt(ty);
    match foreign_of(t) {
        Some(x) => Some(x),
        None => {
            let in_vec = match vec_of(t) {
                Some(e) => foreign_of(unopt(e)),
                None => None,
            };
            match in_vec {
                Some(x) => Some(x),
                None => match t {
                    Ty::Array { elem, len } => foreign_of(unopt(peeled(t))),
                    Ty::Tuple { elems } => first_foreign(elems@),
                    _ => None,
                },
            }
        },
    }
}

/// The target of the pointer to another file that the field holds, through an `Option`, a
/// `Vec`, an array or a tuple.
pub fn field_foreign_target(ty: &Ty) -> (r: Option<&Ty>)
    ensures
        found(r) == foreign_target(*ty),
{
    let t = without_option(ty);
    if let Some(x) = foreign_inner(t) {
        return Some(x);
    }
    if let Some(e) = vec_inner(t) {
        if let Some(x) = foreign_inner(without_option(e)) {
            return Some(x);
        }
    }
    match t {
        Ty::Array { elem: _, len: _ } => foreign_inner(without_option(peel(t))),
        Ty::Tuple { elems } => {
            let mut i: usize = 0;
            assert(elems@.skip(0) =~= elems@);
            while i < elems.len()
                invariant
                    i <= elems@.len(),
                    first_foreign(elems@.skip(i as int)) == foreign_target(*ty),
                decreases elems@.len() - i,
            {
                assert(elems@.skip(i as int).drop_first() =~= elems@.skip(i + 1));
                if let Some(x) = foreign_inner(without_option(&elems[i])) {
                    return Some(x);
                }
                i += 1;
            }
            None
        },
        _ => None,
    }
}

/// The targets of all pointers to other files that the field holds, in order.
pub open spec fn targets_in(ty: Ty) -> Seq<Ty>
    decreases ty,
{
    let t = unopt(ty);
    match foreign_of(t) {
        Some(x) => seq![x],
        None => match vec_of(t) {
            Some(e) => targets_in(e),
            None => match t {
                Ty::Array { elem, len } => targets_in(*elem),
                Ty::Tuple { elems } => targets_in_all(elems@),
                _ => Seq::empty(),
            },
        },
    }
}

pub open spec fn targets_in_all(elems: Seq<Ty>) -> Seq<Ty>
    decreases elems,
{
    if elems.len() == 0 {
        Seq::empty()
    } else {
        targets_in_all(elems.drop_last()) + targets_in(elems.last())
    }
}

/// The types behind references.
pub open spec fn derefs(v: Seq<&Ty>) -> Seq<Ty> {
    v.map_values(|t: &Ty| *t)
}

/// Put the targets of all pointers to other files that the field holds at the end of `out`.
fn collect_foreign_targets<'a>(ty: &'a Ty, out: &mut Vec<&'a Ty>)
    ensures
        derefs(final(out)@) == derefs(old(out)@) + targets_in(*ty),
    decreases ty,
{
    let ghost before = derefs(out@);
    let t = without_option(ty);
    if let Some(x) = foreign_inner(t) {
        out.push(x);
        assert(derefs(out@) =~= before + seq![*x]);
        return ;
    }
    if let Some(e) = vec_inner(t) {
        collect_foreign_targets(e, out);
        return ;
    }
    match t {
        Ty::Array { elem, len: _ } => collect_foreign_targets(elem, out),
        Ty::Tuple { elems } => {
            let mut i: usize = 0;
            assert(before + targets_in_all(elems@.take(0)) =~= before);
            while i < elems.len()
                invariant
                    i <= elems@.len(),
                    *t == unopt(*ty),
                    t matches Ty::Tuple { elems: b } && b == elems,
                    derefs(out@) == before + targets_in_all(elems@.take(i as int)),
                decreases elems@.len() - i,
            {
                proof {
                    assert(elems@.take(i + 1).drop_last() =~= elems@.take(i as int));
                    assert(elems@.take(i + 1).last() == elems@[i as int]);
                }
                let ghost mid = derefs(out@);
                collect_foreign_targets(&elems[i], out);
                proof {
                    assert(before + targets_in_all(elems@.take(i as int)) + targets_in(
                        elems@[i as int],
                    ) =~= before + (targets_in_all(elems@.take(i as int)) + targets_in(
                        elems@[i as int],
                    )));
                }
                i += 1;
            }
            assert(elems@.take(i as int) =~= elems@);
        },
        _ => {
            assert(before + Seq::<Ty>::empty() =~= before);
        },
    }
}

/// The targets of all pointers to other files that the field holds, in order.
pub fn foreign_targets_in(ty: &Ty) -> (r: Vec<&Ty>)
    ensures
        derefs(r@) == targets_in(*ty),
{
    let mut out: Vec<&Ty> = Vec::new();
    collect_foreign_targets(ty, &mut out);
    assert(Seq::<Ty>::empty() + targets_in(*ty) =~= targets_in(*ty));
    assert(derefs(Seq::<&Ty>::empty()) =~= Seq::<Ty>::empty());
    out
}

/// An array of any depth: its lengths, its leaf, and whether the leaf is optional.
pub struct ArrayShape<'a> {
    pub dims: Vec<&'a LenExpr>,
    pub leaf: &'a Ty,
    pub nullable: bool,
}

/// The lengths behind references.
pub open spec fn lens(v: Seq<&LenExpr>) -> Seq<LenExpr> {
    v.map_values(|l: &LenExpr| *l)
}

/// Take an array of any depth apart. An `Option` may stand round the leaf, not round an array.
pub fn array_shape(ty: &Ty) -> (r: Result<ArrayShape, Problem>)
    ensures
        if unopt(peeled(*ty)) is Array {
            r matches Err(p) && p == Problem::OptionOfArray
        } else {
            r matches Ok(s) && lens(s.dims@) == dims_of(*ty) && *s.leaf == unopt(peeled(*ty))
                && s.nullable == (option_of(peeled(*ty)) is Some)
        },
{
    let mut dims: Vec<&LenExpr> = Vec::new();
    let mut cur: &Ty = ty;
    let mut going: bool = true;
    assert(lens(dims@) + dims_of(*cur) =~= dims_of(*ty));
    while going
        invariant
            lens(dims@) + dims_of(*cur) == dims_of(*ty),
            peeled(*cur) == peeled(*ty),
            !going ==> !(*cur is Array),
        decreases
                *cur,
                if going {
                    1int
                } else {
                    0int
                },
    {
        match cur {
            Ty::Array { elem, len } => {
                proof {
                    let before = lens(dims@);
                    assert(lens(dims@.push(len)) =~= before.push(*len));
                    assert(before.push(*len) + dims_of(**elem) =~= before + (seq![*len] + dims_of(
                        **elem,
                    )));
                }
                dims.push(len);
                cur = elem;
            },
            _ => {
                going = false;
            },
        }
    }
    assert(lens(dims@) + Seq::<LenExpr>::empty() =~= lens(dims@));
    let nullable: bool = option_inner(cur).is_some();
    let leaf = without_option(cur);
    if let Ty::Array { elem: _, len: _ } = leaf {
        return Err(Problem::OptionOfArray);
    }
    Ok(ArrayShape { dims, leaf, nullable })
}

/// Whether one of the lengths names one of `params`.
pub open spec fn dims_mention(dims: Seq<LenExpr>, params: Seq<Seq<char>>) -> bool {
    exists|i: int| 0 <= i < dims.len() && any_in(#[trigger] dims[i].idents@, params)
}

/// Refuse an array of arrays whose flat length would be a product with a parameter in it.
pub fn reject_nested_const_dims(dims: &Vec<&LenExpr>, const_params: &Vec<String>) -> (r: Result<
    (),
    Problem,
>)
    ensures
        fails_with(
            r,
            if dims@.len() > 1 && dims_mention(lens(dims@), texts(const_params@)) {
                Some(Problem::NestedConstArray)
            } else {
                None
            },
        ),
{
    if dims.len() <= 1 {
        return Ok(());
    }
    let mut i: usize = 0;
    while i < dims.len()
        invariant
            i <= dims@.len(),
            dims@.len() > 1,
            forall|j: int|
                0 <= j < i ==> !any_in((#[trigger] dims@[j]).idents@, texts(const_params@)),
        decreases dims@.len() - i,
    {
        if any_is_param(&dims[i].idents, const_params) {
            assert(lens(dims@)[i as int] == *dims@[i as int]);
            assert(any_in(lens(dims@)[i as int].idents@, texts(const_params@)));
            return Err(Problem::NestedConstArray);
        }
        i += 1;
    }
    proof {
        if dims_mention(lens(dims@), texts(const_params@)) {
            let k = choose|k: int|
                0 <= k < dims@.len() && any_in(
                    #[trigger] lens(dims@)[k].idents@,
                    texts(const_params@),
                );
            assert(lens(dims@)[k] == *dims@[k]);
            assert(any_in(dims@[k].idents@, texts(const_params@)));
        }
    }
    Ok(())
}

/// A field that holds a pointer to another file in a supported place holds at least one: the
/// target found first is among all targets found.
pub proof fn law_first_target_is_a_target(ty: Ty)
    requires
        foreign_target(ty) is Some,
    ensures
        targets_in(ty).contains(foreign_target(ty)->0),
    decreases ty,
{
    let t = unopt(ty);
    let x = foreign_target(ty)->0;
    if foreign_of(t) is Some {
        assert(targets_in(ty)[0] == x);
    } else if vec_of(t) is Some {
        let e = vec_of(t)->0;
        assert(foreign_of(unopt(e)) == Some(x));
        assert(targets_in(e)[0] == x);
    } else {
        match t {
            Ty::Array { elem, len } => {
                lemma_array_target(t, x);
            },
            Ty::Tuple { elems } => {
                lemma_tuple_target(elems@, x);
            },
            _ => {},
        }
    }
}

proof fn lemma_array_target(t: Ty, x: Ty)
    requires
        foreign_of(unopt(peeled(t))) == Some(x),
    ensures
        targets_in(t).contains(x),
    decreases t,
{
    match t {
        Ty::Array { elem, len } => {
            lemma_array_target(*elem, x);
            assert(option_of(t) is None);
            assert(targets_in(t) == targets_in(*elem));
        },
        _ => {
            assert(targets_in(t)[0] == x);
        },
    }
}

proof fn lemma_tuple_target(elems: Seq<Ty>, x: Ty)
    requires
        first_foreign(elems) == Some(x),
    ensures
        targets_in_all(elems).contains(x),
    decreases elems.len(),
{
    if foreign_of(unopt(elems[0])) is Some {
        assert(targets_in(elems[0])[0] == x);
        lemma_targets_of_element(elems, 0, x);
    } else {
        let rest = elems.drop_first();
        lemma_tuple_target(rest, x);
        lemma_targets_drop_first(elems);
        let k = choose|k: int| 0 <= k < targets_in_all(rest).len() && targets_in_all(rest)[k] == x;
        assert(targets_in_all(elems)[targets_in(elems[0]).len() + k] == x);
    }
}

proof fn lemma_targets_of_element(elems: Seq<Ty>, i: int, x: Ty)
    requires
        0 <= i < elems.len(),
        targets_in(elems[i]).contains(x),
    ensures
        targets_in_all(elems).contains(x),
    decreases elems.len(),
{
    let init = elems.drop_last();
    let head = targets_in_all(init);
    let tail = targets_in(elems.last());
    if i == elems.len() - 1 {
        let k = choose|k: int| 0 <= k < tail.len() && tail[k] == x;
        assert(targets_in_all(elems)[head.len() + k] == x);
    } else {
        lemma_targets_of_element(init, i, x);
        let k = choose|k: int| 0 <= k < head.len() && head[k] == x;
        assert(targets_in_all(elems)[k] == x);
    }
}

proof fn lemma_targets_drop_first(elems: Seq<Ty>)
    requires
        elems.len() > 0,
    ensures
        targets_in_all(elems) == targets_in(elems[0]) + targets_in_all(elems.drop_first()),
    decreases elems.len(),
{
    if elems.len() == 1 {
        assert(elems.drop_last() =~= Seq::empty());
        assert(elems.drop_first() =~= Seq::empty());
        assert(targets_in_all(elems) =~= targets_in(elems[0]) + targets_in_all(elems.drop_first()));
    } else {
        let init = elems.drop_last();
        lemma_targets_drop_first(init);
        assert(init.drop_first() =~= elems.drop_first().drop_last());
        assert(targets_in_all(elems) =~= targets_in(elems[0]) + targets_in_all(
            elems.drop_first(),
        ));
    }
}

} // verus!
