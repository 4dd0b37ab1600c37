//! The shapes of types: what is around what, which nestings are refused, and what a field leads
//! to.
use vstd::prelude::*;

use crate::derive::kind::Kind;
use crate::derive::problem::Problem;
use crate::derive::shape::{
    array_shape, check_container_nesting, check_vec_elem, derefs, dims_of, field_foreign_target,
    first_foreign, foreign_inner, foreign_of, foreign_targets_in, is_str, leaf, lens, option_inner,
    option_of, peeled, reject_bad_foreign_target, reject_nested_const_dims, targets_in,
    targets_in_all, unopt, validate_foreign_target, vec_info, vec_inner, vec_of, ArrayShape,
    VecInfo,
};
use crate::derive::ty::{texts, LenExpr, Ty};

use super::plans::{goes_by, holds_type, is_made_of, is_optional, lemma_option};

verus! {

proof fn lemma_inner(t: Ty)
    ensures
        forall|x: Ty| #[trigger] is_made_of(t, "Option"@, x) <==> option_of(t) == Some(x),
        forall|x: Ty| #[trigger] is_made_of(t, "Vec"@, x) <==> vec_of(t) == Some(x),
        forall|x: Ty| #[trigger] is_made_of(t, "Foreign"@, x) <==> foreign_of(t) == Some(x),
{
}

/// Whether `t` is `name<..>` with a type in it.
pub open spec fn is_a(t: Ty, name: Seq<char>) -> bool {
    exists|x: Ty| #[trigger] is_made_of(t, name, x)
}

pub(crate) proof fn lemma_is_a(t: Ty)
    ensures
        is_a(t, "Option"@) <==> option_of(t) is Some,
        is_a(t, "Vec"@) <==> vec_of(t) is Some,
        is_a(t, "Foreign"@) <==> foreign_of(t) is Some,
        is_optional(t) <==> option_of(t) is Some,
        holds_type(t, unopt(t)),
        forall|x: Ty| #[trigger] holds_type(t, x) ==> x == unopt(t),
{
    lemma_inner(t);
    lemma_option(t);
    if let Some(x) = option_of(t) {
        assert(is_made_of(t, "Option"@, x));
    }
    if let Some(x) = vec_of(t) {
        assert(is_made_of(t, "Vec"@, x));
    }
    if let Some(x) = foreign_of(t) {
        assert(is_made_of(t, "Foreign"@, x));
    }
}

/// What is inside an `Option`, a `Vec` or a `Foreign` is their first argument, and nothing is
/// inside anything else.
pub proof fn law_what_is_inside_is_the_first_argument(
    ty: &Ty,
    x: Ty,
    o: Option<&Ty>,
    v: Option<&Ty>,
    f: Option<&Ty>,
)
    requires
        call_ensures(option_inner, (ty,), o),
        call_ensures(vec_inner, (ty,), v),
        call_ensures(foreign_inner, (ty,), f),
    ensures
        (o matches Some(t) && *t == x) <==> is_made_of(*ty, "Option"@, x),
        (v matches Some(t) && *t == x) <==> is_made_of(*ty, "Vec"@, x),
        (f matches Some(t) && *t == x) <==> is_made_of(*ty, "Foreign"@, x),
{
    lemma_inner(*ty);
}

/// What a field leads to is what is behind every `&`, array, `Option`, `Vec` and `Foreign`.
pub proof fn law_a_field_leads_to_what_is_innermost(ty: &Ty, x: &Ty, r: &Ty, q: &Ty)
    requires
        call_ensures(leaf, (ty,), r),
        call_ensures(leaf, (x,), q),
    ensures
        is_made_of(*ty, "Option"@, *x) || is_made_of(*ty, "Vec"@, *x) || is_made_of(
            *ty,
            "Foreign"@,
            *x,
        ) ==> *r == *q,
        *ty matches Ty::Array { elem, len: _ } ==> *elem == *x ==> *r == *q,
        *ty matches Ty::Reference { elem, others: _ } ==> *elem == *x ==> *r == *q,
        !is_a(*ty, "Option"@) && !is_a(*ty, "Vec"@) && !is_a(*ty, "Foreign"@) && !(*ty is Array)
            && !(*ty is Reference) ==> *r == *ty,
{
    lemma_is_a(*ty);
}

/// A vector is a `Vec` of something, or a `String`; nothing else is.
pub proof fn law_a_vector_is_a_vec_or_a_string(ty: &Ty, r: Option<VecInfo>, s: bool)
    requires
        call_ensures(vec_info, (ty,), r),
        call_ensures(is_str, (ty,), s),
    ensures
        s == goes_by(*ty, "str"@),
        r matches Some(VecInfo::Text) <==> goes_by(*ty, "String"@),
        r matches Some(VecInfo::Of(t)) ==> is_made_of(*ty, "Vec"@, *t),
        r is None ==> !goes_by(*ty, "String"@) && !is_a(*ty, "Vec"@),
{
    lemma_inner(*ty);
    lemma_is_a(*ty);
}

/// What is inside an array of any depth.
pub open spec fn innermost(t: Ty) -> Ty
    decreases t,
{
    match t {
        Ty::Array { elem, len: _ } => innermost(*elem),
        other => other,
    }
}

pub(crate) proof fn lemma_innermost(t: Ty)
    ensures
        innermost(t) == peeled(t),
    decreases t,
{
    if let Ty::Array { elem, len } = t {
        lemma_innermost(*elem);
    }
}

/// Whether `t` is a vector.
pub open spec fn is_vector(t: Ty) -> bool {
    goes_by(t, "String"@) || is_a(t, "Vec"@)
}

/// An element of a vector can be stored unless it is in two `Option`s, or a vector, or a tuple.
pub proof fn law_elements_are_leaves(ty: &Ty, t: Ty, r: Result<(), Problem>)
    requires
        holds_type(innermost(*ty), t),
        call_ensures(check_vec_elem, (ty,), r),
    ensures
        r is Ok <==> !(is_optional(innermost(*ty)) && is_optional(t)) && !is_vector(t) && !(
        t is Tuple),
        r matches Err(p) ==> match p {
            Problem::DoubleOption => is_optional(innermost(*ty)) && is_optional(t),
            Problem::VecInVec => is_vector(t),
            Problem::TupleInVec => t is Tuple,
            _ => false,
        },
{
    lemma_innermost(*ty);
    lemma_is_a(peeled(*ty));
    lemma_is_a(t);
}

/// An `Option` is not in an `Option`, and what is in a `Vec` can be stored.
pub proof fn law_containers_nest_once(
    ty: &Ty,
    t: Ty,
    r: Result<(), Problem>,
    elem: &Ty,
    q: Result<(), Problem>,
)
    requires
        holds_type(*ty, t),
        call_ensures(check_container_nesting, (ty,), r),
        call_ensures(check_vec_elem, (elem,), q),
    ensures
        is_optional(*ty) && is_optional(t) ==> r == Err::<(), Problem>(Problem::DoubleOption),
        !(is_optional(*ty) && is_optional(t)) && is_made_of(t, "Vec"@, *elem) ==> (r is Ok <==> q
            is Ok) && (r is Err ==> r == q),
        !(is_optional(*ty) && is_optional(t)) && !is_a(t, "Vec"@) ==> r is Ok,
{
    lemma_is_a(*ty);
    lemma_is_a(t);
    lemma_inner(t);
}

/// A pointer to another file leads to a block: not to a pointer, something optional, a vector, an
/// array or a tuple.
pub proof fn law_a_pointer_leads_to_a_block(ty: &Ty, r: Result<(), Problem>)
    requires
        call_ensures(reject_bad_foreign_target, (ty,), r),
    ensures
        r is Ok <==> !is_a(*ty, "Foreign"@) && !is_a(*ty, "Option"@) && !is_vector(*ty)
            && !goes_by(*ty, "str"@) && !(*ty is Array) && !(*ty is Tuple),
        r matches Err(p) ==> match p {
            Problem::ForeignToForeign => is_a(*ty, "Foreign"@),
            Problem::ForeignToOptionalForeign => exists|x: Ty| #[trigger]
                is_made_of(*ty, "Option"@, x) && is_a(x, "Foreign"@),
            Problem::ForeignToOption => is_a(*ty, "Option"@),
            Problem::ForeignToVec => is_vector(*ty) || goes_by(*ty, "str"@),
            Problem::ForeignToArray => *ty is Array,
            Problem::ForeignToTuple => *ty is Tuple,
            _ => false,
        },
{
    lemma_is_a(*ty);
    lemma_inner(*ty);
    if let Some(x) = option_of(*ty) {
        assert(is_made_of(*ty, "Option"@, x));
        lemma_is_a(x);
    }
}

/// A pointer to another file says how it owns its block, and cannot lie around it.
pub proof fn law_a_pointer_says_how_it_owns(
    kind: Kind,
    ty: &Ty,
    r: Result<(), Problem>,
    q: Result<(), Problem>,
)
    requires
        call_ensures(validate_foreign_target, (kind, ty), r),
        call_ensures(reject_bad_foreign_target, (ty,), q),
    ensures
        kind == Kind::Pod ==> r == Err::<(), Problem>(Problem::UnannotatedForeign),
        kind == Kind::Embed ==> r == Err::<(), Problem>(Problem::EmbeddedForeign),
        kind != Kind::Pod && kind != Kind::Embed ==> (r is Ok <==> q is Ok) && (r is Err ==> r
            == q),
{
}

/// Whether `x` is what a pointer to another file leads to, where it is all of `t`.
pub open spec fn points_at(t: Ty, x: Ty) -> bool {
    exists|inner: Ty| #[trigger] holds_type(t, inner) && is_made_of(inner, "Foreign"@, x)
}

proof fn lemma_points_at(t: Ty, x: Ty)
    ensures
        points_at(t, x) <==> foreign_of(unopt(t)) == Some(x),
{
    lemma_is_a(t);
    lemma_inner(unopt(t));
    if points_at(t, x) {
        let inner = choose|inner: Ty| #[trigger]
            holds_type(t, inner) && is_made_of(inner, "Foreign"@, x);
        assert(inner == unopt(t));
    }
}

proof fn lemma_first(elems: Seq<Ty>)
    ensures
        match first_foreign(elems) {
            Some(x) => exists|i: int| 0 <= i < elems.len() && points_at(#[trigger] elems[i], x),
            None => forall|i: int, x: Ty|
                0 <= i < elems.len() ==> !(#[trigger] points_at(elems[i], x)),
        },
    decreases elems.len(),
{
    if elems.len() > 0 {
        let rest = elems.drop_first();
        lemma_first(rest);
        match foreign_of(unopt(elems[0])) {
            Some(x) => {
                lemma_points_at(elems[0], x);
            },
            None => {
                match first_foreign(rest) {
                    Some(x) => {
                        let i = choose|i: int|
                            0 <= i < rest.len() && points_at(#[trigger] rest[i], x);
                        assert(elems[i + 1] == rest[i]);
                    },
                    None => {
                        assert forall|i: int, x: Ty| 0 <= i < elems.len() implies !(
                        #[trigger] points_at(elems[i], x)) by {
                            if i == 0 {
                                lemma_points_at(elems[0], x);
                            } else {
                                assert(elems[i] == rest[i - 1]);
                            }
                        }
                    },
                }
            },
        }
    }
}

/// The target of a field that leads to another file is what its pointer leads to: the field
/// itself, the element of its vector or array, or an element of its tuple.
pub proof fn law_the_target_is_behind_the_pointer(ty: &Ty, t: Ty, r: Option<&Ty>, x: Ty)
    requires
        holds_type(*ty, t),
        call_ensures(field_foreign_target, (ty,), r),
    ensures
        is_made_of(t, "Foreign"@, x) ==> (r matches Some(y) && *y == x),
        !is_a(t, "Foreign"@) ==> {
            &&& is_a(t, "Vec"@) ==> forall|e: Ty| #[trigger]
                is_made_of(t, "Vec"@, e) ==> ((r matches Some(y) && *y == x) <==> points_at(e, x))
            &&& t is Array ==> ((r matches Some(y) && *y == x) <==> points_at(innermost(t), x))
            &&& t matches Ty::Tuple { elems } ==> {
                &&& r matches Some(y) ==> exists|i: int|
                    0 <= i < elems@.len() && points_at(#[trigger] elems@[i], *y)
                &&& r is None ==> forall|i: int|
                    0 <= i < elems@.len() ==> !points_at(#[trigger] elems@[i], x)
            }
            &&& !is_a(t, "Vec"@) && !(t is Array) && !(t is Tuple) ==> r is None
        },
{
    lemma_is_a(*ty);
    lemma_is_a(t);
    lemma_inner(t);
    assert(t == unopt(*ty));
    if let Some(e) = vec_of(t) {
        lemma_points_at(e, x);
    }
    lemma_innermost(t);
    lemma_points_at(peeled(t), x);
    if let Ty::Tuple { elems } = t {
        lemma_first(elems@);
    }
}

/// All targets of a field are found, in their order: those of a vector or an array are those of
/// its element, those of a tuple those of its elements one after another.
pub proof fn law_all_targets_are_found(ty: &Ty, t: Ty, r: Vec<&Ty>, e: &Ty, q: Vec<&Ty>)
    requires
        holds_type(*ty, t),
        call_ensures(foreign_targets_in, (ty,), r),
        call_ensures(foreign_targets_in, (e,), q),
    ensures
        forall|x: Ty| #[trigger]
            is_made_of(t, "Foreign"@, x) ==> r@.len() == 1 && *r@[0] == x,
        !is_a(t, "Foreign"@) && is_made_of(t, "Vec"@, *e) ==> same_types(r@, q@),
        t matches Ty::Array { elem, len: _ } ==> *elem == *e ==> same_types(r@, q@),
        !is_a(t, "Foreign"@) && !is_a(t, "Vec"@) && !(t is Array) && !(t is Tuple) ==> r@.len()
            == 0,
{
    lemma_is_a(*ty);
    lemma_is_a(t);
    lemma_inner(t);
    assert(t == unopt(*ty));
    assert(derefs(r@).len() == r@.len());
    assert(derefs(q@).len() == q@.len());
    assert(r@.len() > 0 ==> derefs(r@)[0] == *r@[0]);
    if derefs(r@) == derefs(q@) {
        assert forall|i: int| 0 <= i < r@.len() implies *(#[trigger] r@[i]) == *q@[i] by {
            assert(derefs(r@)[i] == *r@[i]);
            assert(derefs(q@)[i] == *q@[i]);
        }
    }
}

/// Whether these are the same types.
pub open spec fn same_types(a: Seq<&Ty>, b: Seq<&Ty>) -> bool {
    a.len() == b.len() && forall|i: int| 0 <= i < a.len() ==> *(#[trigger] a[i]) == *b[i]
}

/// The targets of a tuple are those of its first elements, and then those of the last.
pub proof fn law_targets_of_a_tuple_are_those_of_its_elements(
    all: &Ty,
    first: &Ty,
    last: &Ty,
    a: Vec<&Ty>,
    b: Vec<&Ty>,
    c: Vec<&Ty>,
)
    requires
        *all is Tuple,
        *first is Tuple,
        all->Tuple_elems@.len() > 0,
        first->Tuple_elems@ == all->Tuple_elems@.drop_last(),
        *last == all->Tuple_elems@.last(),
        call_ensures(foreign_targets_in, (all,), a),
        call_ensures(foreign_targets_in, (first,), b),
        call_ensures(foreign_targets_in, (last,), c),
    ensures
        a@.len() == b@.len() + c@.len(),
        forall|i: int| 0 <= i < b@.len() ==> *(#[trigger] b@[i]) == *a@[i],
        forall|i: int| 0 <= i < c@.len() ==> *(#[trigger] c@[i]) == *a@[b@.len() + i],
{
    lemma_is_a(*all);
    lemma_is_a(*first);
    assert(targets_in(*all) == targets_in_all(all->Tuple_elems@));
    assert(targets_in(*first) == targets_in_all(first->Tuple_elems@));
    assert(derefs(a@).len() == a@.len());
    assert(derefs(b@).len() == b@.len());
    assert(derefs(c@).len() == c@.len());
    assert forall|i: int| 0 <= i < b@.len() implies *(#[trigger] b@[i]) == *a@[i] by {
        assert(derefs(a@)[i] == *a@[i]);
        assert(derefs(b@)[i] == *b@[i]);
    }
    assert forall|i: int| 0 <= i < c@.len() implies *(#[trigger] c@[i]) == *a@[b@.len() + i] by {
        assert(derefs(a@)[b@.len() + i] == *a@[b@.len() + i]);
        assert(derefs(c@)[i] == *c@[i]);
    }
}

/// The lengths of an array of any depth, the outermost first.
pub open spec fn lengths(t: Ty) -> Seq<LenExpr>
    decreases t,
{
    match t {
        Ty::Array { elem, len } => seq![len] + lengths(*elem),
        _ => Seq::empty(),
    }
}

pub(crate) proof fn lemma_lengths(t: Ty)
    ensures
        lengths(t) == dims_of(t),
    decreases t,
{
    if let Ty::Array { elem, len } = t {
        lemma_lengths(*elem);
    }
}

/// An array of any depth has its lengths, the outermost first, and what is innermost; that can be
/// empty where it is an `Option`, but not an `Option` of an array.
pub proof fn law_an_array_has_its_lengths(ty: &Ty, t: Ty, r: Result<ArrayShape, Problem>)
    requires
        holds_type(innermost(*ty), t),
        call_ensures(array_shape, (ty,), r),
    ensures
        r is Err <==> t is Array,
        r matches Err(p) ==> p == Problem::OptionOfArray,
        r matches Ok(s) ==> {
            &&& *s.leaf == t
            &&& s.nullable == is_optional(innermost(*ty))
            &&& s.dims@.len() == lengths(*ty).len()
            &&& forall|i: int|
                0 <= i < s.dims@.len() ==> *(#[trigger] s.dims@[i]) == lengths(*ty)[i]
        },
{
    lemma_innermost(*ty);
    lemma_is_a(peeled(*ty));
    lemma_lengths(*ty);
    if let Ok(s) = r {
        assert(lens(s.dims@).len() == s.dims@.len());
        assert forall|i: int| 0 <= i < s.dims@.len() implies *(#[trigger] s.dims@[i]) == lengths(
            *ty,
        )[i] by {
            assert(lens(s.dims@)[i] == *s.dims@[i]);
        }
    }
}

/// Whether a length names one of these.
pub open spec fn length_names(len: LenExpr, params: Seq<String>) -> bool {
    exists|i: int, j: int|
        0 <= i < len.idents@.len() && 0 <= j < params.len() && #[trigger] len.idents@[i]@
            == #[trigger] params[j]@
}

pub(crate) proof fn lemma_length_names(len: LenExpr, params: Seq<String>)
    ensures
        crate::derive::ty::any_in(len.idents@, texts(params)) <==> length_names(len, params),
{
    if crate::derive::ty::any_in(len.idents@, texts(params)) {
        let i = choose|i: int|
            0 <= i < len.idents@.len() && texts(params).contains(#[trigger] len.idents@[i]@);
        let j = texts(params).index_of(len.idents@[i]@);
        assert(texts(params)[j] == params[j]@);
        assert(len.idents@[i]@ == params[j]@);
    }
    if length_names(len, params) {
        let (i, j) = choose|i: int, j: int|
            0 <= i < len.idents@.len() && 0 <= j < params.len() && #[trigger] len.idents@[i]@
                == #[trigger] params[j]@;
        assert(texts(params)[j] == params[j]@);
        assert(texts(params).contains(len.idents@[i]@));
    }
}

/// Of an array of arrays no length may name a parameter.
pub proof fn law_nested_lengths_name_no_parameter(
    dims: &Vec<&LenExpr>,
    params: &Vec<String>,
    r: Result<(), Problem>,
)
    requires
        call_ensures(reject_nested_const_dims, (dims, params), r),
    ensures
        r is Err <==> dims@.len() > 1 && exists|k: int|
            0 <= k < dims@.len() && length_names(*(#[trigger] dims@[k]), params@),
        r matches Err(p) ==> p == Problem::NestedConstArray,
{
    assert(lens(dims@).len() == dims@.len());
    assert forall|k: int| 0 <= k < dims@.len() implies (crate::derive::ty::any_in(
        (#[trigger] dims@[k]).idents@,
        texts(params@),
    ) <==> length_names(*dims@[k], params@)) by {
        lemma_length_names(*dims@[k], params@);
    }
    if crate::derive::shape::dims_mention(lens(dims@), texts(params@)) {
        let k = choose|k: int|
            0 <= k < lens(dims@).len() && crate::derive::ty::any_in(
                #[trigger] lens(dims@)[k].idents@,
                texts(params@),
            );
        assert(lens(dims@)[k] == *dims@[k]);
        assert(length_names(*dims@[k], params@));
    }
    if exists|k: int| 0 <= k < dims@.len() && length_names(*(#[trigger] dims@[k]), params@) {
        let k = choose|k: int|
            0 <= k < dims@.len() && length_names(*(#[trigger] dims@[k]), params@);
        assert(lens(dims@)[k] == *dims@[k]);
        assert(crate::derive::ty::any_in(lens(dims@)[k].idents@, texts(params@)));
    }
}

} // verus!
