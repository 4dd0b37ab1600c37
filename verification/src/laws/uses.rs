//! Where names occur in types, and which fields are refused for what they hold.
use vstd::prelude::*;

use crate::derive::attr::{
    classify_attrs, has_attr, is_allow_deprecated, is_bstack_mut, is_bstack_static, kinds_in,
    lemma_kinds_grow, list_readings, named, parse_attr, parse_attr_text, read_metas, Attr,
};
use crate::derive::block::{
    beside_foreign, expand, first_use_problem, in_some, type_names, BlockPlan, Param,
};
use crate::derive::class::{expand_struct, expand_struct_text, Described};
use crate::derive::field::Field;
use crate::derive::kind::Kind;
use crate::derive::plan::{plan_field, FieldPlan};
use crate::derive::problem::Problem;
use crate::derive::shape::{
    check_container_nesting, dims_mention, dims_of, foreign_of, foreign_target, targets_in, unopt,
    validate_foreign_target,
};
use crate::derive::syntax::{meta_views, Meta};
use crate::derive::ty::{
    any_in, args_mention, mentions, texts, type_mentions_any, tys_mention, Arg, Ty,
};

use super::plans::{annotated, holds_type, is_made_of, written};
use super::shapes::{
    innermost, is_a, is_vector, lemma_innermost, lemma_is_a, lemma_length_names, lemma_lengths,
    length_names, lengths,
};

verus! {

/// Whether one of the names is among the parameters.
pub open spec fn names_one(names: Seq<String>, params: Seq<Seq<char>>) -> bool {
    exists|i: int| 0 <= i < names.len() && params.contains((#[trigger] names[i])@)
}

/// Whether one of the parameters occurs in this argument.
pub open spec fn in_argument(a: Arg, params: Seq<Seq<char>>) -> bool {
    match a {
        Arg::Type(t) => mentions(t, params),
        Arg::Other(names) => names_one(names@, params),
    }
}

proof fn lemma_args(args: Seq<Arg>, params: Seq<Seq<char>>)
    ensures
        args_mention(args, params) <==> exists|i: int|
            0 <= i < args.len() && in_argument(#[trigger] args[i], params),
    decreases args.len(),
{
    if args.len() > 0 {
        let init = args.drop_last();
        lemma_args(init, params);
        assert(args[args.len() - 1] == args.last());
        if exists|i: int| 0 <= i < init.len() && in_argument(#[trigger] init[i], params) {
            let i = choose|i: int| 0 <= i < init.len() && in_argument(#[trigger] init[i], params);
            assert(args[i] == init[i]);
        }
        if exists|i: int| 0 <= i < args.len() && in_argument(#[trigger] args[i], params) {
            let i = choose|i: int| 0 <= i < args.len() && in_argument(#[trigger] args[i], params);
            if i < init.len() {
                assert(init[i] == args[i]);
            }
        }
    }
}

proof fn lemma_tys(tys: Seq<Ty>, params: Seq<Seq<char>>)
    ensures
        tys_mention(tys, params) <==> exists|i: int|
            0 <= i < tys.len() && mentions(#[trigger] tys[i], params),
    decreases tys.len(),
{
    if tys.len() > 0 {
        let init = tys.drop_last();
        lemma_tys(init, params);
        assert(tys[tys.len() - 1] == tys.last());
        if exists|i: int| 0 <= i < init.len() && mentions(#[trigger] init[i], params) {
            let i = choose|i: int| 0 <= i < init.len() && mentions(#[trigger] init[i], params);
            assert(tys[i] == init[i]);
        }
        if exists|i: int| 0 <= i < tys.len() && mentions(#[trigger] tys[i], params) {
            let i = choose|i: int| 0 <= i < tys.len() && mentions(#[trigger] tys[i], params);
            if i < init.len() {
                assert(init[i] == tys[i]);
            }
        }
    }
}

/// A name occurs in a type where it is one of the names in it, or occurs in one of its parts.
pub proof fn law_a_name_occurs_in_a_part(ty: &Ty, params: &Vec<String>, r: bool)
    requires
        call_ensures(type_mentions_any, (ty, params), r),
    ensures
        r == mentions(*ty, texts(params@)),
        ({
            let ps = texts(params@);
            match *ty {
                Ty::Path { last, args, others } => r <==> ps.contains(last@) || names_one(
                    others@,
                    ps,
                ) || exists|i: int| 0 <= i < args@.len() && in_argument(#[trigger] args@[i], ps),
                Ty::Array { elem, len } => r <==> mentions(*elem, ps) || names_one(len.idents@, ps),
                Ty::Tuple { elems } => r <==> exists|i: int|
                    0 <= i < elems@.len() && mentions(#[trigger] elems@[i], ps),
                Ty::Reference { elem, others } => r <==> mentions(*elem, ps) || names_one(
                    others@,
                    ps,
                ),
                Ty::Other { others } => r <==> names_one(others@, ps),
            }
        }),
{
    let ps = texts(params@);
    match *ty {
        Ty::Path { last, args, others } => {
            lemma_args(args@, ps);
        },
        Ty::Tuple { elems } => {
            lemma_tys(elems@, ps);
        },
        _ => {},
    }
}

/// Whether an annotation is about ownership.
pub open spec fn is_ownership(a: Option<String>) -> bool {
    a matches Some(text) && (text@ == "bstack_owned"@ || text@ == "bstack_strong"@ || text@
        == "bstack_weak"@ || text@ == "bstack_ref"@ || text@ == "embed"@)
}

proof fn lemma_has_one(attrs: Seq<Option<String>>, i: int)
    requires
        0 <= i < attrs.len(),
        is_ownership(attrs[i]),
    ensures
        kinds_in(attrs).len() > 0,
{
    assert(attrs.take(i + 1).drop_last() =~= attrs.take(i));
    assert(attrs.take(i + 1).last() == attrs[i]);
    lemma_kinds_grow(attrs, i + 1);
}

proof fn lemma_has_two(attrs: Seq<Option<String>>, i: int, j: int)
    requires
        0 <= i < j < attrs.len(),
        is_ownership(attrs[i]),
        is_ownership(attrs[j]),
    ensures
        kinds_in(attrs).len() > 1,
{
    assert(attrs.take(j + 1).drop_last() =~= attrs.take(j));
    assert(attrs.take(j + 1).last() == attrs[j]);
    lemma_has_one(attrs.take(j), i);
    lemma_kinds_grow(attrs, j + 1);
}

proof fn lemma_one_there(attrs: Seq<Option<String>>) -> (i: int)
    requires
        kinds_in(attrs).len() > 0,
    ensures
        0 <= i < attrs.len(),
        is_ownership(attrs[i]),
    decreases attrs.len(),
{
    let init = attrs.drop_last();
    if is_ownership(attrs.last()) {
        attrs.len() - 1
    } else {
        lemma_one_there(init)
    }
}

proof fn lemma_two_there(attrs: Seq<Option<String>>) -> (w: (int, int))
    requires
        kinds_in(attrs).len() > 1,
    ensures
        0 <= w.0 < w.1 < attrs.len(),
        is_ownership(attrs[w.0]),
        is_ownership(attrs[w.1]),
    decreases attrs.len(),
{
    let init = attrs.drop_last();
    if is_ownership(attrs.last()) {
        (lemma_one_there(init), attrs.len() - 1)
    } else {
        lemma_two_there(init)
    }
}

/// A field is refused for its annotations exactly where two of them are about ownership, be they
/// the same or not.
pub proof fn law_two_owners_are_refused(attrs: &Vec<Option<String>>, r: Result<Kind, Problem>)
    requires
        call_ensures(classify_attrs, (attrs,), r),
    ensures
        r is Err <==> exists|i: int, j: int|
            0 <= i < j < attrs@.len() && is_ownership(#[trigger] attrs@[i]) && is_ownership(
                #[trigger] attrs@[j],
            ),
        r matches Err(p) ==> p == Problem::TooManyAnnotations,
{
    if r is Err {
        let w = lemma_two_there(attrs@);
        assert(is_ownership(attrs@[w.0]) && is_ownership(attrs@[w.1]));
    }
    if exists|i: int, j: int|
        0 <= i < j < attrs@.len() && is_ownership(#[trigger] attrs@[i]) && is_ownership(
            #[trigger] attrs@[j],
        ) {
        let (i, j) = choose|i: int, j: int|
            0 <= i < j < attrs@.len() && is_ownership(#[trigger] attrs@[i]) && is_ownership(
                #[trigger] attrs@[j],
            );
        lemma_has_two(attrs@, i, j);
    }
}

proof fn lemma_attr(attrs: Seq<Option<String>>, text: Seq<char>)
    ensures
        has_attr(attrs, text) <==> annotated(attrs, text),
{
    if has_attr(attrs, text) {
        let i = choose|i: int| 0 <= i < attrs.len() && named(#[trigger] attrs[i], text);
        assert(attrs[i] is Some);
    }
    if annotated(attrs, text) {
        let i = choose|i: int|
            0 <= i < attrs.len() && (#[trigger] attrs[i] matches Some(x) && x@ == text);
        assert(named(attrs[i], text));
    }
}

/// What is to be mutable, or a variable of the class, is annotated so.
pub proof fn law_marks_are_annotations(attrs: &Vec<Option<String>>, m: bool, s: bool)
    requires
        call_ensures(is_bstack_mut, (attrs,), m),
        call_ensures(is_bstack_static, (attrs,), s),
    ensures
        m <==> annotated(attrs@, "bstack_mut"@),
        s <==> annotated(attrs@, "bstack_static"@),
{
    lemma_attr(attrs@, "bstack_mut"@);
    lemma_attr(attrs@, "bstack_static"@);
}

/// An attribute lets warnings about deprecated items pass where it is one `allow(..)` that names
/// them.
pub proof fn law_deprecated_items_are_let_pass_by_name(metas: &Vec<Meta>, r: bool)
    requires
        call_ensures(is_allow_deprecated, (metas,), r),
    ensures
        r <==> metas@.len() == 1 && match metas@[0] {
            Meta::List(name, _, Some(names)) => name@ == "allow"@ && exists|i: int|
                0 <= i < names@.len() && (#[trigger] names@[i])@ == "deprecated"@,
            _ => false,
        },
{
    let views = meta_views(metas@);
    assert(views.len() == metas@.len());
    if metas@.len() == 1 {
        assert(views[0] == metas@[0]@);
        if let Meta::List(name, one, Some(names)) = metas@[0] {
            let all = texts(names@);
            assert(all.len() == names@.len());
            assert(forall|i: int| 0 <= i < all.len() ==> all[i] == (#[trigger] names@[i])@);
            if all.contains("deprecated"@) {
                let i = all.index_of("deprecated"@);
                assert(names@[i]@ == "deprecated"@);
            }
            if exists|i: int| 0 <= i < names@.len() && (#[trigger] names@[i])@ == "deprecated"@ {
                let i = choose|i: int|
                    0 <= i < names@.len() && (#[trigger] names@[i])@ == "deprecated"@;
                assert(all[i] == "deprecated"@);
            }
        }
    }
}

/// A list is read as one name where it is just one, without a comma, and as names where it is
/// names.
pub proof fn law_a_list_is_one_name_or_many(
    found: Option<(Vec<String>, bool)>,
    r: (Option<String>, Option<Vec<String>>),
)
    requires
        call_ensures(list_readings, (found,), r),
    ensures
        match found {
            None => r.0 is None && r.1 is None,
            Some(x) => {
                &&& r.0 is Some <==> x.0@.len() == 1 && !x.1
                &&& r.0 matches Some(one) ==> one@ == x.0@[0]@
                &&& r.1 matches Some(many) && texts(many@) == texts(x.0@)
            },
        },
{
    if let Some(x) = found {
        assert(texts(x.0@).len() == x.0@.len());
        assert(x.0@.len() > 0 ==> texts(x.0@)[0] == x.0@[0]@);
    }
}

/// What a text says is what the arguments in it say.
pub proof fn law_a_text_says_what_its_arguments_say(
    text: &str,
    metas: Result<Vec<Meta>, Problem>,
    r: Result<Attr, Problem>,
    q: Result<Attr, Problem>,
)
    requires
        call_ensures(read_metas, (text,), metas),
        call_ensures(parse_attr_text, (text,), r),
        metas matches Ok(m) ==> call_ensures(parse_attr, (m,), q),
    ensures
        metas matches Err(p) ==> (r matches Err(x) && x == p),
        metas is Ok ==> match (r, q) {
            (Ok(x), Ok(y)) => x.mode == y.mode && x.allow_overlong == y.allow_overlong
                && x.allow_coerced_ref == y.allow_coerced_ref && x.repr == y.repr,
            (Err(x), Err(y)) => x == y,
            _ => false,
        },
{
}

/// What is made of a described struct by a text is what is made of it by the arguments in it.
pub proof fn law_a_text_describes_what_its_arguments_describe(
    generic: bool,
    text: &str,
    allowed: bool,
    fields: &Vec<Field>,
    metas: Result<Vec<Meta>, Problem>,
    r: Result<Described, Problem>,
    q: Result<Described, Problem>,
)
    requires
        call_ensures(read_metas, (text,), metas),
        call_ensures(expand_struct_text, (generic, text, allowed, fields), r),
        metas matches Ok(m) ==> call_ensures(expand_struct, (generic, m, allowed, fields), q),
    ensures
        generic ==> (r matches Err(p) && p == Problem::GenericClass),
        !generic && metas is Err ==> (r matches Err(x) && x == metas->Err_0),
        !generic && metas is Ok ==> match (r, q) {
            (Ok(x), Ok(y)) => x.class.rc == y.class.rc && x.class.weak == y.class.weak
                && x.class.fields@.len() == y.class.fields@.len(),
            (Err(x), Err(y)) => x == y,
            _ => false,
        },
{
    if let (Ok(x), Ok(y)) = (r, q) {
        assert(crate::derive::class::all_forms(x.class.fields@).len() == x.class.fields@.len());
        assert(crate::derive::class::all_forms(y.class.fields@).len() == y.class.fields@.len());
    }
}

proof fn lemma_no_use_problem(fields: Seq<Field>, params: Seq<Seq<char>>, i: int)
    requires
        first_use_problem(fields, params) is None,
        0 <= i < fields.len(),
    ensures
        !beside_foreign(fields[i].ty, params),
    decreases fields.len(),
{
    if i < fields.len() - 1 {
        lemma_no_use_problem(fields.drop_last(), params, i);
        assert(fields.drop_last()[i] == fields[i]);
    }
}

/// In a field that leads to another file, a parameter of the struct stands behind the pointer or
/// nowhere.
pub proof fn law_no_parameter_stands_beside_a_pointer(
    attr: &Attr,
    allowed: bool,
    params: &Vec<Param>,
    fields: &Vec<Field>,
    b: BlockPlan,
    i: int,
    k: int,
)
    requires
        call_ensures(expand, (attr, allowed, params, fields), Ok(b)),
        0 <= i < fields@.len(),
        0 <= k < b.names.types@.len(),
        targets_in(fields@[i].ty).len() > 0,
        mentions(fields@[i].ty, seq![b.names.types@[k]@]),
    ensures
        exists|j: int|
            0 <= j < targets_in(fields@[i].ty).len() && mentions(
                #[trigger] targets_in(fields@[i].ty)[j],
                seq![b.names.types@[k]@],
            ),
{
    let types = type_names(params@);
    assert(texts(b.names.types@)[k] == b.names.types@[k]@);
    assert(types[k] == b.names.types@[k]@);
    lemma_no_use_problem(fields@, types, i);
    assert(in_some(targets_in(fields@[i].ty), types[k]));
}

/// Whether `Foreign` is named anywhere in a type.
pub open spec fn names_foreign(t: Ty) -> bool {
    mentions(t, seq!["Foreign"@])
}

/// A field is refused for how it nests, for a pointer to another file in an odd place, for one in
/// a container that is to be changed, and for one that cannot lead where it does.
pub proof fn law_a_field_is_refused_for_what_it_holds(
    f: &Field,
    consts: &Vec<String>,
    r: Result<FieldPlan, Problem>,
    t: Ty,
    kind: Result<Kind, Problem>,
    nesting: Result<(), Problem>,
    target: &Ty,
    leads: Result<(), Problem>,
)
    requires
        call_ensures(plan_field, (f, consts), r),
        holds_type(written(*f), t),
        call_ensures(classify_attrs, (&f.attrs,), kind),
        call_ensures(check_container_nesting, (&written(*f),), nesting),
        kind matches Ok(k) ==> call_ensures(validate_foreign_target, (k, target), leads),
    ensures
        kind matches Err(p) ==> (r matches Err(x) && x == p),
        kind is Ok && nesting is Err ==> (r matches Err(x) && x == nesting->Err_0),
        kind is Ok && nesting is Ok ==> {
            let w = written(*f);
            let odd = names_foreign(w) && foreign_target(w) is None;
            let held = annotated(f.attrs@, "bstack_mut"@) && names_foreign(w) && !is_a(
                t,
                "Foreign"@,
            );
            &&& odd ==> (r matches Err(p) && p == Problem::ForeignInOddPlace)
            &&& !odd && held ==> (r matches Err(p) && p == Problem::MutableForeignContainer)
            &&& !odd && !held && is_made_of(t, "Foreign"@, *target) ==> (r is Ok <==> leads is Ok)
                && (r matches Err(p) ==> leads matches Err(q) && p == q)
            &&& !odd && !held && !is_a(t, "Foreign"@) && !(t is Array) && !(t is Tuple) && !(w
                is Tuple) ==> r is Ok
        },
{
    lemma_attr(f.attrs@, "bstack_mut"@);
    lemma_is_a(written(*f));
    lemma_is_a(t);
    assert(t == unopt(written(*f)));
    assert(is_made_of(t, "Foreign"@, *target) ==> foreign_of(t) == Some(*target));
}

/// Whether a length of an array of arrays names one of the constants.
pub open spec fn is_product_of_names(t: Ty, consts: Seq<String>) -> bool {
    lengths(t).len() > 1 && exists|i: int|
        0 <= i < lengths(t).len() && length_names(#[trigger] lengths(t)[i], consts)
}

proof fn lemma_product(t: Ty, consts: Seq<String>)
    ensures
        is_product_of_names(t, consts) <==> dims_of(t).len() > 1 && dims_mention(
            dims_of(t),
            texts(consts),
        ),
{
    lemma_lengths(t);
    let dims = dims_of(t);
    if dims_mention(dims, texts(consts)) {
        let i = choose|i: int|
            0 <= i < dims.len() && any_in(#[trigger] dims[i].idents@, texts(consts));
        lemma_length_names(dims[i], consts);
        assert(length_names(lengths(t)[i], consts));
    }
    if is_product_of_names(t, consts) {
        let i = choose|i: int|
            0 <= i < lengths(t).len() && length_names(#[trigger] lengths(t)[i], consts);
        lemma_length_names(dims[i], consts);
        assert(any_in(dims[i].idents@, texts(consts)));
    }
}

/// The form of an array goes by its element: vectors, pointers to other files, or references and
/// blocks; plain bytes are kept whole. An array of arrays has no length that is a parameter, and
/// no `Option` is around an array.
pub proof fn law_the_form_of_an_array_goes_by_its_element(
    f: &Field,
    consts: &Vec<String>,
    r: Result<FieldPlan, Problem>,
    t: Ty,
    x: Ty,
    kind: Kind,
    target: &Ty,
    leads: Result<(), Problem>,
    nesting: Result<(), Problem>,
)
    requires
        call_ensures(plan_field, (f, consts), r),
        holds_type(written(*f), t),
        t is Array,
        holds_type(innermost(t), x),
        call_ensures(classify_attrs, (&f.attrs,), Ok(kind)),
        call_ensures(check_container_nesting, (&written(*f),), nesting),
        nesting is Ok,
        call_ensures(validate_foreign_target, (kind, target), leads),
        !(names_foreign(written(*f)) && foreign_target(written(*f)) is None),
        !(annotated(f.attrs@, "bstack_mut"@) && names_foreign(written(*f))),
    ensures
        ({
            let bad = is_product_of_names(t, consts@);
            let refused = r matches Err(p) && p == Problem::NestedConstArray;
            &&& is_vector(x) ==> if bad {
                refused
            } else {
                r matches Ok(p) && p.form is ListArray
            }
            &&& !is_vector(x) && is_made_of(x, "Foreign"@, *target) ==> if leads is Err {
                r matches Err(p) && p == leads->Err_0
            } else if bad {
                refused
            } else {
                r matches Ok(p) && p.form is ForeignArray
            }
            &&& !is_vector(x) && !is_a(x, "Foreign"@) && kind == Kind::Pod ==> (r matches Ok(p)
                && p.form is Scalar)
            &&& !is_vector(x) && !is_a(x, "Foreign"@) && kind != Kind::Pod ==> if x is Array {
                r matches Err(p) && p == Problem::OptionOfArray
            } else if bad {
                refused
            } else {
                r matches Ok(p) && p.form is BlockArray
            }
        }),
{
    lemma_attr(f.attrs@, "bstack_mut"@);
    lemma_is_a(written(*f));
    lemma_is_a(t);
    assert(t == unopt(written(*f)));
    lemma_innermost(t);
    lemma_is_a(innermost(t));
    lemma_is_a(x);
    assert(x == unopt(crate::derive::shape::peeled(t)));
    assert(is_made_of(x, "Foreign"@, *target) ==> foreign_of(x) == Some(*target));
    lemma_product(t, consts@);
}

/// A tuple with pointers to other files is one where they can lead where they do; any other tuple
/// is plain bytes, one reference or one block, by its kind.
pub proof fn law_the_form_of_a_tuple_goes_by_its_pointers(
    f: &Field,
    consts: &Vec<String>,
    r: Result<FieldPlan, Problem>,
    t: Ty,
    kind: Kind,
    target: &Ty,
    leads: Result<(), Problem>,
    nesting: Result<(), Problem>,
)
    requires
        call_ensures(plan_field, (f, consts), r),
        holds_type(written(*f), t),
        t is Tuple,
        kind == Kind::Pod ==> written(*f) == t,
        call_ensures(classify_attrs, (&f.attrs,), Ok(kind)),
        call_ensures(check_container_nesting, (&written(*f),), nesting),
        nesting is Ok,
        call_ensures(validate_foreign_target, (kind, target), leads),
        !(names_foreign(written(*f)) && foreign_target(written(*f)) is None),
        !(annotated(f.attrs@, "bstack_mut"@) && names_foreign(written(*f))),
    ensures
        foreign_target(t) == Some(*target) ==> if leads is Err {
            r matches Err(p) && p == leads->Err_0
        } else {
            r matches Ok(p) && p.form is ForeignTuple
        },
        foreign_target(t) is None ==> (r matches Ok(p) && if kind == Kind::Pod {
            p.form is PodTuple
        } else if kind == Kind::Embed {
            p.form is Embed
        } else {
            p.form is Scalar
        }),
{
    lemma_attr(f.attrs@, "bstack_mut"@);
    lemma_is_a(written(*f));
    lemma_is_a(t);
    assert(t == unopt(written(*f)));
}

} // verus!
