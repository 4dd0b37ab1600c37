//! What is made of a struct: the plans of its fields, what its parameters have to be, and what a
//! schema says of it.
use vstd::prelude::*;

use crate::derive::attr::{has_attr, kind_of, kinds_in, Attr};
use crate::derive::block::{
    all_planned, const_names, expand, first_use_problem, in_some, plan_views, split_params,
    type_names, used, BlockPlan, Param, ParamNames,
};
use crate::derive::class::{
    all_forms, expand_struct, field_form, field_forms, field_shape, form, in_arrays, Described,
    Form, Shape,
};
use crate::derive::field::Field;
use crate::derive::kind::{Kind, Mode};
use crate::derive::plan::{plan_field, plan_view, planned, FieldPlan};
use crate::derive::problem::Problem;
use crate::derive::shape::{dims_of, foreign_target, peeled, targets_in, vec_of};
use crate::derive::syntax::{meta_views, Meta};
use crate::derive::ty::{mentions, texts, Ty};

use super::arguments::{all_known, says_word};
use super::plans::{
    annotated, goes_by, holds_type, is_made_of, is_optional, lemma_kinds, lemma_option, unannotated,
    word_for,
};
use super::shapes::{is_a, lemma_is_a};

verus! {

/// Whether this is the kind of a field, by its annotations.
pub open spec fn is_kind(f: Field, kind: Kind) -> bool {
    if kind == Kind::Pod {
        unannotated(f.attrs@)
    } else {
        annotated(f.attrs@, word_for(kind))
    }
}

proof fn lemma_is_kind(f: Field, kind: Kind)
    requires
        kind_of(f.attrs@) is Ok,
    ensures
        kind_of(f.attrs@) == Ok::<Kind, Problem>(kind) <==> is_kind(f, kind),
{
    lemma_kinds(f.attrs@);
    let kinds = kinds_in(f.attrs@);
    if kinds.len() == 1 {
        assert(kinds.contains(kinds[0]));
        assert(annotated(f.attrs@, word_for(kinds[0])));
        assert(kinds.contains(kind) ==> kind == kinds[0]);
    }
    if kinds.len() == 0 && kind != Kind::Pod {
        assert(!kinds.contains(kind));
        assert(!annotated(f.attrs@, word_for(kind)));
    }
}

/// Whether the parameter occurs in the field.
pub open spec fn occurs(f: Field, name: Seq<char>) -> bool {
    mentions(f.ty, seq![name])
}

/// Whether the parameter occurs behind a pointer to another file.
pub open spec fn occurs_far(f: Field, name: Seq<char>) -> bool {
    occurs(f, name) && exists|i: int|
        0 <= i < targets_in(f.ty).len() && mentions(#[trigger] targets_in(f.ty)[i], seq![name])
}

/// Whether the parameter occurs in some field of this kind.
pub open spec fn occurs_as(fields: Seq<Field>, name: Seq<char>, kind: Kind) -> bool {
    exists|i: int| 0 <= i < fields.len() && #[trigger] is_use(fields[i], name, kind)
}

/// Whether the field is of this kind, and the parameter occurs in it.
pub open spec fn is_use(f: Field, name: Seq<char>, kind: Kind) -> bool {
    is_kind(f, kind) && occurs(f, name)
}

/// Whether the parameter occurs in some field of this kind, and not behind a pointer to another
/// file.
pub open spec fn occurs_near(fields: Seq<Field>, name: Seq<char>, kind: Kind) -> bool {
    exists|i: int|
        0 <= i < fields.len() && #[trigger] is_use(fields[i], name, kind) && !occurs_far(
            fields[i],
            name,
        )
}

/// Whether the parameter occurs behind a pointer to another file, in some field of this kind.
pub open spec fn occurs_away(fields: Seq<Field>, name: Seq<char>, kind: Kind) -> bool {
    exists|i: int|
        0 <= i < fields.len() && #[trigger] is_use(fields[i], name, kind) && occurs_far(
            fields[i],
            name,
        )
}

/// Whether the parameter occurs behind a pointer to another file, in any field.
pub open spec fn any_away(fields: Seq<Field>, name: Seq<char>) -> bool {
    exists|i: int| 0 <= i < fields.len() && #[trigger] occurs_far(fields[i], name)
}

/// Whether every field has a kind.
spec fn have_kinds(fields: Seq<Field>) -> bool {
    forall|i: int| 0 <= i < fields.len() ==> kind_of((#[trigger] fields[i]).attrs@) is Ok
}

proof fn lemma_one_more_field(
    fields: Seq<Field>,
    f: Field,
    name: Seq<char>,
    kind: Kind,
)
    ensures
        occurs_as(fields.push(f), name, kind) <==> occurs_as(fields, name, kind) || is_use(
            f,
            name,
            kind,
        ),
        occurs_near(fields.push(f), name, kind) <==> occurs_near(fields, name, kind) || (is_use(
            f,
            name,
            kind,
        ) && !occurs_far(f, name)),
        occurs_away(fields.push(f), name, kind) <==> occurs_away(fields, name, kind) || (is_use(
            f,
            name,
            kind,
        ) && occurs_far(f, name)),
        any_away(fields.push(f), name) <==> any_away(fields, name) || occurs_far(f, name),
{
    let now = fields.push(f);
    let n = fields.len() as int;
    assert(now[n] == f);
    assert forall|i: int| 0 <= i < n implies now[i] == #[trigger] fields[i] by {}
    if occurs_as(fields, name, kind) {
        let i = choose|i: int| 0 <= i < n && #[trigger] is_use(fields[i], name, kind);
        assert(is_use(now[i], name, kind));
    }
    if occurs_near(fields, name, kind) {
        let i = choose|i: int|
            0 <= i < n && #[trigger] is_use(fields[i], name, kind) && !occurs_far(fields[i], name);
        assert(is_use(now[i], name, kind));
    }
    if occurs_away(fields, name, kind) {
        let i = choose|i: int|
            0 <= i < n && #[trigger] is_use(fields[i], name, kind) && occurs_far(fields[i], name);
        assert(is_use(now[i], name, kind));
    }
    if any_away(fields, name) {
        let i = choose|i: int| 0 <= i < n && #[trigger] occurs_far(fields[i], name);
        assert(occurs_far(now[i], name));
    }
    if is_use(f, name, kind) {
        assert(is_use(now[n], name, kind));
    }
    if occurs_far(f, name) {
        assert(occurs_far(now[n], name));
    }
    if occurs_as(now, name, kind) && !is_use(f, name, kind) {
        let i = choose|i: int| 0 <= i <= n && #[trigger] is_use(now[i], name, kind);
        assert(is_use(fields[i], name, kind));
    }
    if occurs_near(now, name, kind) && !(is_use(f, name, kind) && !occurs_far(f, name)) {
        let i = choose|i: int|
            0 <= i <= n && #[trigger] is_use(now[i], name, kind) && !occurs_far(now[i], name);
        assert(is_use(fields[i], name, kind));
    }
    if occurs_away(now, name, kind) && !(is_use(f, name, kind) && occurs_far(f, name)) {
        let i = choose|i: int|
            0 <= i <= n && #[trigger] is_use(now[i], name, kind) && occurs_far(now[i], name);
        assert(is_use(fields[i], name, kind));
    }
    if any_away(now, name) && !occurs_far(f, name) {
        let i = choose|i: int| 0 <= i <= n && #[trigger] occurs_far(now[i], name);
        assert(occurs_far(fields[i], name));
    }
}

proof fn lemma_used(fields: Seq<Field>, name: Seq<char>)
    requires
        have_kinds(fields),
    ensures
        ({
            let u = used(fields, name);
            &&& u.pod <==> occurs_near(fields, name, Kind::Pod)
            &&& u.strong <==> occurs_as(fields, name, Kind::Strong)
            &&& u.weak <==> occurs_as(fields, name, Kind::Weak)
            &&& u.embed <==> occurs_near(fields, name, Kind::Embed)
            &&& u.in_ondisk <==> occurs_near(fields, name, Kind::Pod) || occurs_near(
                fields,
                name,
                Kind::Embed,
            )
            &&& u.foreign_owned <==> occurs_away(fields, name, Kind::Owned)
            &&& u.foreign <==> any_away(fields, name)
            &&& u.blockish <==> occurs_as(fields, name, Kind::Owned) || occurs_as(
                fields,
                name,
                Kind::Strong,
            ) || occurs_as(fields, name, Kind::Weak) || occurs_as(fields, name, Kind::Ref)
                || occurs_as(fields, name, Kind::Embed) || occurs_away(fields, name, Kind::Pod)
        }),
    decreases fields.len(),
{
    if fields.len() > 0 {
        let init = fields.drop_last();
        let f = fields.last();
        assert(fields =~= init.push(f));
        assert(fields[fields.len() - 1] == f);
        assert forall|i: int| 0 <= i < init.len() implies kind_of(
            (#[trigger] init[i]).attrs@,
        ) is Ok by {
            assert(init[i] == fields[i]);
        }
        lemma_used(init, name);
        lemma_one_more_field(init, f, name, Kind::Pod);
        lemma_one_more_field(init, f, name, Kind::Owned);
        lemma_one_more_field(init, f, name, Kind::Strong);
        lemma_one_more_field(init, f, name, Kind::Weak);
        lemma_one_more_field(init, f, name, Kind::Ref);
        lemma_one_more_field(init, f, name, Kind::Embed);
        lemma_is_kind(f, Kind::Pod);
        lemma_is_kind(f, Kind::Owned);
        lemma_is_kind(f, Kind::Strong);
        lemma_is_kind(f, Kind::Weak);
        lemma_is_kind(f, Kind::Ref);
        lemma_is_kind(f, Kind::Embed);
        assert(in_some(targets_in(f.ty), name) && occurs(f, name) <==> occurs_far(f, name)) by {
            if in_some(targets_in(f.ty), name) {
                let i = choose|i: int|
                    0 <= i < targets_in(f.ty).len() && mentions(
                        #[trigger] targets_in(f.ty)[i],
                        seq![name],
                    );
                assert(mentions(targets_in(f.ty)[i], seq![name]));
            }
        }
    }
}

proof fn lemma_no_use_problem(fields: Seq<Field>, params: Seq<Seq<char>>)
    requires
        first_use_problem(fields, params) is None,
    ensures
        have_kinds(fields),
    decreases fields.len(),
{
    if fields.len() > 0 {
        let init = fields.drop_last();
        lemma_no_use_problem(init, params);
        assert forall|i: int| 0 <= i < fields.len() implies kind_of(
            (#[trigger] fields[i]).attrs@,
        ) is Ok by {
            if i < init.len() {
                assert(init[i] == fields[i]);
            }
        }
    }
}

/// What a type parameter has to be goes by where it occurs: plain bytes where it occurs in plain
/// bytes, and else a block; a counted one behind a strong reference, one with weak references
/// behind a weak one, one that can be copied behind an owner in another file, and one that can
/// lie in another where it does. The layout depends on it where it lies in the block itself.
pub proof fn law_a_parameter_is_what_its_uses_need(
    attr: &Attr,
    allowed: bool,
    params: &Vec<Param>,
    fields: &Vec<Field>,
    b: BlockPlan,
    k: int,
)
    requires
        call_ensures(expand, (attr, allowed, params, fields), Ok(b)),
        0 <= k < b.names.types@.len(),
    ensures
        b.types@.len() == b.names.types@.len(),
        ({
            let name = b.names.types@[k]@;
            let p = b.types@[k];
            let inline = occurs_near(fields@, name, Kind::Pod) || occurs_near(
                fields@,
                name,
                Kind::Embed,
            );
            let pod = occurs_near(fields@, name, Kind::Pod);
            &&& p.bounds.pod <==> pod
            &&& p.bounds.block <==> !pod
            &&& p.bounds.shared <==> !pod && occurs_as(fields@, name, Kind::Strong)
            &&& p.bounds.weakable <==> !pod && occurs_as(fields@, name, Kind::Weak)
            &&& p.bounds.clonable <==> !pod && occurs_away(fields@, name, Kind::Owned)
            &&& p.bounds.embeddable <==> !pod && occurs_near(fields@, name, Kind::Embed)
            &&& p.bounds.lasting <==> inline || any_away(fields@, name)
            &&& p.on_disk <==> inline
            &&& pod ==> !occurs_as(fields@, name, Kind::Owned) && !occurs_as(
                fields@,
                name,
                Kind::Strong,
            ) && !occurs_as(fields@, name, Kind::Weak) && !occurs_as(fields@, name, Kind::Ref)
                && !occurs_as(fields@, name, Kind::Embed)
        }),
{
    let types = type_names(params@);
    lemma_no_use_problem(fields@, types);
    assert(texts(b.names.types@)[k] == b.names.types@[k]@);
    assert(types[k] == b.names.types@[k]@);
    lemma_used(fields@, types[k]);
}

/// The layout depends on a constant parameter that occurs in a field, and on no other.
pub proof fn law_a_constant_counts_where_it_occurs(
    attr: &Attr,
    allowed: bool,
    params: &Vec<Param>,
    fields: &Vec<Field>,
    b: BlockPlan,
    k: int,
)
    requires
        call_ensures(expand, (attr, allowed, params, fields), Ok(b)),
        0 <= k < b.names.consts@.len(),
    ensures
        b.consts@.len() == b.names.consts@.len(),
        b.consts@[k] <==> exists|i: int|
            0 <= i < fields@.len() && occurs(#[trigger] fields@[i], b.names.consts@[k]@),
{
    let consts = const_names(params@);
    assert(texts(b.names.consts@)[k] == b.names.consts@[k]@);
    assert(consts[k] == b.names.consts@[k]@);
    if b.consts@[k] {
        let i = choose|i: int|
            0 <= i < fields@.len() && mentions((#[trigger] fields@[i]).ty, seq![consts[k]]);
        assert(occurs(fields@[i], consts[k]));
    }
}

proof fn lemma_plans(fields: Seq<Field>, consts: Seq<Seq<char>>, i: int)
    requires
        all_planned(fields, consts) is Ok,
        0 <= i < fields.len(),
    ensures
        all_planned(fields, consts)->Ok_0.len() == fields.len(),
        planned(fields[i], consts) is Ok,
        all_planned(fields, consts)->Ok_0[i] == planned(fields[i], consts)->Ok_0,
    decreases fields.len(),
{
    let init = fields.drop_last();
    lemma_plans_len(init, consts);
    if i < init.len() {
        lemma_plans(init, consts, i);
        assert(init[i] == fields[i]);
    }
}

proof fn lemma_plans_len(fields: Seq<Field>, consts: Seq<Seq<char>>)
    requires
        all_planned(fields, consts) is Ok,
    ensures
        all_planned(fields, consts)->Ok_0.len() == fields.len(),
    decreases fields.len(),
{
    if fields.len() > 0 {
        lemma_plans_len(fields.drop_last(), consts);
    }
}

/// What is made of a struct is what is made of each of its fields; it can be copied and lie in
/// another where it is not counted; and there is a warning exactly where a field was written as a
/// reference and that was not let pass.
pub proof fn law_a_struct_is_made_of_its_fields(
    attr: &Attr,
    allowed: bool,
    params: &Vec<Param>,
    fields: &Vec<Field>,
    b: BlockPlan,
    i: int,
    p: Result<FieldPlan, Problem>,
)
    requires
        call_ensures(expand, (attr, allowed, params, fields), Ok(b)),
        0 <= i < fields@.len(),
        call_ensures(plan_field, (&fields@[i], &b.names.consts), p),
    ensures
        attr.repr is None,
        params@.len() > 0 ==> attr.mode == Mode::Plain,
        b.standalone <==> attr.mode == Mode::Plain,
        b.fields@.len() == fields@.len(),
        p matches Ok(x) && {
            let f = b.fields@[i];
            &&& f.kind == x.kind
            &&& f.nullable == x.nullable
            &&& f.mutable == x.mutable
            &&& f.coerced == x.coerced
            &&& plan_view(f).form == plan_view(x).form
        },
        b.warns_of_reference ==> !attr.allow_coerced_ref && !allowed && exists|j: int|
            0 <= j < fields@.len() && (#[trigger] fields@[j]).ty is Reference,
        fields@[i].ty is Reference && !attr.allow_coerced_ref && !allowed ==> b.warns_of_reference,
{
    let consts = const_names(params@);
    lemma_plans(fields@, consts, i);
    let plans = all_planned(fields@, consts)->Ok_0;
    assert(plan_views(b.fields@) == plans);
    assert(plan_views(b.fields@).len() == b.fields@.len());
    assert(plan_views(b.fields@)[i] == plan_view(b.fields@[i]));
    if b.warns_of_reference {
        let m = choose|m: int| 0 <= m < plans.len() && (#[trigger] plans[m]).coerced;
        lemma_plans(fields@, consts, m);
        assert(fields@[m].ty is Reference);
    }
    if fields@[i].ty is Reference {
        assert(plans[i].coerced);
    }
}

/// A struct is refused for a reason: an integer type was asked for, a parameter is a lifetime, a
/// counted struct has parameters, a parameter stands beside a pointer to another file or is both
/// plain bytes and a block, or one of the fields is refused.
pub proof fn law_a_struct_is_refused_for_a_reason(
    attr: &Attr,
    allowed: bool,
    params: &Vec<Param>,
    fields: &Vec<Field>,
    p: Problem,
)
    requires
        call_ensures(expand, (attr, allowed, params, fields), Err(p)),
    ensures
        attr.repr is Some ==> p == Problem::ReprOnStruct,
        attr.repr is Some || (exists|i: int|
            0 <= i < params@.len() && #[trigger] params@[i] is Lifetime) || (params@.len() > 0
            && attr.mode != Mode::Plain) || (exists|i: int|
            0 <= i < fields@.len() && field_refused(#[trigger] fields@[i], params@, p)) || p
            == Problem::GenericPodAndBlock,
{
    let types = type_names(params@);
    let consts = const_names(params@);
    if first_use_problem(fields@, types) is Some {
        lemma_first_problem(fields@, types, params@);
    } else if all_planned(fields@, consts) is Err {
        lemma_first_refusal(fields@, consts, params@);
    }
}

/// Whether the field is refused with this problem: for its annotations, for what stands beside a
/// pointer to another file, or for its type.
pub open spec fn field_refused(f: Field, params: Seq<Param>, p: Problem) -> bool {
    ||| kind_of(f.attrs@) == Err::<Kind, Problem>(p)
    ||| p == Problem::GenericBesideForeign && targets_in(f.ty).len() > 0
    ||| planned(f, const_names(params)) matches Err(q) && q == p
}

proof fn lemma_first_problem(fields: Seq<Field>, types: Seq<Seq<char>>, params: Seq<Param>)
    requires
        first_use_problem(fields, types) is Some,
    ensures
        exists|i: int|
            0 <= i < fields.len() && field_refused(
                #[trigger] fields[i],
                params,
                first_use_problem(fields, types)->0,
            ),
    decreases fields.len(),
{
    let init = fields.drop_last();
    if first_use_problem(init, types) is Some {
        lemma_first_problem(init, types, params);
        let i = choose|i: int|
            0 <= i < init.len() && field_refused(
                #[trigger] init[i],
                params,
                first_use_problem(init, types)->0,
            );
        assert(fields[i] == init[i]);
    } else {
        assert(fields[fields.len() - 1] == fields.last());
    }
}

proof fn lemma_first_refusal(fields: Seq<Field>, consts: Seq<Seq<char>>, params: Seq<Param>)
    requires
        all_planned(fields, consts) is Err,
        consts == const_names(params),
    ensures
        exists|i: int|
            0 <= i < fields.len() && field_refused(
                #[trigger] fields[i],
                params,
                all_planned(fields, consts)->Err_0,
            ),
    decreases fields.len(),
{
    let init = fields.drop_last();
    if all_planned(init, consts) is Err {
        lemma_first_refusal(init, consts, params);
        let i = choose|i: int|
            0 <= i < init.len() && field_refused(
                #[trigger] init[i],
                params,
                all_planned(init, consts)->Err_0,
            );
        assert(fields[i] == init[i]);
    } else {
        assert(fields[fields.len() - 1] == fields.last());
    }
}

/// Parameters are sorted by what they are, and keep their order.
pub proof fn law_parameters_keep_their_order(
    params: &Vec<Param>,
    init: &Vec<Param>,
    r: ParamNames,
    q: ParamNames,
)
    requires
        params@.len() > 0,
        init@ == params@.drop_last(),
        call_ensures(split_params, (params,), r),
        call_ensures(split_params, (init,), q),
    ensures
        match params@.last() {
            Param::Lifetime => r.lifetime && r.types@.len() == q.types@.len() && r.consts@.len()
                == q.consts@.len(),
            Param::Type(s) => r.lifetime == q.lifetime && r.types@.len() == q.types@.len() + 1
                && r.types@.last()@ == s@ && r.consts@.len() == q.consts@.len(),
            Param::Const(s) => r.lifetime == q.lifetime && r.types@.len() == q.types@.len()
                && r.consts@.len() == q.consts@.len() + 1 && r.consts@.last()@ == s@,
        },
        forall|i: int| 0 <= i < q.types@.len() ==> (#[trigger] q.types@[i])@ == r.types@[i]@,
        forall|i: int| 0 <= i < q.consts@.len() ==> (#[trigger] q.consts@[i])@ == r.consts@[i]@,
{
    let n = params@.len() - 1;
    assert(texts(r.types@).len() == r.types@.len());
    assert(texts(q.types@).len() == q.types@.len());
    assert(texts(r.consts@).len() == r.consts@.len());
    assert(texts(q.consts@).len() == q.consts@.len());
    assert(forall|i: int|
        0 <= i < r.types@.len() ==> texts(r.types@)[i] == #[trigger] r.types@[i]@);
    assert(forall|i: int|
        0 <= i < q.types@.len() ==> texts(q.types@)[i] == #[trigger] q.types@[i]@);
    assert(forall|i: int|
        0 <= i < r.consts@.len() ==> texts(r.consts@)[i] == #[trigger] r.consts@[i]@);
    assert(forall|i: int|
        0 <= i < q.consts@.len() ==> texts(q.consts@)[i] == #[trigger] q.consts@[i]@);
    if params@[n] is Lifetime {
        assert(crate::derive::block::has_lifetime(params@));
    }
    if crate::derive::block::has_lifetime(init@) {
        let i = choose|i: int| 0 <= i < init@.len() && #[trigger] init@[i] is Lifetime;
        assert(params@[i] is Lifetime);
    }
    if crate::derive::block::has_lifetime(params@) && !(params@[n] is Lifetime) {
        let i = choose|i: int| 0 <= i < params@.len() && #[trigger] params@[i] is Lifetime;
        assert(init@[i] is Lifetime);
    }
}

/// Without parameters there are none of any sort.
pub proof fn law_no_parameters_are_none(params: &Vec<Param>, r: ParamNames)
    requires
        params@.len() == 0,
        call_ensures(split_params, (params,), r),
    ensures
        r.types@.len() == 0,
        r.consts@.len() == 0,
        !r.lifetime,
{
    assert(texts(r.types@).len() == r.types@.len());
    assert(texts(r.consts@).len() == r.consts@.len());
}

/// Whether `s` is the shape of something that is no container: plain bytes, or a block of its
/// kind.
pub open spec fn is_leaf(s: Form, kind: Kind, t: Ty) -> bool {
    if kind == Kind::Pod {
        s == Form::Pod(t)
    } else {
        s == Form::Block(kind, t)
    }
}

/// Whether the field leads to another file.
pub open spec fn leads_far(f: Field) -> bool {
    foreign_target(f.ty) is Some
}

/// A schema says of a field what it holds: bytes of a text, a list of what a vector holds, plain
/// bytes, or a block of the kind of the field. It says nothing of a variable of the class, of a
/// pointer to another file, or of a tuple.
pub proof fn law_a_schema_says_what_a_field_holds(
    f: &Field,
    kind: Kind,
    r: Result<Shape, Problem>,
)
    requires
        call_ensures(field_shape, (f,), r),
        kind_of(f.attrs@) is Ok,
        is_kind(*f, kind),
    ensures
        annotated(f.attrs@, "bstack_static"@) ==> (r matches Err(p) && p == Problem::ClassVariable),
        leads_far(*f) && !annotated(f.attrs@, "bstack_static"@) ==> (r matches Err(p) && p
            == Problem::ForeignInClass),
        !leads_far(*f) && !annotated(f.attrs@, "bstack_static"@) && !is_optional(f.ty) ==> {
            &&& goes_by(f.ty, "String"@) ==> (r matches Ok(s) && form(s) == Form::List(
                Box::new(Form::Byte),
            ))
            &&& forall|e: Ty| #[trigger]
                is_made_of(f.ty, "Vec"@, e) && !goes_by(f.ty, "String"@) ==> if e is Tuple {
                    r matches Err(p) && p == Problem::TupleInClass
                } else {
                    r matches Ok(s) && (form(s) matches Form::List(x) && is_leaf(*x, kind, e))
                }
            &&& f.ty is Tuple ==> (r matches Err(p) && p == Problem::TupleInClass)
            &&& !goes_by(f.ty, "String"@) && !is_a(f.ty, "Vec"@) && !(f.ty is Array) && !(
            f.ty is Tuple) ==> (r matches Ok(s) && is_leaf(form(s), kind, f.ty))
        },
{
    lemma_is_kind(*f, kind);
    lemma_option(f.ty);
    lemma_is_a(f.ty);
    assert(has_attr(f.attrs@, "bstack_static"@) <==> annotated(f.attrs@, "bstack_static"@)) by {
        if has_attr(f.attrs@, "bstack_static"@) {
            let i = choose|i: int|
                0 <= i < f.attrs@.len() && crate::derive::attr::named(
                    #[trigger] f.attrs@[i],
                    "bstack_static"@,
                );
            assert(f.attrs@[i] is Some);
        }
        if annotated(f.attrs@, "bstack_static"@) {
            let i = choose|i: int|
                0 <= i < f.attrs@.len() && (#[trigger] f.attrs@[i] matches Some(text) && text@
                    == "bstack_static"@);
            assert(crate::derive::attr::named(f.attrs@[i], "bstack_static"@));
        }
    }
    assert(forall|e: Ty| #[trigger] is_made_of(f.ty, "Vec"@, e) ==> vec_of(f.ty) == Some(e));
    if let Ok(s) = r {
        reveal_with_fuel(form, 3);
    }
}

/// A schema says of an optional field that it is optional, and else the same as of the field
/// without the `Option`.
pub proof fn law_a_schema_says_what_is_optional(
    f: &Field,
    g: &Field,
    r: Result<Shape, Problem>,
    q: Result<Shape, Problem>,
)
    requires
        f.attrs@ == g.attrs@,
        is_made_of(f.ty, "Option"@, g.ty),
        !is_optional(g.ty),
        call_ensures(field_shape, (f,), r),
        call_ensures(field_shape, (g,), q),
    ensures
        match (r, q) {
            (Ok(s), Ok(x)) => form(s) == Form::Optional(Box::new(form(x))),
            (Err(s), Err(x)) => s == x,
            _ => false,
        },
{
    lemma_option(f.ty);
    lemma_option(g.ty);
}

/// A schema says of an array how long it is, outermost first, and then what it holds.
pub proof fn law_a_schema_says_how_long_an_array_is(
    f: &Field,
    g: &Field,
    r: Result<Shape, Problem>,
    q: Result<Shape, Problem>,
)
    requires
        f.attrs@ == g.attrs@,
        f.ty matches Ty::Array { elem, len: _ } && *elem == g.ty,
        g.ty is Array,
        call_ensures(field_shape, (f,), r),
        call_ensures(field_shape, (g,), q),
    ensures
        match (r, q) {
            (Ok(s), Ok(x)) => form(s) == Form::Array(f.ty->Array_len, Box::new(form(x))),
            (Err(s), Err(x)) => s == x,
            _ => false,
        },
{
    lemma_option(f.ty);
    lemma_option(g.ty);
    let dims = dims_of(f.ty);
    assert(dims.drop_first() =~= dims_of(g.ty));
    assert(dims[0] == f.ty->Array_len);
    assert(peeled(f.ty) == peeled(g.ty));
    assert(foreign_target(f.ty) == foreign_target(g.ty));
    assert(forall|x: Form|
        #![trigger in_arrays(dims, x)]
        in_arrays(dims, x) == Form::Array(dims[0], Box::new(in_arrays(dims_of(g.ty), x))));
}

/// A schema says of an array what its elements are, and whether they are optional.
pub proof fn law_a_schema_says_what_an_array_holds(
    f: &Field,
    kind: Kind,
    x: Ty,
    r: Result<Shape, Problem>,
)
    requires
        call_ensures(field_shape, (f,), r),
        kind_of(f.attrs@) is Ok,
        is_kind(*f, kind),
        f.ty matches Ty::Array { elem, len: _ } && !(*elem is Array) && holds_type(*elem, x),
        !leads_far(*f),
        !annotated(f.attrs@, "bstack_static"@),
    ensures
        x is Array ==> (r matches Err(p) && p == Problem::OptionOfArray),
        x is Tuple ==> (r matches Err(p) && p == Problem::TupleInClass),
        !(x is Array) && !(x is Tuple) ==> (r matches Ok(s) && (form(s) matches Form::Array(n, e)
            && n == f.ty->Array_len && if is_optional(*f.ty->Array_elem) {
            *e matches Form::Optional(y) && is_leaf(*y, kind, x)
        } else {
            is_leaf(*e, kind, x)
        })),
{
    lemma_is_kind(*f, kind);
    lemma_option(f.ty);
    let elem = *f.ty->Array_elem;
    lemma_is_a(elem);
    lemma_is_a(f.ty);
    assert(peeled(f.ty) == peeled(elem));
    assert(peeled(elem) == elem);
    let dims = dims_of(f.ty);
    assert(dims_of(elem) =~= Seq::empty());
    assert(dims =~= seq![f.ty->Array_len]);
    assert(dims.drop_first() =~= Seq::empty());
    assert(forall|y: Form|
        #![trigger in_arrays(dims, y)]
        in_arrays(dims, y) == Form::Array(dims[0], Box::new(in_arrays(dims.drop_first(), y))));
    assert(forall|y: Form|
        #![trigger in_arrays(dims.drop_first(), y)]
        in_arrays(dims.drop_first(), y) == y);
    assert(has_attr(f.attrs@, "bstack_static"@) ==> annotated(f.attrs@, "bstack_static"@)) by {
        if has_attr(f.attrs@, "bstack_static"@) {
            let i = choose|i: int|
                0 <= i < f.attrs@.len() && crate::derive::attr::named(
                    #[trigger] f.attrs@[i],
                    "bstack_static"@,
                );
            assert(f.attrs@[i] is Some);
        }
    }
}

proof fn lemma_shapes(fields: Seq<Field>, i: int)
    requires
        field_forms(fields) is Ok,
        0 <= i < fields.len(),
    ensures
        field_forms(fields)->Ok_0.len() == fields.len(),
        field_form(fields[i].attrs@, fields[i].ty) == Ok::<Form, Problem>(
            field_forms(fields)->Ok_0[i],
        ),
    decreases fields.len(),
{
    let init = fields.drop_last();
    lemma_shapes_len(init);
    if i < init.len() {
        lemma_shapes(init, i);
        assert(init[i] == fields[i]);
    }
}

proof fn lemma_shapes_len(fields: Seq<Field>)
    requires
        field_forms(fields) is Ok,
    ensures
        field_forms(fields)->Ok_0.len() == fields.len(),
    decreases fields.len(),
{
    if fields.len() > 0 {
        lemma_shapes_len(fields.drop_last());
    }
}

/// A schema says of a struct whether it is counted, whether it has weak references, and the shape
/// of each field; a struct with parameters has none.
pub proof fn law_a_schema_says_what_a_struct_holds(
    generic: bool,
    metas: Vec<Meta>,
    allowed: bool,
    fields: &Vec<Field>,
    r: Result<Described, Problem>,
    i: int,
    s: Result<Shape, Problem>,
)
    requires
        call_ensures(expand_struct, (generic, metas, allowed, fields), r),
        0 <= i < fields@.len(),
        call_ensures(field_shape, (&fields@[i],), s),
    ensures
        generic ==> (r matches Err(p) && p == Problem::GenericClass),
        r matches Ok(d) ==> {
            let ms = meta_views(metas@);
            &&& all_known(ms)
            &&& d.class.rc <==> says_word(ms, "rc"@)
            &&& d.class.weak <==> says_word(ms, "weak"@)
            &&& d.class.fields@.len() == fields@.len()
            &&& s matches Ok(x) && form(d.class.fields@[i]) == form(x)
            &&& d.block.fields@.len() == fields@.len()
            &&& d.block.standalone <==> !says_word(ms, "rc"@)
        },
{
    if let Ok(d) = r {
        super::arguments::lemma_said(meta_views(metas@));
        lemma_shapes(fields@, i);
        let shapes = field_forms(fields@)->Ok_0;
        assert(all_forms(d.class.fields@).len() == d.class.fields@.len());
        assert(all_forms(d.class.fields@)[i] == form(d.class.fields@[i]));
        let consts = const_names(Seq::<Param>::empty());
        lemma_plans_len(fields@, consts);
        assert(plan_views(d.block.fields@).len() == d.block.fields@.len());
    }
}

} // verus!
