//! What is made of an enum, and of its variants together.
use vstd::prelude::*;

use crate::derive::attr::{kind_of, Attr};
use crate::derive::block::{in_some, type_names, Param};
use crate::derive::disc::{discriminants, DiscExpr, Discriminants};
use crate::derive::enums::{
    disc_exprs, expand_enum, first_inline_problem, used_in_fields, used_in_variants, variant_plans,
    variant_problem, EnumPlan, Variant, VariantForm, VariantPlan, WholeChange,
};
use crate::derive::field::Field;
use crate::derive::kind::{Kind, Mode};
use crate::derive::problem::Problem;
use crate::derive::shape::{foreign_target, targets_in};
use crate::derive::ty::mentions;

use super::plans::{annotated, lemma_kinds, lemma_variant_plans, unannotated, word_for};
use super::shapes::{is_a, is_vector, lemma_is_a};

verus! {

/// Whether this is the kind of a variant, by its annotations.
pub open spec fn is_kind(v: Variant, kind: Kind) -> bool {
    if kind == Kind::Pod {
        unannotated(v.attrs@)
    } else {
        annotated(v.attrs@, word_for(kind))
    }
}

proof fn lemma_is_kind(v: Variant, kind: Kind)
    requires
        kind_of(v.attrs@) is Ok,
    ensures
        kind_of(v.attrs@) == Ok::<Kind, Problem>(kind) <==> is_kind(v, kind),
{
    lemma_kinds(v.attrs@);
    let kinds = crate::derive::attr::kinds_in(v.attrs@);
    if kinds.len() == 1 {
        assert(kinds.contains(kinds[0]));
        assert(annotated(v.attrs@, word_for(kinds[0])));
        assert(kinds.contains(kind) ==> kind == kinds[0]);
    }
    if kinds.len() == 0 && kind != Kind::Pod {
        assert(!kinds.contains(kind));
        assert(!annotated(v.attrs@, word_for(kind)));
    }
}

/// The form of a variant goes by its one field: a vector, an array, a pointer to another file, a
/// tuple with such pointers, or one thing by itself.
pub proof fn law_the_form_of_a_variant_goes_by_its_field(
    package: &str,
    name: &str,
    attr: &Attr,
    mutable: bool,
    params: &Vec<Param>,
    variants: &Vec<Variant>,
    plan: EnumPlan,
    i: int,
)
    requires
        call_ensures(expand_enum, (package, name, attr, mutable, params, variants), Ok(plan)),
        0 <= i < variants@.len(),
        plan.variants@[i].form != VariantForm::Aggregate,
    ensures
        ({
            let t = variants@[i].fields@[0].ty;
            let p = plan.variants@[i];
            &&& variants@[i].fields@.len() == 1 && !variants@[i].named
            &&& p.form == VariantForm::List <==> is_vector(t)
            &&& p.form == VariantForm::Array <==> t is Array
            &&& p.form == VariantForm::Foreign <==> is_a(t, "Foreign"@) && !is_vector(t)
            &&& p.form == VariantForm::ForeignTuple ==> t is Tuple && p.foreign
            &&& t is Tuple && p.foreign ==> p.form == VariantForm::ForeignTuple
            &&& p.foreign <==> foreign_target(t) is Some
        }),
{
    lemma_variant_plans(variants@, type_names(params@), i);
    lemma_is_a(variants@[i].fields@[0].ty);
}

/// A variant is counted where it is a strong or a weak reference, weak where it is a weak one, and
/// a block where one lies in it; one that leads to another file is neither counted nor weak here.
pub proof fn law_a_variant_is_what_it_holds(
    p: VariantPlan,
    shared: bool,
    weak: bool,
    embeds: bool,
)
    requires
        call_ensures(VariantPlan::shared, (&p,), shared),
        call_ensures(VariantPlan::weak, (&p,), weak),
        call_ensures(VariantPlan::embeds, (&p,), embeds),
    ensures
        shared <==> p.form != VariantForm::Aggregate && !p.foreign && (p.kind == Kind::Strong
            || p.kind == Kind::Weak),
        weak <==> p.form != VariantForm::Aggregate && !p.foreign && p.kind == Kind::Weak,
        embeds <==> p.form != VariantForm::Aggregate && p.kind == Kind::Embed,
{
}

/// Whether a variant is more than plain bytes, in this file, and of this kind.
pub open spec fn is_near(p: VariantPlan, kind: Kind) -> bool {
    p.form != VariantForm::Aggregate && !p.foreign && p.kind == kind
}

/// Whether a variant has something to release.
pub open spec fn has_release(p: VariantPlan) -> bool {
    p.form == VariantForm::List || (p.form != VariantForm::Aggregate && (p.kind == Kind::Owned
        || p.kind == Kind::Strong || p.kind == Kind::Weak || p.kind == Kind::Embed))
}

/// What is true of an enum is true of one of its variants: only then does its value borrow, name
/// the allocator, get handed back, or change by exchange.
pub proof fn law_an_enum_is_no_more_than_its_variants(
    package: &str,
    name: &str,
    attr: &Attr,
    mutable: bool,
    params: &Vec<Param>,
    variants: &Vec<Variant>,
    plan: EnumPlan,
)
    requires
        call_ensures(expand_enum, (package, name, attr, mutable, params, variants), Ok(plan)),
    ensures
        ({
            let vs = plan.variants@;
            let strong = exists|i: int|
                0 <= i < vs.len() && #[trigger] is_near(vs[i], Kind::Strong);
            let weak = exists|i: int| 0 <= i < vs.len() && #[trigger] is_near(vs[i], Kind::Weak);
            let foreign = exists|i: int| 0 <= i < vs.len() && (#[trigger] vs[i]).foreign;
            let embeds = exists|i: int|
                0 <= i < vs.len() && (#[trigger] vs[i]).kind == Kind::Embed && vs[i].form
                    != VariantForm::Aggregate;
            let releases = exists|i: int| 0 <= i < vs.len() && has_release(#[trigger] vs[i]);
            let more = exists|i: int|
                0 <= i < vs.len() && (#[trigger] vs[i]).form != VariantForm::Aggregate;
            &&& plan.data_allocator <==> strong || weak
            &&& plan.data_borrows <==> strong || weak || foreign
            &&& plan.view_allocator <==> weak
            &&& plan.view_borrows <==> weak || foreign
            &&& plan.hands_back <==> releases && !embeds
            &&& plan.summary.needs_payload <==> more
            &&& plan.summary.embeds <==> embeds
            &&& plan.change == (if !mutable {
                WholeChange::Fixed
            } else if releases {
                WholeChange::Exchange
            } else {
                WholeChange::Overwrite
            })
            &&& mutable ==> !embeds
        }),
{
    let vs = plan.variants@;
    assert forall|i: int| 0 <= i < vs.len() implies {
        &&& (#[trigger] vs[i]).spec_shared() <==> is_near(vs[i], Kind::Strong) || is_near(
            vs[i],
            Kind::Weak,
        )
        &&& vs[i].spec_weak() <==> is_near(vs[i], Kind::Weak)
        &&& vs[i].spec_releases() <==> has_release(vs[i])
        &&& vs[i].spec_embeds() <==> vs[i].kind == Kind::Embed && vs[i].form
            != VariantForm::Aggregate
    } by {}
    if exists|i: int| 0 <= i < vs.len() && #[trigger] is_near(vs[i], Kind::Strong) {
        let i = choose|i: int| 0 <= i < vs.len() && #[trigger] is_near(vs[i], Kind::Strong);
        assert(vs[i].spec_shared());
    }
    if exists|i: int| 0 <= i < vs.len() && #[trigger] is_near(vs[i], Kind::Weak) {
        let i = choose|i: int| 0 <= i < vs.len() && #[trigger] is_near(vs[i], Kind::Weak);
        assert(vs[i].spec_shared());
        assert(vs[i].spec_weak());
    }
    if plan.summary.shared {
        let i = choose|i: int| 0 <= i < vs.len() && (#[trigger] vs[i]).spec_shared();
        assert(is_near(vs[i], Kind::Strong) || is_near(vs[i], Kind::Weak));
    }
    if plan.summary.weak {
        let i = choose|i: int| 0 <= i < vs.len() && (#[trigger] vs[i]).spec_weak();
        assert(is_near(vs[i], Kind::Weak));
    }
}

/// Variants are numbered by what stands behind their `=`.
pub proof fn law_an_enum_is_numbered_by_its_variants(
    package: &str,
    name: &str,
    attr: &Attr,
    mutable: bool,
    params: &Vec<Param>,
    variants: &Vec<Variant>,
    plan: EnumPlan,
    exprs: &Vec<Option<DiscExpr>>,
    d: Result<Discriminants, Problem>,
)
    requires
        call_ensures(expand_enum, (package, name, attr, mutable, params, variants), Ok(plan)),
        exprs@.len() == variants@.len(),
        forall|i: int| 0 <= i < variants@.len() ==> #[trigger] exprs@[i] == variants@[i].disc,
        call_ensures(discriminants, (exprs, attr.repr), d),
    ensures
        d matches Ok(x) && x.ty == plan.discriminants.ty && x.values@
            == plan.discriminants.values@,
{
    assert(disc_exprs(variants@) =~= exprs@);
}

/// Whether the parameter occurs in a field of the variant.
pub open spec fn occurs_in(v: Variant, name: Seq<char>) -> bool {
    exists|j: int| 0 <= j < v.fields@.len() && mentions((#[trigger] v.fields@[j]).ty, seq![name])
}

/// Whether the parameter occurs in a field, behind a pointer to another file.
pub open spec fn field_far(f: Field, name: Seq<char>) -> bool {
    mentions(f.ty, seq![name]) && in_some(targets_in(f.ty), name)
}

/// Whether the parameter occurs in the variant, behind a pointer to another file.
pub open spec fn occurs_far(v: Variant, name: Seq<char>) -> bool {
    exists|j: int| 0 <= j < v.fields@.len() && field_far(#[trigger] v.fields@[j], name)
}

proof fn lemma_used_in_fields(fields: Seq<Field>, kind: Kind, name: Seq<char>)
    ensures
        ({
            let u = used_in_fields(fields, kind, name);
            let near = exists|j: int|
                0 <= j < fields.len() && mentions((#[trigger] fields[j]).ty, seq![name]);
            let far = exists|j: int| 0 <= j < fields.len() && field_far(#[trigger] fields[j], name);
            &&& u.strong <==> near && kind == Kind::Strong
            &&& u.weak <==> near && kind == Kind::Weak
            &&& u.foreign_owned <==> far && kind == Kind::Owned
            &&& u.foreign <==> far
        }),
    decreases fields.len(),
{
    if fields.len() > 0 {
        let init = fields.drop_last();
        let n = init.len() as int;
        lemma_used_in_fields(init, kind, name);
        assert(fields[n] == fields.last());
        assert forall|j: int| 0 <= j < n implies #[trigger] fields[j] == init[j] by {}
        if exists|j: int| 0 <= j < init.len() && mentions((#[trigger] init[j]).ty, seq![name]) {
            let j = choose|j: int|
                0 <= j < init.len() && mentions((#[trigger] init[j]).ty, seq![name]);
            assert(mentions(fields[j].ty, seq![name]));
        }
        if exists|j: int| 0 <= j < init.len() && field_far(#[trigger] init[j], name) {
            let j = choose|j: int| 0 <= j < init.len() && field_far(#[trigger] init[j], name);
            assert(field_far(fields[j], name));
        }
        if exists|j: int| 0 <= j < fields.len() && mentions((#[trigger] fields[j]).ty, seq![name]) {
            let j = choose|j: int|
                0 <= j < fields.len() && mentions((#[trigger] fields[j]).ty, seq![name]);
            if j < n {
                assert(mentions(init[j].ty, seq![name]));
            }
        }
        if exists|j: int| 0 <= j < fields.len() && field_far(#[trigger] fields[j], name) {
            let j = choose|j: int| 0 <= j < fields.len() && field_far(#[trigger] fields[j], name);
            if j < n {
                assert(field_far(init[j], name));
            }
        }
    }
}

/// Whether the parameter occurs in some variant of this kind.
pub open spec fn any_of(vs: Seq<Variant>, name: Seq<char>, kind: Kind) -> bool {
    exists|i: int| 0 <= i < vs.len() && is_kind(#[trigger] vs[i], kind) && occurs_in(vs[i], name)
}

/// Whether the parameter occurs in some variant of this kind, behind a pointer to another file.
pub open spec fn any_far(vs: Seq<Variant>, name: Seq<char>, kind: Kind) -> bool {
    exists|i: int| 0 <= i < vs.len() && is_kind(#[trigger] vs[i], kind) && occurs_far(vs[i], name)
}

/// Whether the parameter occurs in some variant, behind a pointer to another file.
pub open spec fn any_far_at_all(vs: Seq<Variant>, name: Seq<char>) -> bool {
    exists|i: int| 0 <= i < vs.len() && occurs_far(#[trigger] vs[i], name)
}

spec fn kinds_known(vs: Seq<Variant>) -> bool {
    forall|i: int| 0 <= i < vs.len() ==> kind_of((#[trigger] vs[i]).attrs@) is Ok
}

proof fn lemma_used_in_variants(vs: Seq<Variant>, name: Seq<char>)
    requires
        kinds_known(vs),
    ensures
        ({
            let u = used_in_variants(vs, name);
            &&& u.strong <==> any_of(vs, name, Kind::Strong)
            &&& u.weak <==> any_of(vs, name, Kind::Weak)
            &&& u.foreign_owned <==> any_far(vs, name, Kind::Owned)
            &&& u.foreign <==> any_far_at_all(vs, name)
        }),
    decreases vs.len(),
{
    if vs.len() > 0 {
        let init = vs.drop_last();
        let n = init.len() as int;
        let v = vs.last();
        assert(vs[n] == v);
        assert forall|i: int| 0 <= i < n implies #[trigger] vs[i] == init[i] by {}
        assert forall|i: int| 0 <= i < init.len() implies kind_of(
            (#[trigger] init[i]).attrs@,
        ) is Ok by {
            assert(init[i] == vs[i]);
        }
        lemma_used_in_variants(init, name);
        let kind = kind_of(v.attrs@)->Ok_0;
        lemma_used_in_fields(v.fields@, kind, name);
        lemma_is_kind(v, Kind::Strong);
        lemma_is_kind(v, Kind::Weak);
        lemma_is_kind(v, Kind::Owned);
        lemma_grown(init, v, name, Kind::Strong);
        lemma_grown(init, v, name, Kind::Weak);
        lemma_grown(init, v, name, Kind::Owned);
        assert(vs =~= init.push(v));
    }
}

proof fn lemma_grown(vs: Seq<Variant>, v: Variant, name: Seq<char>, kind: Kind)
    ensures
        any_of(vs.push(v), name, kind) <==> any_of(vs, name, kind) || (is_kind(v, kind)
            && occurs_in(v, name)),
        any_far(vs.push(v), name, kind) <==> any_far(vs, name, kind) || (is_kind(v, kind)
            && occurs_far(v, name)),
        any_far_at_all(vs.push(v), name) <==> any_far_at_all(vs, name) || occurs_far(v, name),
{
    let now = vs.push(v);
    let n = vs.len() as int;
    assert(now[n] == v);
    assert forall|i: int| 0 <= i < n implies #[trigger] now[i] == vs[i] by {}
    if any_of(vs, name, kind) {
        let i = choose|i: int|
            0 <= i < n && is_kind(#[trigger] vs[i], kind) && occurs_in(vs[i], name);
        assert(is_kind(now[i], kind));
    }
    if any_far(vs, name, kind) {
        let i = choose|i: int|
            0 <= i < n && is_kind(#[trigger] vs[i], kind) && occurs_far(vs[i], name);
        assert(is_kind(now[i], kind));
    }
    if any_far_at_all(vs, name) {
        let i = choose|i: int| 0 <= i < n && occurs_far(#[trigger] vs[i], name);
        assert(occurs_far(now[i], name));
    }
    if any_of(now, name, kind) {
        let i = choose|i: int|
            0 <= i <= n && is_kind(#[trigger] now[i], kind) && occurs_in(now[i], name);
        if i < n {
            assert(is_kind(vs[i], kind));
        }
    }
    if any_far(now, name, kind) {
        let i = choose|i: int|
            0 <= i <= n && is_kind(#[trigger] now[i], kind) && occurs_far(now[i], name);
        if i < n {
            assert(is_kind(vs[i], kind));
        }
    }
    if any_far_at_all(now, name) {
        let i = choose|i: int| 0 <= i <= n && occurs_far(#[trigger] now[i], name);
        if i < n {
            assert(occurs_far(vs[i], name));
        }
    }
}

/// What a type parameter of an enum has to be: a block in any case, a counted one behind a strong
/// reference, one with weak references behind a weak one, one that can be copied behind an owner
/// in another file, and one that lasts behind any pointer to another file.
pub proof fn law_a_parameter_of_an_enum_is_what_its_uses_need(
    package: &str,
    name: &str,
    attr: &Attr,
    mutable: bool,
    params: &Vec<Param>,
    variants: &Vec<Variant>,
    plan: EnumPlan,
    k: int,
)
    requires
        call_ensures(expand_enum, (package, name, attr, mutable, params, variants), Ok(plan)),
        0 <= k < type_names(params@).len(),
    ensures
        plan.types@.len() == type_names(params@).len(),
        ({
            let p = type_names(params@)[k];
            let b = plan.types@[k];
            &&& !b.pod && b.block && !b.embeddable
            &&& b.shared <==> any_of(variants@, p, Kind::Strong)
            &&& b.weakable <==> any_of(variants@, p, Kind::Weak)
            &&& b.clonable <==> any_far(variants@, p, Kind::Owned)
            &&& b.lasting <==> any_far_at_all(variants@, p)
        }),
{
    let types = type_names(params@);
    assert forall|i: int| 0 <= i < variants@.len() implies kind_of(
        (#[trigger] variants@[i]).attrs@,
    ) is Ok by {
        lemma_variant_plans(variants@, types, i);
    }
    lemma_used_in_variants(variants@, types[k]);
}

proof fn lemma_no_inline(fields: Seq<Field>, kind: Kind, params: Seq<Seq<char>>, j: int)
    requires
        first_inline_problem(fields, kind, params) is None,
        0 <= j < fields.len(),
    ensures
        mentions(fields[j].ty, params) && (kind == Kind::Pod || kind == Kind::Embed) ==> targets_in(
            fields[j].ty,
        ).len() > 0,
    decreases fields.len(),
{
    if j < fields.len() - 1 {
        lemma_no_inline(fields.drop_last(), kind, params, j);
        assert(fields.drop_last()[j] == fields[j]);
    }
}

proof fn lemma_no_problem(vs: Seq<Variant>, params: Seq<Seq<char>>, i: int)
    requires
        variant_plans(vs, params) is Ok,
        0 <= i < vs.len(),
    ensures
        variant_problem(vs[i], params) is None,
    decreases vs.len(),
{
    let init = vs.drop_last();
    if i < init.len() {
        lemma_no_problem(init, params, i);
        assert(init[i] == vs[i]);
    }
}

/// No parameter lies in the payload itself: an enum has one layout, whatever its parameters are.
/// No variant is made changeable by itself, and a counted enum has no parameters.
pub proof fn law_an_enum_has_one_layout(
    package: &str,
    name: &str,
    attr: &Attr,
    mutable: bool,
    params: &Vec<Param>,
    variants: &Vec<Variant>,
    plan: EnumPlan,
    i: int,
    j: int,
)
    requires
        call_ensures(expand_enum, (package, name, attr, mutable, params, variants), Ok(plan)),
        0 <= i < variants@.len(),
        0 <= j < variants@[i].fields@.len(),
    ensures
        forall|k: int| 0 <= k < params@.len() ==> #[trigger] params@[k] is Type,
        params@.len() > 0 ==> attr.mode == Mode::Plain,
        !annotated(variants@[i].attrs@, "bstack_mut"@),
        mentions(variants@[i].fields@[j].ty, type_names(params@)) && (is_kind(
            variants@[i],
            Kind::Pod,
        ) || is_kind(variants@[i], Kind::Embed)) ==> targets_in(variants@[i].fields@[j].ty).len()
            > 0,
{
    let types = type_names(params@);
    let v = variants@[i];
    lemma_no_problem(variants@, types, i);
    let kind = kind_of(v.attrs@)->Ok_0;
    lemma_no_inline(v.fields@, kind, types, j);
    lemma_is_kind(v, Kind::Pod);
    lemma_is_kind(v, Kind::Embed);
    if annotated(v.attrs@, "bstack_mut"@) {
        let m = choose|m: int|
            0 <= m < v.attrs@.len() && (#[trigger] v.attrs@[m] matches Some(text) && text@
                == "bstack_mut"@);
        assert(crate::derive::attr::named(v.attrs@[m], "bstack_mut"@));
    }
}

/// Whether a variant is refused with this problem: for its annotations, for being changeable by
/// itself, or for a parameter in its payload or beside a pointer.
pub open spec fn variant_refused(v: Variant, params: Seq<Param>, p: Problem) -> bool {
    ||| kind_of(v.attrs@) == Err::<Kind, Problem>(p)
    ||| p == Problem::MutableVariant && annotated(v.attrs@, "bstack_mut"@)
    ||| (p == Problem::GenericInlineVariant || p == Problem::GenericBesideForeignVariant)
        && exists|j: int|
        0 <= j < v.fields@.len() && mentions((#[trigger] v.fields@[j]).ty, type_names(params))
}

proof fn lemma_inline_reason(fields: Seq<Field>, kind: Kind, params: Seq<Seq<char>>)
    requires
        first_inline_problem(fields, kind, params) is Some,
    ensures
        exists|j: int| 0 <= j < fields.len() && mentions((#[trigger] fields[j]).ty, params),
        first_inline_problem(fields, kind, params)->0 == Problem::GenericInlineVariant
            || first_inline_problem(fields, kind, params)->0
            == Problem::GenericBesideForeignVariant,
    decreases fields.len(),
{
    let init = fields.drop_last();
    if first_inline_problem(init, kind, params) is Some {
        lemma_inline_reason(init, kind, params);
        let j = choose|j: int| 0 <= j < init.len() && mentions((#[trigger] init[j]).ty, params);
        assert(fields[j] == init[j]);
    } else {
        assert(fields[fields.len() - 1] == fields.last());
    }
}

proof fn lemma_variant_reason(vs: Seq<Variant>, params: Seq<Param>)
    requires
        variant_plans(vs, type_names(params)) is Err,
    ensures
        exists|i: int|
            0 <= i < vs.len() && variant_refused(
                #[trigger] vs[i],
                params,
                variant_plans(vs, type_names(params))->Err_0,
            ),
    decreases vs.len(),
{
    let types = type_names(params);
    let init = vs.drop_last();
    if variant_plans(init, types) is Err {
        lemma_variant_reason(init, params);
        let i = choose|i: int|
            0 <= i < init.len() && variant_refused(
                #[trigger] init[i],
                params,
                variant_plans(init, types)->Err_0,
            );
        assert(vs[i] == init[i]);
    } else {
        let v = vs.last();
        assert(vs[vs.len() - 1] == v);
        if kind_of(v.attrs@) is Ok {
            if crate::derive::attr::has_attr(v.attrs@, "bstack_mut"@) {
                let m = choose|m: int|
                    0 <= m < v.attrs@.len() && crate::derive::attr::named(
                        #[trigger] v.attrs@[m],
                        "bstack_mut"@,
                    );
                assert(v.attrs@[m] is Some);
                assert(annotated(v.attrs@, "bstack_mut"@));
            } else {
                lemma_inline_reason(v.fields@, kind_of(v.attrs@)->Ok_0, types);
            }
        }
    }
}

/// An enum is refused for a reason: a parameter that is no type, parameters of a counted enum, one
/// of its variants, its numbers, its tags, or that it cannot be changed as was asked.
pub proof fn law_an_enum_is_refused_for_a_reason(
    package: &str,
    name: &str,
    attr: &Attr,
    mutable: bool,
    params: &Vec<Param>,
    variants: &Vec<Variant>,
    p: Problem,
    exprs: &Vec<Option<DiscExpr>>,
    d: Result<Discriminants, Problem>,
)
    requires
        call_ensures(expand_enum, (package, name, attr, mutable, params, variants), Err(p)),
        exprs@.len() == variants@.len(),
        forall|i: int| 0 <= i < variants@.len() ==> #[trigger] exprs@[i] == variants@[i].disc,
        call_ensures(discriminants, (exprs, attr.repr), d),
    ensures
        ({
            ||| p == Problem::GenericEnumParameter && exists|i: int|
                0 <= i < params@.len() && !(#[trigger] params@[i] is Type)
            ||| p == Problem::GenericCountedEnum && params@.len() > 0 && attr.mode != Mode::Plain
            ||| exists|i: int|
                0 <= i < variants@.len() && variant_refused(#[trigger] variants@[i], params@, p)
            ||| d == Err::<Discriminants, Problem>(p)
            ||| p == Problem::SameControlTag && attr.ctrl_tag is Some
            ||| p == Problem::MutableCountedEnum && mutable && attr.mode != Mode::Plain
            ||| p == Problem::MutableEmbeddingEnum && mutable && exists|i: int|
                0 <= i < variants@.len() && is_kind(#[trigger] variants@[i], Kind::Embed)
        }),
{
    assert(disc_exprs(variants@) =~= exprs@);
    let types = type_names(params@);
    if crate::derive::enums::only_types(params@) && !(params@.len() > 0 && attr.mode
        != Mode::Plain) {
        match variant_plans(variants@, types) {
            Err(q) => {
                lemma_variant_reason(variants@, params@);
            },
            Ok(plans) => {
                if p == Problem::MutableEmbeddingEnum && crate::derive::enums::summary_of(
                    plans,
                ).embeds {
                    let i = choose|i: int|
                        0 <= i < plans.len() && (#[trigger] plans[i]).spec_embeds();
                    lemma_plans_len(variants@, types);
                    lemma_variant_plans(variants@, types, i);
                    lemma_is_kind(variants@[i], Kind::Embed);
                }
            },
        }
    }
}

proof fn lemma_plans_len(vs: Seq<Variant>, types: Seq<Seq<char>>)
    requires
        variant_plans(vs, types) is Ok,
    ensures
        variant_plans(vs, types)->Ok_0.len() == vs.len(),
    decreases vs.len(),
{
    if vs.len() > 0 {
        lemma_plans_len(vs.drop_last(), types);
    }
}

} // verus!
