//! What is made of fields and variants, by how they are written.
use vstd::prelude::*;

use crate::derive::attr::{classify_attrs, kind_of, kinds_in, Attr};
use crate::derive::block::Param;
use crate::derive::enums::{
    expand_enum, variant_plan, variant_plans, EnumPlan, Variant, VariantForm, VariantPlan,
    WholeChange,
};
use crate::derive::field::Field;
use crate::derive::kind::{Kind, Mode};
use crate::derive::plan::{plan_field, FieldForm, FieldPlan, Mutator};
use crate::derive::problem::Problem;
use crate::derive::ty::{Arg, Ty};

verus! {

/// Whether one of the annotations is called `name`.
pub open spec fn annotated(attrs: Seq<Option<String>>, name: Seq<char>) -> bool {
    exists|i: int|
        0 <= i < attrs.len() && (#[trigger] attrs[i] matches Some(text) && text@ == name)
}

/// The word for a kind of ownership.
pub open spec fn word_for(kind: Kind) -> Seq<char> {
    match kind {
        Kind::Owned => "bstack_owned"@,
        Kind::Strong => "bstack_strong"@,
        Kind::Weak => "bstack_weak"@,
        Kind::Ref => "bstack_ref"@,
        Kind::Embed => "embed"@,
        Kind::Pod => ""@,
    }
}

/// Whether none of the annotations is about ownership.
pub open spec fn unannotated(attrs: Seq<Option<String>>) -> bool {
    forall|kind: Kind| kind != Kind::Pod ==> !annotated(attrs, #[trigger] word_for(kind))
}

proof fn lemma_words()
    ensures
        "bstack_owned"@ != "bstack_strong"@,
        "bstack_owned"@ != "bstack_weak"@,
        "bstack_owned"@ != "bstack_ref"@,
        "bstack_owned"@ != "embed"@,
        "bstack_strong"@ != "bstack_weak"@,
        "bstack_strong"@ != "bstack_ref"@,
        "bstack_strong"@ != "embed"@,
        "bstack_weak"@ != "bstack_ref"@,
        "bstack_weak"@ != "embed"@,
        "bstack_ref"@ != "embed"@,
{
    reveal_strlit("bstack_owned");
    reveal_strlit("bstack_strong");
    reveal_strlit("bstack_weak");
    reveal_strlit("bstack_ref");
    reveal_strlit("embed");
    assert("bstack_owned"@.len() == 12);
    assert("bstack_strong"@.len() == 13);
    assert("bstack_weak"@.len() == 11);
    assert("bstack_ref"@.len() == 10);
    assert("embed"@.len() == 5);
}

pub(crate) proof fn lemma_kinds(attrs: Seq<Option<String>>)
    ensures
        forall|kind: Kind|
            kind != Kind::Pod ==> (kinds_in(attrs).contains(kind) <==> annotated(
                attrs,
                #[trigger] word_for(kind),
            )),
        !kinds_in(attrs).contains(Kind::Pod),
        forall|i: int|
            0 <= i < kinds_in(attrs).len() ==> #[trigger] kinds_in(attrs)[i] != Kind::Pod,
    decreases attrs.len(),
{
    lemma_words();
    if attrs.len() > 0 {
        let init = attrs.drop_last();
        lemma_kinds(init);
        let was = kinds_in(init);
        let now = kinds_in(attrs);
        assert forall|kind: Kind| kind != Kind::Pod implies (now.contains(kind) <==> annotated(
            attrs,
            #[trigger] word_for(kind),
        )) by {
            assert(was.contains(kind) <==> annotated(init, word_for(kind)));
            if annotated(init, word_for(kind)) {
                let i = choose|i: int|
                    0 <= i < init.len() && (#[trigger] init[i] matches Some(text) && text@
                        == word_for(kind));
                assert(attrs[i] == init[i]);
                let k = was.index_of(kind);
                assert(now[k] == kind);
            }
            if annotated(attrs, word_for(kind)) && !annotated(init, word_for(kind)) {
                let i = choose|i: int|
                    0 <= i < attrs.len() && (#[trigger] attrs[i] matches Some(text) && text@
                        == word_for(kind));
                if i < init.len() {
                    assert(init[i] == attrs[i]);
                }
                assert(now[now.len() - 1] == kind);
            }
            if now.contains(kind) && !was.contains(kind) {
                let k = now.index_of(kind);
                assert(k == was.len());
                assert(attrs[attrs.len() - 1] is Some);
            }
        }
    }
}

/// The kind of a field is that of its annotation, plain bytes where there is none, and where
/// there are two it is refused.
pub proof fn law_the_annotation_says_the_kind(attrs: &Vec<Option<String>>, r: Result<Kind, Problem>)
    requires
        call_ensures(classify_attrs, (attrs,), r),
    ensures
        match r {
            Ok(kind) => if kind == Kind::Pod {
                unannotated(attrs@)
            } else {
                forall|other: Kind|
                    other != Kind::Pod ==> (annotated(attrs@, #[trigger] word_for(other)) <==> other
                        == kind)
            },
            Err(p) => p == Problem::TooManyAnnotations && !unannotated(attrs@),
        },
{
    lemma_kinds(attrs@);
    let kinds = kinds_in(attrs@);
    if kinds.len() > 1 {
        assert(kinds.contains(kinds[0]));
        assert(annotated(attrs@, word_for(kinds[0])));
    }
    if kinds.len() == 1 {
        assert forall|other: Kind| other != Kind::Pod implies (annotated(
            attrs@,
            #[trigger] word_for(other),
        ) <==> other == kinds[0]) by {
            assert(kinds.contains(other) <==> annotated(attrs@, word_for(other)));
        }
    }
}

/// Whether `t` is `name<inner, ..>`.
pub open spec fn is_made_of(t: Ty, name: Seq<char>, inner: Ty) -> bool {
    t matches Ty::Path { last, args, others: _ } && last@ == name && args@.len() > 0 && args@[0]
        == Arg::Type(inner)
}

/// Whether `t` is called `name`.
pub open spec fn goes_by(t: Ty, name: Seq<char>) -> bool {
    t matches Ty::Path { last, args: _, others: _ } && last@ == name
}

/// Whether `t` is an `Option`.
pub open spec fn is_optional(t: Ty) -> bool {
    exists|inner: Ty| #[trigger] is_made_of(t, "Option"@, inner)
}

/// The type of a field without a leading `&`.
pub open spec fn written(f: Field) -> Ty {
    match f.ty {
        Ty::Reference { elem, others: _ } => *elem,
        other => other,
    }
}

/// Whether `t` is what a field of this type holds where it is not empty.
pub open spec fn holds_type(whole: Ty, t: Ty) -> bool {
    is_made_of(whole, "Option"@, t) || (!is_optional(whole) && whole == t)
}

pub(crate) proof fn lemma_option(whole: Ty)
    ensures
        crate::derive::shape::option_of(whole) is Some <==> is_optional(whole),
        crate::derive::shape::option_of(whole) matches Some(t) ==> is_made_of(
            whole,
            "Option"@,
            t,
        ),
        forall|t: Ty|
            #![trigger is_made_of(whole, "Option"@, t)]
            is_made_of(whole, "Option"@, t) ==> crate::derive::shape::option_of(whole) == Some(t),
{
    if let Some(t) = crate::derive::shape::option_of(whole) {
        assert(is_made_of(whole, "Option"@, t));
    }
    if is_optional(whole) {
        let t = choose|t: Ty| #[trigger] is_made_of(whole, "Option"@, t);
        assert(crate::derive::shape::option_of(whole) == Some(t));
    }
}

/// What is said of a field in its plan is what is written: its kind, whether it is to be mutable,
/// whether it was written as a reference; and it can be empty exactly where it is an `Option` and
/// is not kept whole, as plain bytes.
pub proof fn law_a_plan_says_what_is_written(
    f: &Field,
    consts: &Vec<String>,
    p: FieldPlan,
)
    requires
        call_ensures(plan_field, (f, consts), Ok(p)),
    ensures
        p.kind == Kind::Pod ==> unannotated(f.attrs@),
        p.kind != Kind::Pod ==> annotated(f.attrs@, word_for(p.kind)),
        p.mutable <==> annotated(f.attrs@, "bstack_mut"@),
        p.coerced <==> f.ty is Reference,
        p.nullable <==> is_optional(written(*f)) && !(p.kind == Kind::Pod && (p.form is Scalar
            || p.form is PodTuple)),
{
    lemma_option(written(*f));
    lemma_kinds(f.attrs@);
    let kinds = kinds_in(f.attrs@);
    if kinds.len() == 1 {
        assert(kinds.contains(kinds[0]));
        assert(annotated(f.attrs@, word_for(kinds[0])));
    }
    let want = crate::derive::plan::planned(*f, crate::derive::ty::texts(consts@));
    assert(crate::derive::plan::plan_view(p) == want->Ok_0);
    assert(crate::derive::attr::has_attr(f.attrs@, "bstack_mut"@) <==> annotated(
        f.attrs@,
        "bstack_mut"@,
    )) by {
        if crate::derive::attr::has_attr(f.attrs@, "bstack_mut"@) {
            let i = choose|i: int|
                0 <= i < f.attrs@.len() && crate::derive::attr::named(
                    #[trigger] f.attrs@[i],
                    "bstack_mut"@,
                );
            assert(f.attrs@[i] is Some);
        }
        if annotated(f.attrs@, "bstack_mut"@) {
            let i = choose|i: int|
                0 <= i < f.attrs@.len() && (#[trigger] f.attrs@[i] matches Some(text) && text@
                    == "bstack_mut"@);
            assert(crate::derive::attr::named(f.attrs@[i], "bstack_mut"@));
        }
    }
}

/// The form of a field goes by what it holds: a pointer to another file, a text, a vector, an
/// array of these, a block in the field, one reference, or plain bytes.
pub proof fn law_a_form_goes_by_what_is_held(
    f: &Field,
    consts: &Vec<String>,
    p: FieldPlan,
    t: Ty,
)
    requires
        call_ensures(plan_field, (f, consts), Ok(p)),
        holds_type(written(*f), t),
    ensures
        match p.form {
            FieldForm::Foreign(target) => is_made_of(t, "Foreign"@, *target),
            FieldForm::Text => goes_by(t, "str"@) || goes_by(t, "String"@),
            FieldForm::List(elem) => is_made_of(t, "Vec"@, *elem),
            FieldForm::ListArray(whole) => *whole == t && t is Array,
            FieldForm::ForeignArray(whole) => *whole == t && t is Array,
            FieldForm::BlockArray(whole) => *whole == t && t is Array && p.kind != Kind::Pod,
            FieldForm::ForeignTuple(whole) => *whole is Tuple,
            FieldForm::PodTuple(whole) => *whole == written(*f) && *whole is Tuple && p.kind
                == Kind::Pod,
            FieldForm::Embed(whole) => *whole == t && p.kind == Kind::Embed,
            FieldForm::Scalar(whole) => *whole == (if p.kind == Kind::Pod {
                written(*f)
            } else {
                t
            }) && p.kind != Kind::Embed,
        },
        forall|target: Ty| #[trigger]
            is_made_of(t, "Foreign"@, target) ==> p.form is Foreign,
        goes_by(t, "str"@) || goes_by(t, "String"@) ==> p.form is Text,
        forall|elem: Ty| #[trigger] is_made_of(t, "Vec"@, elem) ==> p.form is List,
        t is Array && p.kind != Kind::Pod ==> p.form is ListArray || p.form is ForeignArray
            || p.form is BlockArray,
{
    lemma_option(written(*f));
    assert(t == crate::derive::shape::unopt(written(*f)));
    reveal_strlit("Foreign");
    reveal_strlit("Vec");
    reveal_strlit("String");
    reveal_strlit("str");
    assert("Foreign"@.len() == 7);
    assert("Vec"@.len() == 3);
    assert("String"@.len() == 6);
    assert("str"@.len() == 3);
    assert("Vec"@[0] == 'V');
    assert("str"@[0] == 's');
    if let Some(target) = crate::derive::shape::foreign_of(t) {
        assert(is_made_of(t, "Foreign"@, target));
    }
    assert(forall|target: Ty| #[trigger]
        is_made_of(t, "Foreign"@, target) ==> crate::derive::shape::foreign_of(t) == Some(target));
    if let Some(elem) = crate::derive::shape::vec_of(t) {
        assert(is_made_of(t, "Vec"@, elem));
    }
    assert(forall|elem: Ty| #[trigger]
        is_made_of(t, "Vec"@, elem) ==> crate::derive::shape::vec_of(t) == Some(elem));
}

/// What owns something can only be replaced, with the old value handed out; plain bytes are only
/// set; a borrowed reference can be both; a weak reference can be set, and that always. Nothing
/// else is changed unless that was asked for.
pub proof fn law_owners_are_replaced_and_the_rest_is_set(p: FieldPlan, r: Vec<Mutator>)
    requires
        call_ensures(FieldPlan::mutators, (&p,), r),
    ensures
        ({
            let set = r@.contains(Mutator::SetAll);
            let swap = r@.contains(Mutator::ReplaceAll);
            let set_one = r@.contains(Mutator::SetAt);
            let swap_one = r@.contains(Mutator::ReplaceAt);
            match p.form {
                FieldForm::Scalar(_) => {
                    &&& !set_one && !swap_one
                    &&& set <==> p.kind == Kind::Weak || (p.mutable && (p.kind == Kind::Pod
                        || p.kind == Kind::Ref))
                    &&& swap <==> p.mutable && (p.kind == Kind::Ref || p.kind == Kind::Owned
                        || p.kind == Kind::Strong)
                },
                FieldForm::PodTuple(_) => !swap && !set_one && !swap_one && (set <==> p.mutable),
                FieldForm::BlockArray(_) => {
                    &&& (set <==> p.mutable && p.kind == Kind::Ref)
                    &&& (set_one <==> p.mutable && p.kind == Kind::Ref)
                    &&& (swap <==> p.mutable && (p.kind == Kind::Ref || p.kind == Kind::Owned
                        || p.kind == Kind::Strong))
                    &&& (swap_one <==> p.mutable && (p.kind == Kind::Ref || p.kind == Kind::Owned
                        || p.kind == Kind::Strong))
                },
                FieldForm::Foreign(_) => {
                    &&& !set_one && !swap_one
                    &&& (set <==> p.mutable && p.kind == Kind::Ref)
                    &&& (swap <==> p.mutable)
                },
                _ => r@.len() == 0,
            }
        }),
{
    let m = r@;
    assert(m.len() <= 4);
    assert forall|x: Mutator| #[trigger] m.contains(x) <==> (0 < m.len() && m[0] == x) || (1
        < m.len() && m[1] == x) || (2 < m.len() && m[2] == x) || (3 < m.len() && m[3] == x) by {
        if m.contains(x) {
            let i = m.index_of(x);
            assert(i == 0 || i == 1 || i == 2 || i == 3);
        }
    }
}

/// A failed constructor hands back what it took over: owners, counted references and blocks, one
/// or several of them; and nothing that was not its own.
pub proof fn law_a_failed_constructor_hands_back_owners(p: FieldPlan, r: bool)
    requires
        call_ensures(FieldPlan::hands_back, (&p,), r),
    ensures
        r <==> match p.form {
            FieldForm::Embed(_) => true,
            FieldForm::BlockArray(_) => p.kind == Kind::Owned || p.kind == Kind::Strong || p.kind
                == Kind::Embed,
            FieldForm::Scalar(_) | FieldForm::List(_) | FieldForm::ListArray(_) => p.kind
                == Kind::Owned || p.kind == Kind::Strong,
            _ => false,
        },
{
}

/// Whether the variant holds more than plain bytes, one after another.
pub open spec fn holds_more(v: Variant, kind: Kind) -> bool {
    &&& !v.named && v.fields@.len() == 1
    &&& kind != Kind::Pod || goes_by(v.fields@[0].ty, "String"@) || (exists|t: Ty| #[trigger]
        is_made_of(v.fields@[0].ty, "Vec"@, t)) || (exists|t: Ty| #[trigger]
        is_made_of(v.fields@[0].ty, "Foreign"@, t))
}

/// A variant has something to release where it is a list, or is an owner, a counted reference or
/// a block; and nothing where it is plain bytes or borrowed.
pub proof fn law_a_variant_releases_what_it_owns(p: VariantPlan, r: bool)
    requires
        call_ensures(VariantPlan::releases, (&p,), r),
    ensures
        r <==> match p.form {
            VariantForm::Aggregate => false,
            VariantForm::List => true,
            _ => match p.kind {
                Kind::Owned => true,
                Kind::Strong => true,
                Kind::Weak => true,
                Kind::Embed => true,
                Kind::Ref => false,
                Kind::Pod => false,
            },
        },
{
}

pub(crate) proof fn lemma_variant_plans(variants: Seq<Variant>, params: Seq<Seq<char>>, i: int)
    requires
        variant_plans(variants, params) is Ok,
        0 <= i < variants.len(),
    ensures
        variant_plans(variants, params)->Ok_0.len() == variants.len(),
        kind_of(variants[i].attrs@) is Ok,
        variant_plans(variants, params)->Ok_0[i] == variant_plan(
            variants[i],
            kind_of(variants[i].attrs@)->Ok_0,
        ),
    decreases variants.len(),
{
    let init = variants.drop_last();
    if i < init.len() {
        lemma_variant_plans(init, params, i);
        assert(init[i] == variants[i]);
    } else {
        if init.len() > 0 {
            lemma_variant_plans(init, params, 0);
        }
    }
}

/// What is made of an enum goes by its variants: each is of the kind that its annotation says,
/// and more than plain bytes where it is one thing of its own; whole values are exchanged where a
/// variant has something to release, and overwritten where none has, and only where that was
/// asked for.
pub proof fn law_an_enum_goes_by_its_variants(
    package: &str,
    name: &str,
    attr: &Attr,
    mutable: bool,
    params: &Vec<Param>,
    variants: &Vec<Variant>,
    plan: EnumPlan,
    i: int,
)
    requires
        call_ensures(expand_enum, (package, name, attr, mutable, params, variants), Ok(plan)),
        0 <= i < variants@.len(),
    ensures
        plan.variants@.len() == variants@.len(),
        ({
            let v = variants@[i];
            let p = plan.variants@[i];
            &&& p.kind == Kind::Pod ==> unannotated(v.attrs@)
            &&& p.kind != Kind::Pod ==> annotated(v.attrs@, word_for(p.kind))
            &&& p.form != VariantForm::Aggregate <==> holds_more(v, p.kind)
        }),
        plan.standalone <==> attr.mode == Mode::Plain,
        !mutable ==> plan.change == WholeChange::Fixed,
        mutable && plan.variants@[i].spec_releases() ==> plan.change == WholeChange::Exchange,
        plan.change == WholeChange::Overwrite ==> !plan.variants@[i].spec_releases() && mutable,
        mutable ==> plan.change != WholeChange::Fixed && attr.mode == Mode::Plain,
        plan.variants@[i].spec_releases() && !plan.summary.embeds ==> plan.hands_back,
        plan.variants@[i].spec_shared() ==> plan.data_borrows && plan.data_allocator,
        plan.variants@[i].spec_weak() ==> plan.view_borrows && plan.view_allocator,
        plan.variants@[i].foreign ==> plan.data_borrows && plan.view_borrows,
{
    let types = crate::derive::block::type_names(params@);
    lemma_variant_plans(variants@, types, i);
    let v = variants@[i];
    let p = plan.variants@[i];
    lemma_kinds(v.attrs@);
    let kinds = kinds_in(v.attrs@);
    if kinds.len() == 1 {
        assert(kinds.contains(kinds[0]));
        assert(annotated(v.attrs@, word_for(kinds[0])));
    }
    if v.fields@.len() == 1 {
        let t = v.fields@[0].ty;
        if let Some(x) = crate::derive::shape::foreign_of(t) {
            assert(is_made_of(t, "Foreign"@, x));
        }
        if let Some(x) = crate::derive::shape::vec_of(t) {
            assert(is_made_of(t, "Vec"@, x));
        }
        assert(forall|x: Ty| #[trigger]
            is_made_of(t, "Foreign"@, x) ==> crate::derive::shape::foreign_of(t) == Some(x));
        assert(forall|x: Ty| #[trigger]
            is_made_of(t, "Vec"@, x) ==> crate::derive::shape::vec_of(t) == Some(x));
    }
    let all = plan.variants@;
    assert(all[i] == p);
}

} // verus!
