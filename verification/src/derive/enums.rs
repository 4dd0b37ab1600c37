//! What is made of an enum: its numbers, the forms of its variants, and what follows from them.
use vstd::prelude::*;
use vstd::string::StringSliceAdditionalSpecFns;

use super::attr::{classify_attrs, has_attr, is_bstack_mut, kind_of, Attr};
use super::block::{
    beside_foreign, either, join, split_params, stands_beside, type_names, unused, usage_in, use_in,
    Bounds, Param, Usage,
};
use super::disc::{
    decided, discriminants_of, parse_disc_expr, said_by, DiscExpr, Discriminants,
};
use super::field::Field;
use super::kind::{Kind, Mode};
use super::problem::Problem;
use super::shape::{
    field_foreign_target, foreign_inner, foreign_of, foreign_target, foreign_targets_in, targets_in,
    vec_info, vec_shape,
};
use super::syntax::text_of;
use super::tag::{
    enum_tags, enum_tags_are, fnv, same_control, type_key, Tag,
};
use super::ty::{mentions, texts, type_mentions_any, Ty};

verus! {

/// A variant: the names of its annotations, its fields, whether these have names, and what
/// stands behind its `=`.
pub struct Variant {
    pub attrs: Vec<Option<String>>,
    pub fields: Vec<Field>,
    pub named: bool,
    pub disc: Option<DiscExpr>,
}

/// The form that a variant takes in the payload.
#[derive(Clone, Copy, Debug, PartialEq, Eq, Structural)]
pub enum VariantForm {
    /// Plain bytes, one field after another.
    Aggregate,
    /// A descriptor of elements.
    List,
    /// An array of references, of pointers or of blocks.
    Array,
    /// A pointer to a block in any file.
    Foreign,
    /// A tuple with pointers to blocks in any file.
    ForeignTuple,
    /// One reference, or one block.
    Single,
}

/// The form of a variant with these fields and this kind.
pub open spec fn variant_form(fields: Seq<Field>, named: bool, kind: Kind) -> VariantForm {
    if named || fields.len() != 1 {
        VariantForm::Aggregate
    } else {
        let ty = fields[0].ty;
        if kind == Kind::Pod && vec_shape(ty) is None && foreign_of(ty) is None {
            VariantForm::Aggregate
        } else if vec_shape(ty) is Some {
            VariantForm::List
        } else if ty is Array {
            VariantForm::Array
        } else if foreign_of(ty) is Some {
            VariantForm::Foreign
        } else if ty is Tuple && foreign_target(ty) is Some {
            VariantForm::ForeignTuple
        } else {
            VariantForm::Single
        }
    }
}

/// What is made of a variant.
#[derive(Clone, Copy, Debug, PartialEq, Eq, Structural)]
pub struct VariantPlan {
    pub kind: Kind,
    pub form: VariantForm,
    /// Whether there is a pointer to another file.
    pub foreign: bool,
}

/// The plan of a variant of this kind.
pub open spec fn variant_plan(v: Variant, kind: Kind) -> VariantPlan {
    let form = variant_form(v.fields@, v.named, kind);
    VariantPlan {
        kind,
        form,
        foreign: form != VariantForm::Aggregate && foreign_target(v.fields@[0].ty) is Some,
    }
}

impl VariantPlan {
    /// Whether it is a counted reference, strong or weak, in the file of the enum.
    pub open spec fn spec_shared(self) -> bool {
        self.form != VariantForm::Aggregate && !self.foreign && (self.kind == Kind::Strong
            || self.kind == Kind::Weak)
    }

    /// Whether it is a weak reference in the file of the enum.
    pub open spec fn spec_weak(self) -> bool {
        self.form != VariantForm::Aggregate && !self.foreign && self.kind == Kind::Weak
    }

    /// Whether a block lies in the payload.
    pub open spec fn spec_embeds(self) -> bool {
        self.form != VariantForm::Aggregate && self.kind == Kind::Embed
    }

    /// Whether there is something to release.
    pub open spec fn spec_releases(self) -> bool {
        self.form != VariantForm::Aggregate && (self.form == VariantForm::List || !(self.kind
            == Kind::Ref || self.kind == Kind::Pod))
    }

    pub fn shared(&self) -> (r: bool)
        ensures
            r == self.spec_shared(),
    {
        self.form != VariantForm::Aggregate && !self.foreign && (self.kind == Kind::Strong
            || self.kind == Kind::Weak)
    }

    pub fn weak(&self) -> (r: bool)
        ensures
            r == self.spec_weak(),
    {
        self.form != VariantForm::Aggregate && !self.foreign && self.kind == Kind::Weak
    }

    pub fn embeds(&self) -> (r: bool)
        ensures
            r == self.spec_embeds(),
    {
        self.form != VariantForm::Aggregate && self.kind == Kind::Embed
    }

    pub fn releases(&self) -> (r: bool)
        ensures
            r == self.spec_releases(),
    {
        self.form != VariantForm::Aggregate && (self.form == VariantForm::List || !(self.kind
            == Kind::Ref || self.kind == Kind::Pod))
    }
}

/// What is wrong with where the parameters occur in a field of a variant, if anything.
pub open spec fn inline_problem(ty: Ty, kind: Kind, params: Seq<Seq<char>>) -> Option<Problem> {
    if mentions(ty, params) && targets_in(ty).len() == 0 && (kind == Kind::Pod || kind
        == Kind::Embed) {
        Some(Problem::GenericInlineVariant)
    } else if mentions(ty, params) && beside_foreign(ty, params) {
        Some(Problem::GenericBesideForeignVariant)
    } else {
        None
    }
}

/// The first field of a variant in which the parameters occur wrongly.
pub open spec fn first_inline_problem(
    fields: Seq<Field>,
    kind: Kind,
    params: Seq<Seq<char>>,
) -> Option<Problem>
    decreases fields.len(),
{
    if fields.len() == 0 {
        None
    } else {
        match first_inline_problem(fields.drop_last(), kind, params) {
            Some(p) => Some(p),
            None => inline_problem(fields.last().ty, kind, params),
        }
    }
}

/// What is wrong with a variant, if anything.
pub open spec fn variant_problem(v: Variant, params: Seq<Seq<char>>) -> Option<Problem> {
    match kind_of(v.attrs@) {
        Err(p) => Some(p),
        Ok(kind) => if has_attr(v.attrs@, "bstack_mut"@) {
            Some(Problem::MutableVariant)
        } else {
            first_inline_problem(v.fields@, kind, params)
        },
    }
}

/// The plans of variants; the first that is wrong decides.
pub open spec fn variant_plans(variants: Seq<Variant>, params: Seq<Seq<char>>) -> Result<
    Seq<VariantPlan>,
    Problem,
>
    decreases variants.len(),
{
    if variants.len() == 0 {
        Ok(Seq::empty())
    } else {
        match variant_plans(variants.drop_last(), params) {
            Err(p) => Err(p),
            Ok(before) => match variant_problem(variants.last(), params) {
                Some(p) => Err(p),
                None => Ok(
                    before.push(
                        variant_plan(variants.last(), kind_of(variants.last().attrs@)->Ok_0),
                    ),
                ),
            },
        }
    }
}

/// Where the parameter `p` occurs in the fields of a variant.
pub open spec fn used_in_fields(fields: Seq<Field>, kind: Kind, p: Seq<char>) -> Usage
    decreases fields.len(),
{
    if fields.len() == 0 {
        unused()
    } else {
        either(used_in_fields(fields.drop_last(), kind, p), use_in(fields.last().ty, kind, p))
    }
}

/// Where the parameter `p` occurs in variants.
pub open spec fn used_in_variants(variants: Seq<Variant>, p: Seq<char>) -> Usage
    decreases variants.len(),
{
    if variants.len() == 0 {
        unused()
    } else {
        either(
            used_in_variants(variants.drop_last(), p),
            match kind_of(variants.last().attrs@) {
                Ok(kind) => used_in_fields(variants.last().fields@, kind, p),
                Err(_) => unused(),
            },
        )
    }
}

/// What a parameter of an enum that occurs like this has to be: a block in any case.
pub open spec fn enum_bounds(u: Usage) -> Bounds {
    Bounds {
        pod: false,
        block: true,
        shared: u.strong,
        weakable: u.weak,
        clonable: u.foreign_owned,
        embeddable: false,
        lasting: u.foreign,
    }
}

/// The ways to change a whole value.
#[derive(Clone, Copy, Debug, PartialEq, Eq, Structural)]
pub enum WholeChange {
    /// There is none.
    Fixed,
    /// Overwrite it.
    Overwrite,
    /// Put a value in and hand the old one out.
    Exchange,
}

/// What follows from the forms of all variants.
#[derive(Clone, Copy, Debug, PartialEq, Eq, Structural)]
pub struct Summary {
    /// Whether any is a counted reference.
    pub shared: bool,
    /// Whether any is a weak reference.
    pub weak: bool,
    /// Whether any has a pointer to another file.
    pub foreign: bool,
    /// Whether in any a block lies in the payload.
    pub embeds: bool,
    /// Whether in any there is something to release.
    pub releases: bool,
    /// Whether the payload of any is more than plain bytes.
    pub needs_payload: bool,
}

/// What follows from the forms of all variants.
pub open spec fn summary_of(plans: Seq<VariantPlan>) -> Summary {
    Summary {
        shared: exists|i: int| 0 <= i < plans.len() && (#[trigger] plans[i]).spec_shared(),
        weak: exists|i: int| 0 <= i < plans.len() && (#[trigger] plans[i]).spec_weak(),
        foreign: exists|i: int| 0 <= i < plans.len() && (#[trigger] plans[i]).foreign,
        embeds: exists|i: int| 0 <= i < plans.len() && (#[trigger] plans[i]).spec_embeds(),
        releases: exists|i: int| 0 <= i < plans.len() && (#[trigger] plans[i]).spec_releases(),
        needs_payload: exists|i: int|
            0 <= i < plans.len() && (#[trigger] plans[i]).form != VariantForm::Aggregate,
    }
}

/// What is wrong with changing values of the enum in place, if anything, and how it is done.
pub open spec fn whole_change(mutable: bool, mode: Mode, s: Summary) -> Result<
    WholeChange,
    Problem,
> {
    if !mutable {
        Ok(WholeChange::Fixed)
    } else if mode != Mode::Plain {
        Err(Problem::MutableCountedEnum)
    } else if s.embeds {
        Err(Problem::MutableEmbeddingEnum)
    } else if s.releases {
        Ok(WholeChange::Exchange)
    } else {
        Ok(WholeChange::Overwrite)
    }
}

/// What is made of an enum.
pub struct EnumPlan {
    /// What each type parameter has to be.
    pub types: Vec<Bounds>,
    pub discriminants: Discriminants,
    /// The tag of the enum, and that of its control block where one was asked for.
    pub tags: (Tag, Option<Tag>),
    pub variants: Vec<VariantPlan>,
    pub summary: Summary,
    pub change: WholeChange,
    /// Whether the owned form borrows, and whether it names the allocator.
    pub data_borrows: bool,
    pub data_allocator: bool,
    /// Whether the borrowed form borrows, and whether it names the allocator.
    pub view_borrows: bool,
    pub view_allocator: bool,
    /// Whether a failed constructor gives the value back.
    pub hands_back: bool,
    /// Whether a block can be copied, and lie in another: a counted one can do neither.
    pub standalone: bool,
}

/// [`EnumPlan`], as a value.
#[verifier::ext_equal]
pub struct EnumView {
    pub types: Seq<Bounds>,
    pub variants: Seq<VariantPlan>,
    pub summary: Summary,
    pub change: WholeChange,
    pub data_borrows: bool,
    pub data_allocator: bool,
    pub view_borrows: bool,
    pub view_allocator: bool,
    pub hands_back: bool,
    pub standalone: bool,
}

/// The plan as a value, but for the discriminants and the tags.
pub open spec fn enum_view(p: EnumPlan) -> EnumView {
    EnumView {
        types: p.types@,
        variants: p.variants@,
        summary: p.summary,
        change: p.change,
        data_borrows: p.data_borrows,
        data_allocator: p.data_allocator,
        view_borrows: p.view_borrows,
        view_allocator: p.view_allocator,
        hands_back: p.hands_back,
        standalone: p.standalone,
    }
}

/// Whether all parameters are types.
pub open spec fn only_types(params: Seq<Param>) -> bool {
    forall|i: int| 0 <= i < params.len() ==> #[trigger] params[i] is Type
}

/// What is made of an enum with these parameters, variants and plans.
pub open spec fn assembled(
    mode: Mode,
    types: Seq<Seq<char>>,
    variants: Seq<Variant>,
    plans: Seq<VariantPlan>,
    change: WholeChange,
) -> EnumView {
    let s = summary_of(plans);
    EnumView {
        types: types.map_values(|p: Seq<char>| enum_bounds(used_in_variants(variants, p))),
        variants: plans,
        summary: s,
        change,
        data_borrows: s.shared || s.foreign,
        data_allocator: s.shared,
        view_borrows: s.weak || s.foreign,
        view_allocator: s.weak,
        hands_back: s.releases && !s.embeds,
        standalone: mode == Mode::Plain,
    }
}

/// The expressions of the discriminants.
pub open spec fn disc_exprs(variants: Seq<Variant>) -> Seq<Option<DiscExpr>> {
    variants.map_values(|v: Variant| v.disc)
}

/// Whether a result is what is made of an enum: the parameters, the variants, the discriminants,
/// the tags and the way to change it are looked at in that order. `hash` is that of the name.
pub open spec fn enum_is(
    hash: u64,
    name: Seq<char>,
    attr: Attr,
    mutable: bool,
    params: Seq<Param>,
    variants: Seq<Variant>,
    r: Result<EnumPlan, Problem>,
) -> bool {
    let types = type_names(params);
    if !only_types(params) {
        r matches Err(p) && p == Problem::GenericEnumParameter
    } else if params.len() > 0 && attr.mode != Mode::Plain {
        r matches Err(p) && p == Problem::GenericCountedEnum
    } else {
        match variant_plans(variants, types) {
            Err(p) => r matches Err(q) && p == q,
            Ok(plans) => match decided(said_by(disc_exprs(variants)), attr.repr) {
                Err(p) => r matches Err(q) && p == q,
                Ok(numbers) => if same_control(
                    hash,
                    name,
                    text_of(attr.tag),
                    text_of(attr.ctrl_tag),
                ) {
                    r matches Err(p) && p == Problem::SameControlTag
                } else {
                    match whole_change(mutable, attr.mode, summary_of(plans)) {
                        Err(p) => r matches Err(q) && p == q,
                        Ok(change) => {
                            &&& r matches Ok(plan)
                            &&& enum_tags_are(
                                hash,
                                name,
                                text_of(attr.tag),
                                text_of(attr.ctrl_tag),
                                plan.tags,
                            )
                            &&& plan.discriminants.ty == numbers.0
                            &&& plan.discriminants.values@ == numbers.1
                            &&& enum_view(plan) == assembled(attr.mode, types, variants, plans, change)
                        },
                    }
                },
            },
        }
    }
}

fn form_of(fields: &Vec<Field>, named: bool, kind: Kind) -> (r: VariantForm)
    ensures
        r == variant_form(fields@, named, kind),
{
    if named || fields.len() != 1 {
        return VariantForm::Aggregate;
    }
    let ty = &fields[0].ty;
    let list: bool = vec_info(ty).is_some();
    let foreign: bool = foreign_inner(ty).is_some();
    if kind == Kind::Pod && !list && !foreign {
        return VariantForm::Aggregate;
    }
    if list {
        return VariantForm::List;
    }
    if let Ty::Array { elem: _, len: _ } = ty {
        return VariantForm::Array;
    }
    if foreign {
        return VariantForm::Foreign;
    }
    if let Ty::Tuple { elems: _ } = ty {
        if field_foreign_target(ty).is_some() {
            return VariantForm::ForeignTuple;
        }
    }
    VariantForm::Single
}

fn plan_variant(v: &Variant, kind: Kind) -> (r: VariantPlan)
    ensures
        r == variant_plan(*v, kind),
{
    let form = form_of(&v.fields, v.named, kind);
    let foreign: bool = form != VariantForm::Aggregate && field_foreign_target(
        &v.fields[0].ty,
    ).is_some();
    VariantPlan { kind, form, foreign }
}

proof fn lemma_inline_stays(fields: Seq<Field>, n: int, kind: Kind, params: Seq<Seq<char>>)
    requires
        0 <= n <= fields.len(),
        first_inline_problem(fields.take(n), kind, params) is Some,
    ensures
        first_inline_problem(fields, kind, params) == first_inline_problem(
            fields.take(n),
            kind,
            params,
        ),
    decreases fields.len(),
{
    if n == fields.len() {
        assert(fields.take(n) =~= fields);
    } else {
        assert(fields.drop_last().take(n) =~= fields.take(n));
        lemma_inline_stays(fields.drop_last(), n, kind, params);
    }
}

fn check_inline(fields: &Vec<Field>, kind: Kind, params: &Vec<String>) -> (r: Option<Problem>)
    ensures
        r == first_inline_problem(fields@, kind, texts(params@)),
{
    let mut i: usize = 0;
    assert(fields@.take(0) =~= Seq::empty());
    while i < fields.len()
        invariant
            i <= fields@.len(),
            first_inline_problem(fields@.take(i as int), kind, texts(params@)) is None,
        decreases fields@.len() - i,
    {
        assert(fields@.take(i + 1).drop_last() =~= fields@.take(i as int));
        assert(fields@.take(i + 1).last() == fields@[i as int]);
        let ty = &fields[i].ty;
        if type_mentions_any(ty, params) {
            let targets = foreign_targets_in(ty);
            assert(targets_in(*ty).len() == targets@.len());
            if targets.len() == 0 && (kind == Kind::Pod || kind == Kind::Embed) {
                proof {
                    lemma_inline_stays(fields@, i + 1, kind, texts(params@));
                }
                return Some(Problem::GenericInlineVariant);
            }
            if stands_beside(ty, params) {
                proof {
                    lemma_inline_stays(fields@, i + 1, kind, texts(params@));
                }
                return Some(Problem::GenericBesideForeignVariant);
            }
        }
        i += 1;
    }
    assert(fields@.take(i as int) =~= fields@);
    None
}

proof fn lemma_variants_prefix(variants: Seq<Variant>, n: int, params: Seq<Seq<char>>)
    requires
        0 <= n <= variants.len(),
        variant_plans(variants.take(n), params) is Err,
    ensures
        variant_plans(variants, params) == variant_plans(variants.take(n), params),
    decreases variants.len(),
{
    if n == variants.len() {
        assert(variants.take(n) =~= variants);
    } else {
        assert(variants.drop_last().take(n) =~= variants.take(n));
        lemma_variants_prefix(variants.drop_last(), n, params);
    }
}

fn plan_variants(variants: &Vec<Variant>, params: &Vec<String>) -> (r: Result<
    Vec<VariantPlan>,
    Problem,
>)
    ensures
        match variant_plans(variants@, texts(params@)) {
            Err(p) => r matches Err(q) && p == q,
            Ok(v) => r matches Ok(out) && out@ == v,
        },
{
    let mut out: Vec<VariantPlan> = Vec::new();
    let mut i: usize = 0;
    assert(variants@.take(0) =~= Seq::empty());
    assert(out@ =~= Seq::empty());
    while i < variants.len()
        invariant
            i <= variants@.len(),
            variant_plans(variants@.take(i as int), texts(params@)) == Ok::<
                Seq<VariantPlan>,
                Problem,
            >(out@),
        decreases variants@.len() - i,
    {
        assert(variants@.take(i + 1).drop_last() =~= variants@.take(i as int));
        assert(variants@.take(i + 1).last() == variants@[i as int]);
        let v = &variants[i];
        let kind = match classify_attrs(&v.attrs) {
            Err(p) => {
                proof {
                    lemma_variants_prefix(variants@, i + 1, texts(params@));
                }
                return Err(p);
            },
            Ok(k) => k,
        };
        if is_bstack_mut(&v.attrs) {
            proof {
                lemma_variants_prefix(variants@, i + 1, texts(params@));
            }
            return Err(Problem::MutableVariant);
        }
        if let Some(p) = check_inline(&v.fields, kind, params) {
            proof {
                lemma_variants_prefix(variants@, i + 1, texts(params@));
            }
            return Err(p);
        }
        out.push(plan_variant(v, kind));
        i += 1;
    }
    assert(variants@.take(i as int) =~= variants@);
    Ok(out)
}

fn nowhere() -> (r: Usage)
    ensures
        r == unused(),
{
    Usage {
        pod: false,
        blockish: false,
        strong: false,
        weak: false,
        in_ondisk: false,
        foreign_owned: false,
        foreign: false,
        embed: false,
    }
}

fn usage_in_fields(fields: &Vec<Field>, kind: Kind, p: &String) -> (r: Usage)
    ensures
        r == used_in_fields(fields@, kind, p@),
{
    let mut u = nowhere();
    let mut i: usize = 0;
    assert(fields@.take(0) =~= Seq::empty());
    while i < fields.len()
        invariant
            i <= fields@.len(),
            u == used_in_fields(fields@.take(i as int), kind, p@),
        decreases fields@.len() - i,
    {
        assert(fields@.take(i + 1).drop_last() =~= fields@.take(i as int));
        assert(fields@.take(i + 1).last() == fields@[i as int]);
        u = join(u, usage_in(&fields[i].ty, kind, p));
        i += 1;
    }
    assert(fields@.take(i as int) =~= fields@);
    u
}

fn usage_in_variants(variants: &Vec<Variant>, p: &String) -> (r: Usage)
    ensures
        r == used_in_variants(variants@, p@),
{
    let mut u = nowhere();
    let mut i: usize = 0;
    assert(variants@.take(0) =~= Seq::empty());
    while i < variants.len()
        invariant
            i <= variants@.len(),
            u == used_in_variants(variants@.take(i as int), p@),
        decreases variants@.len() - i,
    {
        assert(variants@.take(i + 1).drop_last() =~= variants@.take(i as int));
        assert(variants@.take(i + 1).last() == variants@[i as int]);
        if let Ok(kind) = classify_attrs(&variants[i].attrs) {
            u = join(u, usage_in_fields(&variants[i].fields, kind, p));
        }
        i += 1;
    }
    assert(variants@.take(i as int) =~= variants@);
    u
}

fn summarize(plans: &Vec<VariantPlan>) -> (r: Summary)
    ensures
        r == summary_of(plans@),
{
    let mut s = Summary {
        shared: false,
        weak: false,
        foreign: false,
        embeds: false,
        releases: false,
        needs_payload: false,
    };
    let mut i: usize = 0;
    while i < plans.len()
        invariant
            i <= plans@.len(),
            s.shared == exists|j: int| 0 <= j < i && (#[trigger] plans@[j]).spec_shared(),
            s.weak == exists|j: int| 0 <= j < i && (#[trigger] plans@[j]).spec_weak(),
            s.foreign == exists|j: int| 0 <= j < i && (#[trigger] plans@[j]).foreign,
            s.embeds == exists|j: int| 0 <= j < i && (#[trigger] plans@[j]).spec_embeds(),
            s.releases == exists|j: int| 0 <= j < i && (#[trigger] plans@[j]).spec_releases(),
            s.needs_payload == exists|j: int|
                0 <= j < i && (#[trigger] plans@[j]).form != VariantForm::Aggregate,
        decreases plans@.len() - i,
    {
        let p: VariantPlan = plans[i];
        s = Summary {
            shared: s.shared || p.shared(),
            weak: s.weak || p.weak(),
            foreign: s.foreign || p.foreign,
            embeds: s.embeds || p.embeds(),
            releases: s.releases || p.releases(),
            needs_payload: s.needs_payload || p.form != VariantForm::Aggregate,
        };
        i += 1;
    }
    s
}

fn change_of(mutable: bool, mode: Mode, s: Summary) -> (r: Result<WholeChange, Problem>)
    ensures
        r == whole_change(mutable, mode, s),
{
    if !mutable {
        Ok(WholeChange::Fixed)
    } else if mode != Mode::Plain {
        Err(Problem::MutableCountedEnum)
    } else if s.embeds {
        Err(Problem::MutableEmbeddingEnum)
    } else if s.releases {
        Ok(WholeChange::Exchange)
    } else {
        Ok(WholeChange::Overwrite)
    }
}

fn numbers_of(variants: &Vec<Variant>) -> (r: Vec<Option<Result<i128, Problem>>>)
    ensures
        r@ == said_by(disc_exprs(variants@)),
{
    let mut said: Vec<Option<Result<i128, Problem>>> = Vec::new();
    let mut i: usize = 0;
    while i < variants.len()
        invariant
            i <= variants@.len(),
            said@ =~= said_by(disc_exprs(variants@)).take(i as int),
        decreases variants@.len() - i,
    {
        let one: Option<Result<i128, Problem>> = match &variants[i].disc {
            Some(e) => Some(parse_disc_expr(e)),
            None => None,
        };
        said.push(one);
        i += 1;
    }
    assert(said@ =~= said_by(disc_exprs(variants@)));
    said
}

fn all_are_types(params: &Vec<Param>) -> (r: bool)
    ensures
        r == only_types(params@),
{
    let mut i: usize = 0;
    while i < params.len()
        invariant
            i <= params@.len(),
            forall|j: int| 0 <= j < i ==> #[trigger] params@[j] is Type,
        decreases params@.len() - i,
    {
        match &params[i] {
            Param::Type(_) => {},
            _ => {
                return false;
            },
        }
        i += 1;
    }
    true
}

/// What is made of the enum `name` of `package`: the parameters, the variants, the
/// discriminants, the tags and the way to change it are looked at in that order, and the first
/// thing that is wrong decides.
pub fn expand_enum(
    package: &str,
    name: &str,
    attr: &Attr,
    mutable: bool,
    params: &Vec<Param>,
    variants: &Vec<Variant>,
) -> (r: Result<EnumPlan, Problem>)
    ensures
        enum_is(
            fnv(type_key(package.spec_bytes(), name.spec_bytes())),
            name@,
            *attr,
            mutable,
            params@,
            variants@,
            r,
        ),
{
    if !all_are_types(params) {
        return Err(Problem::GenericEnumParameter);
    }
    if params.len() > 0 && attr.mode != Mode::Plain {
        return Err(Problem::GenericCountedEnum);
    }
    let names = split_params(params);
    let plans = match plan_variants(variants, &names.types) {
        Err(p) => {
            return Err(p);
        },
        Ok(v) => v,
    };
    let numbers = match discriminants_of(&numbers_of(variants), attr.repr) {
        Err(p) => {
            return Err(p);
        },
        Ok(d) => d,
    };
    let tags = match enum_tags(package, name, &attr.tag, &attr.ctrl_tag) {
        Err(p) => {
            return Err(p);
        },
        Ok(t) => t,
    };
    let summary = summarize(&plans);
    let change = match change_of(mutable, attr.mode, summary) {
        Err(p) => {
            return Err(p);
        },
        Ok(c) => c,
    };
    let ghost type_texts = texts(names.types@);
    let mut types: Vec<Bounds> = Vec::new();
    let mut i: usize = 0;
    while i < names.types.len()
        invariant
            i <= names.types@.len(),
            type_texts == texts(names.types@),
            types@.len() == i,
            forall|k: int|
                0 <= k < i ==> #[trigger] types@[k] == enum_bounds(
                    used_in_variants(variants@, type_texts[k]),
                ),
        decreases names.types@.len() - i,
    {
        assert(type_texts[i as int] == names.types@[i as int]@);
        let u = usage_in_variants(variants, &names.types[i]);
        types.push(
            Bounds {
                pod: false,
                block: true,
                shared: u.strong,
                weakable: u.weak,
                clonable: u.foreign_owned,
                embeddable: false,
                lasting: u.foreign,
            },
        );
        i += 1;
    }
    let plan = EnumPlan {
        types,
        discriminants: numbers,
        tags,
        variants: plans,
        summary,
        change,
        data_borrows: summary.shared || summary.foreign,
        data_allocator: summary.shared,
        view_borrows: summary.weak || summary.foreign,
        view_allocator: summary.weak,
        hands_back: summary.releases && !summary.embeds,
        standalone: attr.mode == Mode::Plain,
    };
    assert(enum_view(plan) =~= assembled(
        attr.mode,
        type_texts,
        variants@,
        plan.variants@,
        change,
    ));
    Ok(plan)
}

/// An enum that owns something is never overwritten in place: its old value is handed out. And
/// only an enum with one owner is changed in place at all.
pub proof fn law_owning_enum_is_exchanged(
    hash: u64,
    name: Seq<char>,
    attr: Attr,
    mutable: bool,
    params: Seq<Param>,
    variants: Seq<Variant>,
    plan: EnumPlan,
)
    requires
        enum_is(hash, name, attr, mutable, params, variants, Ok(plan)),
    ensures
        plan.summary.releases ==> plan.change != WholeChange::Overwrite,
        plan.change != WholeChange::Fixed ==> attr.mode == Mode::Plain && mutable,
{
}

} // verus!
