//! What is made of a struct: the bounds on its parameters, and the plans of its fields.
use vstd::prelude::*;

use super::attr::{classify_attrs, kind_of, Attr};
use super::field::Field;
use super::kind::{Kind, Mode};
use super::plan::{plan_field, plan_view, planned, FieldPlan, PlanView};
use super::problem::Problem;
use super::shape::{derefs, foreign_targets_in, targets_in};
use super::ty::{mentions, texts, type_mentions_any, Ty};

verus! {

/// A generic parameter.
pub enum Param {
    Lifetime,
    Type(String),
    Const(String),
}

/// Where a parameter occurs in the fields.
#[derive(Clone, Copy, Debug, PartialEq, Eq, Structural)]
pub struct Usage {
    /// In plain bytes.
    pub pod: bool,
    /// As a block, or the target of a reference to one.
    pub blockish: bool,
    pub strong: bool,
    pub weak: bool,
    /// In what lies in the block itself.
    pub in_ondisk: bool,
    /// As the target of an owning pointer to another file.
    pub foreign_owned: bool,
    /// As the target of a pointer to another file.
    pub foreign: bool,
    pub embed: bool,
}

/// A parameter that occurs nowhere.
pub open spec fn unused() -> Usage {
    Usage {
        pod: false,
        blockish: false,
        strong: false,
        weak: false,
        in_ondisk: false,
        foreign_owned: false,
        foreign: false,
        embed: false,
    }
}

/// Where a parameter occurs, in one place or another.
pub open spec fn either(a: Usage, b: Usage) -> Usage {
    Usage {
        pod: a.pod || b.pod,
        blockish: a.blockish || b.blockish,
        strong: a.strong || b.strong,
        weak: a.weak || b.weak,
        in_ondisk: a.in_ondisk || b.in_ondisk,
        foreign_owned: a.foreign_owned || b.foreign_owned,
        foreign: a.foreign || b.foreign,
        embed: a.embed || b.embed,
    }
}

/// Whether the parameter `p` occurs in one of the types.
pub open spec fn in_some(tys: Seq<Ty>, p: Seq<char>) -> bool {
    exists|i: int| 0 <= i < tys.len() && mentions(#[trigger] tys[i], seq![p])
}

/// Where the parameter `p` occurs in a field of the type `ty` and this kind.
pub open spec fn use_in(ty: Ty, kind: Kind, p: Seq<char>) -> Usage {
    if !mentions(ty, seq![p]) {
        unused()
    } else if in_some(targets_in(ty), p) {
        Usage {
            blockish: true,
            foreign: true,
            foreign_owned: kind == Kind::Owned,
            strong: kind == Kind::Strong,
            weak: kind == Kind::Weak,
            ..unused()
        }
    } else {
        Usage {
            pod: kind == Kind::Pod,
            blockish: kind != Kind::Pod,
            strong: kind == Kind::Strong,
            weak: kind == Kind::Weak,
            in_ondisk: kind == Kind::Pod || kind == Kind::Embed,
            embed: kind == Kind::Embed,
            ..unused()
        }
    }
}

/// Where the parameter `p` occurs in fields.
pub open spec fn used(fields: Seq<Field>, p: Seq<char>) -> Usage
    decreases fields.len(),
{
    if fields.len() == 0 {
        unused()
    } else {
        either(
            used(fields.drop_last(), p),
            match kind_of(fields.last().attrs@) {
                Ok(kind) => use_in(fields.last().ty, kind, p),
                Err(_) => unused(),
            },
        )
    }
}

/// Whether a parameter stands beside a pointer to another file, in a field that holds one.
pub open spec fn beside_foreign(ty: Ty, params: Seq<Seq<char>>) -> bool {
    targets_in(ty).len() > 0 && exists|k: int|
        0 <= k < params.len() && mentions(ty, seq![#[trigger] params[k]]) && !in_some(
            targets_in(ty),
            params[k],
        )
}

/// What is wrong with where the parameters occur in a field, if anything.
pub open spec fn use_problem(field: Field, params: Seq<Seq<char>>) -> Option<Problem> {
    match kind_of(field.attrs@) {
        Err(p) => Some(p),
        Ok(_) => if beside_foreign(field.ty, params) {
            Some(Problem::GenericBesideForeign)
        } else {
            None
        },
    }
}

/// The first thing that is wrong with where the parameters occur in fields.
pub open spec fn first_use_problem(fields: Seq<Field>, params: Seq<Seq<char>>) -> Option<Problem>
    decreases fields.len(),
{
    if fields.len() == 0 {
        None
    } else {
        match first_use_problem(fields.drop_last(), params) {
            Some(p) => Some(p),
            None => use_problem(fields.last(), params),
        }
    }
}

fn just(p: &String) -> (r: Vec<String>)
    ensures
        texts(r@) == seq![p@],
{
    let mut out: Vec<String> = Vec::new();
    out.push(p.clone());
    assert(texts(out@) =~= seq![p@]);
    out
}

fn occurs_in_some(tys: &Vec<&Ty>, one: &Vec<String>, Ghost(p): Ghost<Seq<char>>) -> (r: bool)
    requires
        texts(one@) == seq![p],
    ensures
        r == in_some(derefs(tys@), p),
{
    let mut i: usize = 0;
    while i < tys.len()
        invariant
            i <= tys@.len(),
            texts(one@) == seq![p],
            forall|j: int| 0 <= j < i ==> !mentions(*(#[trigger] tys@[j]), seq![p]),
        decreases tys@.len() - i,
    {
        if type_mentions_any(tys[i], one) {
            assert(derefs(tys@)[i as int] == *tys@[i as int]);
            assert(mentions(derefs(tys@)[i as int], seq![p]));
            return true;
        }
        i += 1;
    }
    assert forall|j: int| 0 <= j < derefs(tys@).len() implies !mentions(
        #[trigger] derefs(tys@)[j],
        seq![p],
    ) by {
        assert(derefs(tys@)[j] == *tys@[j]);
    }
    false
}

pub(crate) fn usage_in(ty: &Ty, kind: Kind, p: &String) -> (r: Usage)
    ensures
        r == use_in(*ty, kind, p@),
{
    let none = Usage {
        pod: false,
        blockish: false,
        strong: false,
        weak: false,
        in_ondisk: false,
        foreign_owned: false,
        foreign: false,
        embed: false,
    };
    let one = just(p);
    if !type_mentions_any(ty, &one) {
        return none;
    }
    let strong: bool = kind == Kind::Strong;
    let weak: bool = kind == Kind::Weak;
    let targets = foreign_targets_in(ty);
    if occurs_in_some(&targets, &one, Ghost(p@)) {
        return Usage {
            blockish: true,
            foreign: true,
            foreign_owned: kind == Kind::Owned,
            strong,
            weak,
            ..none
        };
    }
    Usage {
        pod: kind == Kind::Pod,
        blockish: kind != Kind::Pod,
        strong,
        weak,
        in_ondisk: kind == Kind::Pod || kind == Kind::Embed,
        embed: kind == Kind::Embed,
        ..none
    }
}

pub(crate) fn join(a: Usage, b: Usage) -> (r: Usage)
    ensures
        r == either(a, b),
{
    Usage {
        pod: a.pod || b.pod,
        blockish: a.blockish || b.blockish,
        strong: a.strong || b.strong,
        weak: a.weak || b.weak,
        in_ondisk: a.in_ondisk || b.in_ondisk,
        foreign_owned: a.foreign_owned || b.foreign_owned,
        foreign: a.foreign || b.foreign,
        embed: a.embed || b.embed,
    }
}

fn usage_of(fields: &Vec<Field>, p: &String) -> (r: Usage)
    ensures
        r == used(fields@, p@),
{
    let mut u = Usage {
        pod: false,
        blockish: false,
        strong: false,
        weak: false,
        in_ondisk: false,
        foreign_owned: false,
        foreign: false,
        embed: false,
    };
    let mut i: usize = 0;
    assert(fields@.take(0) =~= Seq::empty());
    while i < fields.len()
        invariant
            i <= fields@.len(),
            u == used(fields@.take(i as int), p@),
        decreases fields@.len() - i,
    {
        assert(fields@.take(i + 1).drop_last() =~= fields@.take(i as int));
        assert(fields@.take(i + 1).last() == fields@[i as int]);
        if let Ok(kind) = classify_attrs(&fields[i].attrs) {
            u = join(u, usage_in(&fields[i].ty, kind, p));
        }
        i += 1;
    }
    assert(fields@.take(i as int) =~= fields@);
    u
}

pub(crate) fn stands_beside(ty: &Ty, params: &Vec<String>) -> (r: bool)
    ensures
        r == beside_foreign(*ty, texts(params@)),
{
    let targets = foreign_targets_in(ty);
    assert(derefs(targets@).len() == targets@.len());
    if targets.len() == 0 {
        return false;
    }
    let mut i: usize = 0;
    while i < params.len()
        invariant
            i <= params@.len(),
            derefs(targets@) == targets_in(*ty),
            targets_in(*ty).len() > 0,
            forall|k: int|
                0 <= k < i ==> !(mentions(*ty, seq![(#[trigger] params@[k])@]) && !in_some(
                    targets_in(*ty),
                    params@[k]@,
                )),
        decreases params@.len() - i,
    {
        let one = just(&params[i]);
        if type_mentions_any(ty, &one) && !occurs_in_some(&targets, &one, Ghost(params@[i as int]@)) {
            assert(texts(params@)[i as int] == params@[i as int]@);
            return true;
        }
        i += 1;
    }
    assert forall|k: int| 0 <= k < texts(params@).len() implies !(mentions(
        *ty,
        seq![#[trigger] texts(params@)[k]],
    ) && !in_some(targets_in(*ty), texts(params@)[k])) by {
        assert(texts(params@)[k] == params@[k]@);
    }
    false
}

proof fn lemma_use_problem_stays(fields: Seq<Field>, n: int, params: Seq<Seq<char>>)
    requires
        0 <= n <= fields.len(),
        first_use_problem(fields.take(n), params) is Some,
    ensures
        first_use_problem(fields, params) == first_use_problem(fields.take(n), params),
    decreases fields.len(),
{
    if n == fields.len() {
        assert(fields.take(n) =~= fields);
    } else {
        assert(fields.drop_last().take(n) =~= fields.take(n));
        lemma_use_problem_stays(fields.drop_last(), n, params);
    }
}

fn check_uses(fields: &Vec<Field>, params: &Vec<String>) -> (r: Result<(), Problem>)
    ensures
        match first_use_problem(fields@, texts(params@)) {
            Some(p) => r matches Err(q) && p == q,
            None => r is Ok,
        },
{
    let mut i: usize = 0;
    assert(fields@.take(0) =~= Seq::empty());
    while i < fields.len()
        invariant
            i <= fields@.len(),
            first_use_problem(fields@.take(i as int), texts(params@)) is None,
        decreases fields@.len() - i,
    {
        assert(fields@.take(i + 1).drop_last() =~= fields@.take(i as int));
        assert(fields@.take(i + 1).last() == fields@[i as int]);
        if let Err(p) = classify_attrs(&fields[i].attrs) {
            proof {
                lemma_use_problem_stays(fields@, i + 1, texts(params@));
            }
            return Err(p);
        }
        if stands_beside(&fields[i].ty, params) {
            proof {
                lemma_use_problem_stays(fields@, i + 1, texts(params@));
            }
            return Err(Problem::GenericBesideForeign);
        }
        i += 1;
    }
    assert(fields@.take(i as int) =~= fields@);
    Ok(())
}

/// What a parameter has to be.
#[derive(Clone, Copy, Debug, PartialEq, Eq, Structural)]
pub struct Bounds {
    /// Plain bytes.
    pub pod: bool,
    /// A block.
    pub block: bool,
    /// A counted block.
    pub shared: bool,
    /// A block with weak references.
    pub weakable: bool,
    /// A block that can be copied.
    pub clonable: bool,
    /// A block that can lie in another.
    pub embeddable: bool,
    /// Without borrowed parts.
    pub lasting: bool,
}

/// What a parameter that occurs like this has to be.
pub open spec fn bounds_for(u: Usage) -> Bounds {
    Bounds {
        pod: u.pod,
        block: !u.pod,
        shared: !u.pod && u.strong,
        weakable: !u.pod && u.weak,
        clonable: !u.pod && u.foreign_owned,
        embeddable: !u.pod && u.embed,
        lasting: u.in_ondisk || u.foreign,
    }
}

fn bounds_of(u: Usage) -> (r: Bounds)
    ensures
        r == bounds_for(u),
{
    Bounds {
        pod: u.pod,
        block: !u.pod,
        shared: !u.pod && u.strong,
        weakable: !u.pod && u.weak,
        clonable: !u.pod && u.foreign_owned,
        embeddable: !u.pod && u.embed,
        lasting: u.in_ondisk || u.foreign,
    }
}

/// A type parameter: what it has to be, and whether the layout depends on it.
#[derive(Clone, Copy, Debug, PartialEq, Eq, Structural)]
pub struct ParamPlan {
    pub bounds: Bounds,
    pub on_disk: bool,
}

/// The plan of a parameter that occurs like this.
pub open spec fn param_plan(u: Usage) -> ParamPlan {
    ParamPlan { bounds: bounds_for(u), on_disk: u.in_ondisk }
}

/// The names of the type parameters.
pub open spec fn type_names(params: Seq<Param>) -> Seq<Seq<char>>
    decreases params.len(),
{
    if params.len() == 0 {
        Seq::empty()
    } else {
        match params.last() {
            Param::Type(s) => type_names(params.drop_last()).push(s@),
            _ => type_names(params.drop_last()),
        }
    }
}

/// The names of the constant parameters.
pub open spec fn const_names(params: Seq<Param>) -> Seq<Seq<char>>
    decreases params.len(),
{
    if params.len() == 0 {
        Seq::empty()
    } else {
        match params.last() {
            Param::Const(s) => const_names(params.drop_last()).push(s@),
            _ => const_names(params.drop_last()),
        }
    }
}

/// Whether there is a lifetime among the parameters.
pub open spec fn has_lifetime(params: Seq<Param>) -> bool {
    exists|i: int| 0 <= i < params.len() && #[trigger] params[i] is Lifetime
}

/// The parameters, by what they are.
pub struct ParamNames {
    pub types: Vec<String>,
    pub consts: Vec<String>,
    pub lifetime: bool,
}

/// Sort the parameters by what they are.
pub fn split_params(params: &Vec<Param>) -> (r: ParamNames)
    ensures
        texts(r.types@) == type_names(params@),
        texts(r.consts@) == const_names(params@),
        r.lifetime == has_lifetime(params@),
{
    let mut types: Vec<String> = Vec::new();
    let mut consts: Vec<String> = Vec::new();
    let mut lifetime: bool = false;
    let mut i: usize = 0;
    assert(params@.take(0) =~= Seq::empty());
    assert(texts(types@) =~= Seq::empty());
    assert(texts(consts@) =~= Seq::empty());
    while i < params.len()
        invariant
            i <= params@.len(),
            texts(types@) == type_names(params@.take(i as int)),
            texts(consts@) == const_names(params@.take(i as int)),
            lifetime == has_lifetime(params@.take(i as int)),
        decreases params@.len() - i,
    {
        let ghost before = params@.take(i as int);
        let ghost now = params@.take(i + 1);
        proof {
            assert(now.drop_last() =~= before);
            assert(now.last() == params@[i as int]);
            assert(forall|j: int| 0 <= j < i ==> #[trigger] now[j] == before[j]);
        }
        match &params[i] {
            Param::Lifetime => {
                lifetime = true;
                assert(now[i as int] is Lifetime);
            },
            Param::Type(s) => {
                let ghost old_types = types@;
                types.push(s.clone());
                assert(texts(types@) =~= texts(old_types).push(s@));
            },
            Param::Const(s) => {
                let ghost old_consts = consts@;
                consts.push(s.clone());
                assert(texts(consts@) =~= texts(old_consts).push(s@));
            },
        }
        proof {
            if has_lifetime(before) {
                let j = choose|j: int| 0 <= j < before.len() && #[trigger] before[j] is Lifetime;
                assert(now[j] is Lifetime);
            }
            if has_lifetime(now) && !(params@[i as int] is Lifetime) {
                let j = choose|j: int| 0 <= j < now.len() && #[trigger] now[j] is Lifetime;
                assert(before[j] is Lifetime);
            }
        }
        i += 1;
    }
    assert(params@.take(i as int) =~= params@);
    ParamNames { types, consts, lifetime }
}

/// Whether a parameter is used both as plain bytes and as a block.
pub open spec fn two_faced(fields: Seq<Field>, types: Seq<Seq<char>>) -> bool {
    exists|k: int|
        0 <= k < types.len() && used(fields, #[trigger] types[k]).pod && used(
            fields,
            types[k],
        ).blockish
}

/// Whether the parameter `p` occurs in any field.
pub open spec fn in_fields(fields: Seq<Field>, p: Seq<char>) -> bool {
    exists|i: int| 0 <= i < fields.len() && mentions((#[trigger] fields[i]).ty, seq![p])
}

/// The plans of fields; the first field that has none decides.
pub open spec fn all_planned(fields: Seq<Field>, consts: Seq<Seq<char>>) -> Result<
    Seq<PlanView>,
    Problem,
>
    decreases fields.len(),
{
    if fields.len() == 0 {
        Ok(Seq::empty())
    } else {
        match all_planned(fields.drop_last(), consts) {
            Err(p) => Err(p),
            Ok(before) => match planned(fields.last(), consts) {
                Err(p) => Err(p),
                Ok(v) => Ok(before.push(v)),
            },
        }
    }
}

/// What is made of a struct.
pub struct BlockPlan<'a> {
    pub names: ParamNames,
    /// The type parameters.
    pub types: Vec<ParamPlan>,
    /// Whether the layout depends on each constant parameter.
    pub consts: Vec<bool>,
    pub fields: Vec<FieldPlan<'a>>,
    /// Whether a field was written as a reference, and nobody asked to let that pass.
    pub warns_of_reference: bool,
    /// Whether a block can be copied, and lie in another: a counted one can do neither.
    pub standalone: bool,
}

/// [`BlockPlan`], as a value.
pub struct BlockView {
    pub types: Seq<ParamPlan>,
    pub consts: Seq<bool>,
    pub fields: Seq<PlanView>,
    pub warns_of_reference: bool,
    pub standalone: bool,
}

/// The plans as values.
pub open spec fn plan_views(v: Seq<FieldPlan>) -> Seq<PlanView> {
    v.map_values(|p: FieldPlan| plan_view(p))
}

/// The plan as a value.
pub open spec fn block_view(b: BlockPlan) -> BlockView {
    BlockView {
        types: b.types@,
        consts: b.consts@,
        fields: plan_views(b.fields@),
        warns_of_reference: b.warns_of_reference,
        standalone: b.standalone,
    }
}

/// Whether one of the fields was written as a reference.
pub open spec fn any_coerced(fields: Seq<PlanView>) -> bool {
    exists|i: int| 0 <= i < fields.len() && (#[trigger] fields[i]).coerced
}

/// What is made of a struct with these arguments, parameters and fields, or why nothing is.
pub open spec fn planned_block(
    attr: Attr,
    allow_deprecated: bool,
    params: Seq<Param>,
    fields: Seq<Field>,
) -> Result<BlockView, Problem> {
    let types = type_names(params);
    let consts = const_names(params);
    if attr.repr is Some {
        Err(Problem::ReprOnStruct)
    } else if has_lifetime(params) {
        Err(Problem::GenericLifetime)
    } else if params.len() > 0 && attr.mode != Mode::Plain {
        Err(Problem::GenericCounted)
    } else {
        match first_use_problem(fields, types) {
            Some(p) => Err(p),
            None => if two_faced(fields, types) {
                Err(Problem::GenericPodAndBlock)
            } else {
                match all_planned(fields, consts) {
                    Err(p) => Err(p),
                    Ok(plans) => Ok(
                        BlockView {
                            types: types.map_values(|p: Seq<char>| param_plan(used(fields, p))),
                            consts: consts.map_values(|p: Seq<char>| in_fields(fields, p)),
                            fields: plans,
                            warns_of_reference: any_coerced(plans) && !attr.allow_coerced_ref
                                && !allow_deprecated,
                            standalone: attr.mode == Mode::Plain,
                        },
                    ),
                }
            },
        }
    }
}

/// A result whose plan is this one.
pub open spec fn blocks_as(
    r: Result<BlockPlan, Problem>,
    names: (Seq<Seq<char>>, Seq<Seq<char>>),
    want: Result<BlockView, Problem>,
) -> bool {
    match want {
        Err(p) => r matches Err(q) && p == q,
        Ok(v) => r matches Ok(b) && block_view(b) == v && texts(b.names.types@) == names.0
            && texts(b.names.consts@) == names.1 && !b.names.lifetime,
    }
}

fn occurs_in_fields(fields: &Vec<Field>, p: &String) -> (r: bool)
    ensures
        r == in_fields(fields@, p@),
{
    let one = just(p);
    let mut i: usize = 0;
    while i < fields.len()
        invariant
            i <= fields@.len(),
            texts(one@) == seq![p@],
            forall|j: int| 0 <= j < i ==> !mentions((#[trigger] fields@[j]).ty, seq![p@]),
        decreases fields@.len() - i,
    {
        if type_mentions_any(&fields[i].ty, &one) {
            return true;
        }
        i += 1;
    }
    false
}

proof fn lemma_plans_prefix(fields: Seq<Field>, n: int, consts: Seq<Seq<char>>)
    requires
        0 <= n <= fields.len(),
        all_planned(fields.take(n), consts) is Err,
    ensures
        all_planned(fields, consts) == all_planned(fields.take(n), consts),
    decreases fields.len(),
{
    if n == fields.len() {
        assert(fields.take(n) =~= fields);
    } else {
        assert(fields.drop_last().take(n) =~= fields.take(n));
        lemma_plans_prefix(fields.drop_last(), n, consts);
    }
}

/// The plans of fields.
pub fn plan_fields<'a>(fields: &'a Vec<Field>, consts: &Vec<String>) -> (r: Result<
    Vec<FieldPlan<'a>>,
    Problem,
>)
    ensures
        match all_planned(fields@, texts(consts@)) {
            Err(p) => r matches Err(q) && p == q,
            Ok(v) => r matches Ok(out) && plan_views(out@) == v,
        },
{
    let mut out: Vec<FieldPlan<'a>> = Vec::new();
    let mut i: usize = 0;
    assert(fields@.take(0) =~= Seq::empty());
    assert(plan_views(out@) =~= Seq::empty());
    while i < fields.len()
        invariant
            i <= fields@.len(),
            all_planned(fields@.take(i as int), texts(consts@)) == Ok::<Seq<PlanView>, Problem>(
                plan_views(out@),
            ),
        decreases fields@.len() - i,
    {
        assert(fields@.take(i + 1).drop_last() =~= fields@.take(i as int));
        assert(fields@.take(i + 1).last() == fields@[i as int]);
        match plan_field(&fields[i], consts) {
            Err(p) => {
                proof {
                    lemma_plans_prefix(fields@, i + 1, texts(consts@));
                }
                return Err(p);
            },
            Ok(plan) => {
                let ghost before = out@;
                out.push(plan);
                assert(plan_views(out@) =~= plan_views(before).push(plan_view(plan)));
            },
        }
        i += 1;
    }
    assert(fields@.take(i as int) =~= fields@);
    Ok(out)
}

/// What is made of a struct: the arguments, the parameters and the fields are looked at in that
/// order, and the first thing that is wrong decides.
pub fn expand<'a>(
    attr: &Attr,
    allow_deprecated: bool,
    params: &Vec<Param>,
    fields: &'a Vec<Field>,
) -> (r: Result<BlockPlan<'a>, Problem>)
    ensures
        blocks_as(
            r,
            (type_names(params@), const_names(params@)),
            planned_block(*attr, allow_deprecated, params@, fields@),
        ),
{
    if attr.repr.is_some() {
        return Err(Problem::ReprOnStruct);
    }
    let names = split_params(params);
    if names.lifetime {
        return Err(Problem::GenericLifetime);
    }
    if params.len() > 0 && attr.mode != Mode::Plain {
        return Err(Problem::GenericCounted);
    }
    if let Err(p) = check_uses(fields, &names.types) {
        return Err(p);
    }
    let ghost type_texts = texts(names.types@);
    let ghost const_texts = texts(names.consts@);
    let mut types: Vec<ParamPlan> = Vec::new();
    let mut i: usize = 0;
    while i < names.types.len()
        invariant
            i <= names.types@.len(),
            type_texts == texts(names.types@),
            two_faced(fields@, type_texts) ==> planned_block(
                *attr,
                allow_deprecated,
                params@,
                fields@,
            ) == Err::<BlockView, Problem>(Problem::GenericPodAndBlock),
            types@.len() == i,
            forall|k: int|
                0 <= k < i ==> #[trigger] types@[k] == param_plan(used(fields@, type_texts[k])),
            forall|k: int|
                0 <= k < i ==> !(used(fields@, #[trigger] type_texts[k]).pod && used(
                    fields@,
                    type_texts[k],
                ).blockish),
        decreases names.types@.len() - i,
    {
        assert(type_texts[i as int] == names.types@[i as int]@);
        let u = usage_of(fields, &names.types[i]);
        if u.pod && u.blockish {
            assert(two_faced(fields@, type_texts));
            return Err(Problem::GenericPodAndBlock);
        }
        types.push(ParamPlan { bounds: bounds_of(u), on_disk: u.in_ondisk });
        i += 1;
    }
    assert(types@ =~= type_texts.map_values(|p: Seq<char>| param_plan(used(fields@, p))));
    let mut consts: Vec<bool> = Vec::new();
    let mut j: usize = 0;
    while j < names.consts.len()
        invariant
            j <= names.consts@.len(),
            const_texts == texts(names.consts@),
            consts@.len() == j,
            forall|k: int|
                0 <= k < j ==> #[trigger] consts@[k] == in_fields(fields@, const_texts[k]),
        decreases names.consts@.len() - j,
    {
        assert(const_texts[j as int] == names.consts@[j as int]@);
        let b: bool = occurs_in_fields(fields, &names.consts[j]);
        consts.push(b);
        j += 1;
    }
    assert(consts@ =~= const_texts.map_values(|p: Seq<char>| in_fields(fields@, p)));
    let plans = match plan_fields(fields, &names.consts) {
        Err(p) => {
            return Err(p);
        },
        Ok(v) => v,
    };
    let mut coerced: bool = false;
    let mut k: usize = 0;
    while k < plans.len()
        invariant
            k <= plans@.len(),
            coerced == exists|m: int| 0 <= m < k && (#[trigger] plans@[m]).coerced,
        decreases plans@.len() - k,
    {
        if plans[k].coerced {
            coerced = true;
        }
        k += 1;
    }
    proof {
        let views = plan_views(plans@);
        if coerced {
            let m = choose|m: int| 0 <= m < plans@.len() && (#[trigger] plans@[m]).coerced;
            assert(views[m].coerced);
        }
        if any_coerced(views) {
            let m = choose|m: int| 0 <= m < views.len() && (#[trigger] views[m]).coerced;
            assert(plans@[m].coerced);
        }
    }
    Ok(
        BlockPlan {
            names,
            types,
            consts,
            fields: plans,
            warns_of_reference: coerced && !attr.allow_coerced_ref && !allow_deprecated,
            standalone: attr.mode == Mode::Plain,
        },
    )
}

/// A parameter that the layout depends on is plain bytes or an embeddable block, and lasts;
/// through references alone it leaves the layout as it is.
pub proof fn law_layout_depends_on_inline_parameters(
    attr: Attr,
    allow_deprecated: bool,
    params: Seq<Param>,
    fields: Seq<Field>,
    k: int,
)
    requires
        planned_block(attr, allow_deprecated, params, fields) is Ok,
        0 <= k < type_names(params).len(),
    ensures
        ({
            let p = planned_block(attr, allow_deprecated, params, fields)->Ok_0.types[k];
            &&& p.on_disk ==> p.bounds.lasting && (p.bounds.pod || p.bounds.embeddable)
            &&& p.bounds.pod ==> !p.bounds.block && p.on_disk
        }),
{
    lemma_inline_use(fields, type_names(params)[k]);
}

proof fn lemma_inline_use(fields: Seq<Field>, p: Seq<char>)
    ensures
        used(fields, p).in_ondisk ==> used(fields, p).pod || used(fields, p).embed,
        used(fields, p).pod ==> used(fields, p).in_ondisk,
    decreases fields.len(),
{
    if fields.len() > 0 {
        lemma_inline_use(fields.drop_last(), p);
    }
}

} // verus!
