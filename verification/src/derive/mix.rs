//! What is mixed into the tag of a type, so that it is another for each instance and module.
use vstd::prelude::*;

use super::block::{BlockPlan, ParamPlan};
use super::ty::texts;

verus! {

/// One thing that is mixed into a tag.
pub enum Mix {
    /// The tag of the block that a type parameter stands for.
    Tag(String),
    /// The size of the plain bytes that a type parameter stands for.
    Size(String),
    /// The value of a constant parameter.
    Value(String),
    /// The path of the module.
    Module,
}

/// [`Mix`], as a value.
pub enum MixView {
    Tag(Seq<char>),
    Size(Seq<char>),
    Value(Seq<char>),
    Module,
}

impl View for Mix {
    type V = MixView;

    open spec fn view(&self) -> MixView {
        match *self {
            Mix::Tag(s) => MixView::Tag(s@),
            Mix::Size(s) => MixView::Size(s@),
            Mix::Value(s) => MixView::Value(s@),
            Mix::Module => MixView::Module,
        }
    }
}

/// What a type parameter adds: plain bytes have no tag, and those of one size lie alike in a
/// file.
pub open spec fn type_mix(name: Seq<char>, plan: ParamPlan) -> MixView {
    if plan.bounds.pod {
        MixView::Size(name)
    } else {
        MixView::Tag(name)
    }
}

/// What is mixed into the tag of a struct: its type parameters, and then its constant ones,
/// which the layout may depend on.
pub open spec fn struct_mixes(
    types: Seq<Seq<char>>,
    plans: Seq<ParamPlan>,
    consts: Seq<Seq<char>>,
) -> Seq<MixView> {
    Seq::new(types.len(), |i: int| type_mix(types[i], plans[i])) + consts.map_values(
        |c: Seq<char>| MixView::Value(c),
    )
}

/// What is mixed into the tag of an enum: its type parameters, which are all blocks, and its
/// module.
pub open spec fn enum_mixes_of(types: Seq<Seq<char>>) -> Seq<MixView> {
    types.map_values(|t: Seq<char>| MixView::Tag(t)).push(MixView::Module)
}

/// The mixes as values.
pub open spec fn mix_views(v: Seq<Mix>) -> Seq<MixView> {
    v.map_values(|m: Mix| m@)
}

/// What is mixed into the tag of a struct, in order; nothing where it has no parameters.
pub fn tag_mixes(plan: &BlockPlan) -> (r: Vec<Mix>)
    requires
        plan.types@.len() == plan.names.types@.len(),
    ensures
        mix_views(r@) == struct_mixes(
            texts(plan.names.types@),
            plan.types@,
            texts(plan.names.consts@),
        ),
{
    let ghost want = struct_mixes(
        texts(plan.names.types@),
        plan.types@,
        texts(plan.names.consts@),
    );
    let ghost n = plan.types@.len() as int;
    let mut out: Vec<Mix> = Vec::new();
    let mut i: usize = 0;
    while i < plan.names.types.len()
        invariant
            i <= n,
            n == plan.names.types@.len(),
            n == plan.types@.len(),
            want == struct_mixes(
                texts(plan.names.types@),
                plan.types@,
                texts(plan.names.consts@),
            ),
            mix_views(out@) =~= want.take(i as int),
        decreases n - i,
    {
        let name = plan.names.types[i].clone();
        assert(want[i as int] == type_mix(plan.names.types@[i as int]@, plan.types@[i as int]));
        let m = if plan.types[i].bounds.pod {
            Mix::Size(name)
        } else {
            Mix::Tag(name)
        };
        let ghost before = out@;
        out.push(m);
        assert(mix_views(out@) =~= mix_views(before).push(m@));
        assert(want.take(i + 1) =~= want.take(i as int).push(want[i as int]));
        i += 1;
    }
    let mut k: usize = 0;
    while k < plan.names.consts.len()
        invariant
            k <= plan.names.consts@.len(),
            n == plan.names.types@.len(),
            want == struct_mixes(
                texts(plan.names.types@),
                plan.types@,
                texts(plan.names.consts@),
            ),
            mix_views(out@) =~= want.take(n + k),
        decreases plan.names.consts@.len() - k,
    {
        let name = plan.names.consts[k].clone();
        assert(want[n + k] == MixView::Value(plan.names.consts@[k as int]@));
        let ghost before = out@;
        let m = Mix::Value(name);
        out.push(m);
        assert(mix_views(out@) =~= mix_views(before).push(m@));
        assert(want.take(n + k + 1) =~= want.take(n + k).push(want[n + k]));
        k += 1;
    }
    assert(want.take(n + k) =~= want);
    out
}

/// What is mixed into the tag of an enum with these type parameters, in order.
pub fn enum_mixes(types: &Vec<String>) -> (r: Vec<Mix>)
    ensures
        mix_views(r@) == enum_mixes_of(texts(types@)),
{
    let ghost want = enum_mixes_of(texts(types@));
    let mut out: Vec<Mix> = Vec::new();
    let mut i: usize = 0;
    while i < types.len()
        invariant
            i <= types@.len(),
            want == enum_mixes_of(texts(types@)),
            mix_views(out@) =~= want.take(i as int),
        decreases types@.len() - i,
    {
        let name = types[i].clone();
        assert(want[i as int] == MixView::Tag(types@[i as int]@));
        let ghost before = out@;
        let m = Mix::Tag(name);
        out.push(m);
        assert(mix_views(out@) =~= mix_views(before).push(m@));
        assert(want.take(i + 1) =~= want.take(i as int).push(want[i as int]));
        i += 1;
    }
    let ghost before = out@;
    out.push(Mix::Module);
    assert(mix_views(out@) =~= mix_views(before).push(MixView::Module));
    assert(mix_views(out@) =~= want);
    out
}

/// What is mixed into the tag that was asked for the control block of an enum: its module.
pub fn control_mixes() -> (r: Vec<Mix>)
    ensures
        mix_views(r@) == seq![MixView::Module],
{
    let mut out: Vec<Mix> = Vec::new();
    out.push(Mix::Module);
    assert(mix_views(out@) =~= seq![MixView::Module]);
    out
}

/// The bytes that an instance mixes in, where `bytes` says what each thing is in it.
pub open spec fn mixed_in(ms: Seq<MixView>, bytes: spec_fn(MixView) -> Seq<u8>) -> Seq<Seq<u8>> {
    ms.map_values(bytes)
}

/// Every parameter of a struct is mixed in, so that two instances that differ in the tag or the
/// size of a type, or in the value of a constant, mix in different bytes.
pub proof fn law_instances_of_a_struct_mix_in_different_bytes(
    types: Seq<Seq<char>>,
    plans: Seq<ParamPlan>,
    consts: Seq<Seq<char>>,
    one: spec_fn(MixView) -> Seq<u8>,
    other: spec_fn(MixView) -> Seq<u8>,
    k: int,
)
    requires
        0 <= k < types.len() + consts.len(),
        k < types.len() ==> one(type_mix(types[k], plans[k])) != other(
            type_mix(types[k], plans[k]),
        ),
        k >= types.len() ==> one(MixView::Value(consts[k - types.len()])) != other(
            MixView::Value(consts[k - types.len()]),
        ),
    ensures
        mixed_in(struct_mixes(types, plans, consts), one) != mixed_in(
            struct_mixes(types, plans, consts),
            other,
        ),
{
    let ms = struct_mixes(types, plans, consts);
    assert(mixed_in(ms, one)[k] == one(ms[k]));
    assert(mixed_in(ms, other)[k] == other(ms[k]));
}

/// Every type parameter of an enum is mixed in, and its module: two instances that differ in
/// the tag of a type, and two enums in different modules, mix in different bytes.
pub proof fn law_instances_of_an_enum_mix_in_different_bytes(
    types: Seq<Seq<char>>,
    one: spec_fn(MixView) -> Seq<u8>,
    other: spec_fn(MixView) -> Seq<u8>,
    k: int,
)
    requires
        0 <= k <= types.len(),
        k < types.len() ==> one(MixView::Tag(types[k])) != other(MixView::Tag(types[k])),
        k == types.len() ==> one(MixView::Module) != other(MixView::Module),
    ensures
        mixed_in(enum_mixes_of(types), one) != mixed_in(enum_mixes_of(types), other),
{
    let ms = enum_mixes_of(types);
    assert(mixed_in(ms, one)[k] == one(ms[k]));
    assert(mixed_in(ms, other)[k] == other(ms[k]));
}

} // verus!
