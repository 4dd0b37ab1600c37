//! The pieces that are put together, the names they get, and the conversions that are asked for.
use vstd::prelude::*;

use crate::derive::convert::{
    expand_cast, expand_cast_text, expand_move, expand_move_text, first_type, CastPlan, MovePlan,
};
use crate::derive::kind::Kind;
use crate::derive::model::{FieldParts, VariantParts};
use crate::derive::plan::{name_getter, name_mutator, name_raw_slice, raw_slice_len, Mutator};
use crate::derive::problem::Problem;
use crate::derive::syntax::{arg_texts, arguments_named, short_enough, target_named, Target};

verus! {

/// The pieces of a field come behind those that are there, each sort by itself, and none is lost.
pub proof fn law_field_pieces_come_behind<T, P>(
    a: &mut FieldParts<T, P>,
    b: FieldParts<T, P>,
)
    requires
        call_ensures(FieldParts::<T, P>::merge, (a, b), ()),
    ensures
        final(a).on_disk_fields@ == old(a).on_disk_fields@ + b.on_disk_fields@,
        final(a).accessors@ == old(a).accessors@ + b.accessors@,
        final(a).setters@ == old(a).setters@ + b.setters@,
        final(a).ctor_params@ == old(a).ctor_params@ + b.ctor_params@,
        final(a).ctor_preps@ == old(a).ctor_preps@ + b.ctor_preps@,
        final(a).ctor_inits@ == old(a).ctor_inits@ + b.ctor_inits@,
        final(a).ctor_handback@ == old(a).ctor_handback@ + b.ctor_handback@,
        final(a).ctor_handback_ty@ == old(a).ctor_handback_ty@ + b.ctor_handback_ty@,
        final(a).ctor_post@ == old(a).ctor_post@ + b.ctor_post@,
        final(a).drop_stmts@ == old(a).drop_stmts@ + b.drop_stmts@,
        final(a).clone_stmts@ == old(a).clone_stmts@ + b.clone_stmts@,
        final(a).mv_caps@ == old(a).mv_caps@ + b.mv_caps@,
        final(a).mv_types@ == old(a).mv_types@ + b.mv_types@,
        final(a).mv_recon@ == old(a).mv_recon@ + b.mv_recon@,
        final(a).wrapper_defs@ == old(a).wrapper_defs@ + b.wrapper_defs@,
        final(a).pod_types@ == old(a).pod_types@ + b.pod_types@,
        final(a).ref_coerced <==> old(a).ref_coerced || b.ref_coerced,
{
    assert(final(a)@.on_disk_fields == old(a)@.on_disk_fields + b@.on_disk_fields);
    assert(final(a)@.accessors == old(a)@.accessors + b@.accessors);
    assert(final(a)@.setters == old(a)@.setters + b@.setters);
    assert(final(a)@.ctor_params == old(a)@.ctor_params + b@.ctor_params);
    assert(final(a)@.ctor_preps == old(a)@.ctor_preps + b@.ctor_preps);
    assert(final(a)@.ctor_inits == old(a)@.ctor_inits + b@.ctor_inits);
    assert(final(a)@.ctor_handback == old(a)@.ctor_handback + b@.ctor_handback);
    assert(final(a)@.ctor_handback_ty == old(a)@.ctor_handback_ty + b@.ctor_handback_ty);
    assert(final(a)@.ctor_post == old(a)@.ctor_post + b@.ctor_post);
    assert(final(a)@.drop_stmts == old(a)@.drop_stmts + b@.drop_stmts);
    assert(final(a)@.clone_stmts == old(a)@.clone_stmts + b@.clone_stmts);
    assert(final(a)@.mv_caps == old(a)@.mv_caps + b@.mv_caps);
    assert(final(a)@.mv_types == old(a)@.mv_types + b@.mv_types);
    assert(final(a)@.mv_recon == old(a)@.mv_recon + b@.mv_recon);
    assert(final(a)@.wrapper_defs == old(a)@.wrapper_defs + b@.wrapper_defs);
    assert(final(a)@.pod_types == old(a)@.pod_types + b@.pod_types);
}

/// The pieces of a variant come behind those that are there, each sort by itself, and none is
/// lost.
pub proof fn law_variant_pieces_come_behind<T, P>(
    a: &mut VariantParts<T, P>,
    b: VariantParts<T, P>,
)
    requires
        call_ensures(VariantParts::<T, P>::merge, (a, b), ()),
    ensures
        final(a).data_variants@ == old(a).data_variants@ + b.data_variants@,
        final(a).view_variants@ == old(a).view_variants@ + b.view_variants@,
        final(a).new_arms@ == old(a).new_arms@ + b.new_arms@,
        final(a).read_arms@ == old(a).read_arms@ + b.read_arms@,
        final(a).move_arms@ == old(a).move_arms@ + b.move_arms@,
        final(a).raw_arms@ == old(a).raw_arms@ + b.raw_arms@,
        final(a).drop_arms@ == old(a).drop_arms@ + b.drop_arms@,
        final(a).clone_arms@ == old(a).clone_arms@ + b.clone_arms@,
        final(a).payload_sizes@ == old(a).payload_sizes@ + b.payload_sizes@,
        final(a).pod_types@ == old(a).pod_types@ + b.pod_types@,
        final(a).embed_types@ == old(a).embed_types@ + b.embed_types@,
        final(a).has_embed <==> old(a).has_embed || b.has_embed,
        final(a).needs_payload <==> old(a).needs_payload || b.needs_payload,
        final(a).has_shared <==> old(a).has_shared || b.has_shared,
        final(a).has_weak <==> old(a).has_weak || b.has_weak,
        final(a).has_foreign <==> old(a).has_foreign || b.has_foreign,
{
    assert(final(a)@.data_variants == old(a)@.data_variants + b@.data_variants);
    assert(final(a)@.view_variants == old(a)@.view_variants + b@.view_variants);
    assert(final(a)@.new_arms == old(a)@.new_arms + b@.new_arms);
    assert(final(a)@.read_arms == old(a)@.read_arms + b@.read_arms);
    assert(final(a)@.move_arms == old(a)@.move_arms + b@.move_arms);
    assert(final(a)@.raw_arms == old(a)@.raw_arms + b@.raw_arms);
    assert(final(a)@.drop_arms == old(a)@.drop_arms + b@.drop_arms);
    assert(final(a)@.clone_arms == old(a)@.clone_arms + b@.clone_arms);
    assert(final(a)@.payload_sizes == old(a)@.payload_sizes + b@.payload_sizes);
    assert(final(a)@.pod_types == old(a)@.pod_types + b@.pod_types);
    assert(final(a)@.embed_types == old(a)@.embed_types + b@.embed_types);
}

/// At the start there are no pieces.
pub proof fn law_at_the_start_there_are_no_pieces<T, P>(
    a: FieldParts<T, P>,
    b: VariantParts<T, P>,
)
    requires
        call_ensures(FieldParts::<T, P>::new, (), a),
        call_ensures(VariantParts::<T, P>::new, (), b),
    ensures
        a.on_disk_fields@.len() == 0,
        a.accessors@.len() == 0,
        a.setters@.len() == 0,
        a.ctor_params@.len() == 0,
        a.ctor_preps@.len() == 0,
        a.ctor_inits@.len() == 0,
        a.ctor_handback@.len() == 0,
        a.ctor_handback_ty@.len() == 0,
        a.ctor_post@.len() == 0,
        a.drop_stmts@.len() == 0,
        a.clone_stmts@.len() == 0,
        a.mv_caps@.len() == 0,
        a.mv_types@.len() == 0,
        a.mv_recon@.len() == 0,
        a.wrapper_defs@.len() == 0,
        a.pod_types@.len() == 0,
        !a.ref_coerced,
        b.data_variants@.len() == 0,
        b.view_variants@.len() == 0,
        b.new_arms@.len() == 0,
        b.read_arms@.len() == 0,
        b.move_arms@.len() == 0,
        b.raw_arms@.len() == 0,
        b.drop_arms@.len() == 0,
        b.clone_arms@.len() == 0,
        b.payload_sizes@.len() == 0,
        b.pod_types@.len() == 0,
        b.embed_types@.len() == 0,
        !b.has_embed,
        !b.needs_payload,
        !b.has_shared,
        !b.has_weak,
        !b.has_foreign,
{
    assert(a@.on_disk_fields.len() == 0);
    assert(a@.accessors.len() == 0);
    assert(a@.setters.len() == 0);
    assert(a@.ctor_params.len() == 0);
    assert(a@.ctor_preps.len() == 0);
    assert(a@.ctor_inits.len() == 0);
    assert(a@.ctor_handback.len() == 0);
    assert(a@.ctor_handback_ty.len() == 0);
    assert(a@.ctor_post.len() == 0);
    assert(a@.drop_stmts.len() == 0);
    assert(a@.clone_stmts.len() == 0);
    assert(a@.mv_caps.len() == 0);
    assert(a@.mv_types.len() == 0);
    assert(a@.mv_recon.len() == 0);
    assert(a@.wrapper_defs.len() == 0);
    assert(a@.pod_types.len() == 0);
    assert(b@.data_variants.len() == 0);
    assert(b@.view_variants.len() == 0);
    assert(b@.new_arms.len() == 0);
    assert(b@.read_arms.len() == 0);
    assert(b@.move_arms.len() == 0);
    assert(b@.raw_arms.len() == 0);
    assert(b@.drop_arms.len() == 0);
    assert(b@.clone_arms.len() == 0);
    assert(b@.payload_sizes.len() == 0);
    assert(b@.pod_types.len() == 0);
    assert(b@.embed_types.len() == 0);
}

/// The ways to change a field are called by what they do, with the name of the field; no two of
/// them are called the same.
pub proof fn law_ways_to_change_are_told_apart(
    m: Mutator,
    k: Mutator,
    name: &str,
    a: String,
    b: String,
)
    requires
        call_ensures(name_mutator, (m, name), a),
        call_ensures(name_mutator, (k, name), b),
    ensures
        m == Mutator::SetAll ==> a@ == "set_"@ + name@,
        m == Mutator::ReplaceAll ==> a@ == "replace_"@ + name@,
        m == Mutator::SetAt ==> a@ == "set_"@ + name@ + "_at"@,
        m == Mutator::ReplaceAt ==> a@ == "replace_"@ + name@ + "_at"@,
        m != k ==> a@ != b@,
{
    reveal_strlit("set_");
    reveal_strlit("replace_");
    reveal_strlit("_at");
    assert("set_"@.len() == 4);
    assert("replace_"@.len() == 8);
    assert("_at"@.len() == 3);
    let n = name@.len();
    assert(("set_"@ + name@).len() == 4 + n);
    assert(("replace_"@ + name@).len() == 8 + n);
    assert(("set_"@ + name@ + "_at"@).len() == 7 + n);
    assert(("replace_"@ + name@ + "_at"@).len() == 11 + n);
    let long = |x: Mutator|
        match x {
            Mutator::SetAll => 4 + n,
            Mutator::ReplaceAll => 8 + n,
            Mutator::SetAt => 7 + n,
            Mutator::ReplaceAt => 11 + n,
        };
    assert(a@.len() == long(m));
    assert(b@.len() == long(k));
}

/// The ways to read a field are called by what they do, with the name of the field.
pub proof fn law_ways_to_read_are_named_after_the_field(name: &str, get: String, raw: String)
    requires
        call_ensures(name_getter, (name,), get),
        call_ensures(name_raw_slice, (name,), raw),
    ensures
        get@ == "get_"@ + name@,
        raw@ == "raw_"@ + name@ + "_slice"@,
{
}

/// A single field takes as many bytes as what lies in it: a value, a block, or an offset.
pub proof fn law_a_field_takes_the_bytes_of_what_lies_in_it(
    kind: Kind,
    value: u64,
    block: u64,
    r: u64,
)
    requires
        call_ensures(raw_slice_len, (kind, value, block), r),
    ensures
        kind == Kind::Pod ==> r == value,
        kind == Kind::Embed ==> r == block,
        kind != Kind::Pod && kind != Kind::Embed ==> r == 8,
{
}

/// Whether `t` is the first type among the arguments.
pub open spec fn is_first_type(args: Seq<Option<String>>, t: Seq<char>) -> bool {
    exists|i: int|
        {
            &&& 0 <= i < args.len()
            &&& #[trigger] args[i] matches Some(x)
            &&& x@ == t
            &&& forall|j: int| 0 <= j < i ==> (#[trigger] args[j]) is None
        }
}

proof fn lemma_first_type(args: Seq<Option<String>>)
    ensures
        match first_type(arg_texts(args)) {
            Some(t) => is_first_type(args, t),
            None => forall|j: int| 0 <= j < args.len() ==> (#[trigger] args[j]) is None,
        },
    decreases args.len(),
{
    let all = arg_texts(args);
    if args.len() > 0 {
        let rest = args.drop_first();
        assert(arg_texts(rest) =~= all.drop_first());
        lemma_first_type(rest);
        if args[0] is None {
            match first_type(arg_texts(rest)) {
                Some(t) => {
                    let i = choose|i: int|
                        {
                            &&& 0 <= i < rest.len()
                            &&& #[trigger] rest[i] matches Some(x)
                            &&& x@ == t
                            &&& forall|j: int| 0 <= j < i ==> (#[trigger] rest[j]) is None
                        };
                    assert(args[i + 1] == rest[i]);
                    assert forall|j: int| 0 <= j < i + 1 implies (#[trigger] args[j]) is None by {
                        if j > 0 {
                            assert(args[j] == rest[j - 1]);
                        }
                    }
                },
                None => {
                    assert forall|j: int| 0 <= j < args.len() implies (#[trigger] args[j])
                        is None by {
                        if j > 0 {
                            assert(args[j] == rest[j - 1]);
                        }
                    }
                },
            }
        }
    }
}

/// The conversion goes by the last name of the target: to an owner of unknown type, to an owner of
/// the type in the brackets, to a pointer to that type, to a plain reference, or to a look at the
/// block as the target itself.
pub proof fn law_a_cast_goes_by_the_name_of_its_target(
    target: &Target,
    r: Result<CastPlan, Problem>,
)
    requires
        call_ensures(expand_cast, (target,), r),
    ensures
        match target.path {
            None => r matches Err(p) && p == Problem::CastTargetNotAPath,
            Some(path) => {
                let last = path.0@;
                &&& last == "BStackOwnedSlice"@ ==> (r matches Ok(x) && x is IntoSlice)
                &&& last == "BStackSlice"@ ==> (r matches Err(p) && p
                    == Problem::CastToBorrowedSlice)
                &&& last == "BStackRef"@ ==> (r matches Ok(x) && x is IntoLocal)
                &&& last == "BStackOwned"@ ==> match r {
                    Ok(CastPlan::CastInto(t)) => is_first_type(path.1@, t@),
                    Err(p) => p == Problem::CastWithoutTarget && forall|j: int|
                        0 <= j < path.1@.len() ==> (#[trigger] path.1@[j]) is None,
                    _ => false,
                }
                &&& last == "Foreign"@ ==> match r {
                    Ok(CastPlan::FromLocal(t)) => is_first_type(path.1@, t@),
                    Err(p) => p == Problem::CastWithoutTarget && forall|j: int|
                        0 <= j < path.1@.len() ==> (#[trigger] path.1@[j]) is None,
                    _ => false,
                }
                &&& last != "BStackOwnedSlice"@ && last != "BStackSlice"@ && last != "BStackRef"@
                    && last != "BStackOwned"@ && last != "Foreign"@ ==> (r matches Ok(
                    CastPlan::CastAs(t),
                ) && t@ == target.text@)
            },
        },
{
    reveal_strlit("BStackOwnedSlice");
    reveal_strlit("BStackSlice");
    reveal_strlit("BStackRef");
    reveal_strlit("BStackOwned");
    reveal_strlit("Foreign");
    assert("BStackOwnedSlice"@.len() == 16);
    assert("BStackSlice"@.len() == 11);
    assert("BStackRef"@.len() == 9);
    assert("BStackOwned"@.len() == 11);
    assert("Foreign"@.len() == 7);
    assert("BStackSlice"@[6] == 'S');
    assert("BStackOwned"@[6] == 'O');
    if let Some(path) = target.path {
        lemma_first_type(path.1@);
    }
}

/// A move takes the allocator of the handle, or the one that is given; with more arguments or none
/// it is refused.
pub proof fn law_a_move_goes_by_its_arguments(n: usize, r: Result<MovePlan, Problem>)
    requires
        call_ensures(expand_move, (n,), r),
    ensures
        r == Ok::<MovePlan, Problem>(MovePlan::FromHandle) <==> n == 1,
        r == Ok::<MovePlan, Problem>(MovePlan::Given) <==> n == 2,
        r matches Err(p) ==> p == Problem::MoveArguments,
{
}

/// A cast that is written out stands for what a cast to its target stands for.
pub proof fn law_a_written_cast_is_a_cast_to_its_target(
    text: &str,
    short: bool,
    target: &Target,
    r: Result<CastPlan, Problem>,
    q: Result<CastPlan, Problem>,
)
    requires
        call_ensures(short_enough, (text,), short),
        call_ensures(expand_cast_text, (text,), r),
        call_ensures(expand_cast, (target,), q),
    ensures
        !short ==> (r matches Err(p) && p == Problem::ArgumentsTooLong),
        short && target_named(text@) is None ==> (r matches Err(p) && p == Problem::NotACast),
        short && target_named(text@) == Some(target@) ==> match (r, q) {
            (Err(a), Err(b)) => a == b,
            (Ok(CastPlan::IntoSlice), Ok(CastPlan::IntoSlice)) => true,
            (Ok(CastPlan::IntoLocal), Ok(CastPlan::IntoLocal)) => true,
            (Ok(CastPlan::CastInto(a)), Ok(CastPlan::CastInto(b))) => a@ == b@,
            (Ok(CastPlan::FromLocal(a)), Ok(CastPlan::FromLocal(b))) => a@ == b@,
            (Ok(CastPlan::CastAs(a)), Ok(CastPlan::CastAs(b))) => a@ == b@,
            _ => false,
        },
{
}

/// A move that is written out stands for what a move with as many arguments stands for.
pub proof fn law_a_written_move_goes_by_its_arguments(
    text: &str,
    short: bool,
    n: usize,
    r: Result<MovePlan, Problem>,
    q: Result<MovePlan, Problem>,
)
    requires
        call_ensures(short_enough, (text,), short),
        call_ensures(expand_move_text, (text,), r),
        call_ensures(expand_move, (n,), q),
    ensures
        !short ==> r == Err::<MovePlan, Problem>(Problem::ArgumentsTooLong),
        short && arguments_named(text@) is None ==> r == Err::<MovePlan, Problem>(
            Problem::BadArguments,
        ),
        short && arguments_named(text@) == Some(n as nat) ==> r == q,
{
}

} // verus!
