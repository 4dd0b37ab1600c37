//! Which conversion a cast or a move stands for.
use vstd::prelude::*;

use super::problem::Problem;
use super::syntax::{
    arg_texts, arguments_named, arguments_of, is_short, short_enough, target_named, target_of,
    Target, TargetView,
};
use super::ty::is_name;

verus! {

/// The conversion that a cast to a type stands for.
pub enum CastPlan {
    /// Forget the type of an owned block.
    IntoSlice,
    /// Give an owned block the type with this text.
    CastInto(String),
    /// Name a block of the type with this text in its file.
    FromLocal(String),
    /// Take a named block for one of its own file.
    IntoLocal,
    /// Look at a block as one of the type with this text.
    CastAs(String),
}

/// The first type among the arguments.
pub open spec fn first_type(args: Seq<Option<Seq<char>>>) -> Option<Seq<char>>
    decreases args.len(),
{
    if args.len() == 0 {
        None
    } else {
        match args[0] {
            Some(t) => Some(t),
            None => first_type(args.drop_first()),
        }
    }
}

/// Whether a plan is the conversion that a cast to `target` stands for. The last name of the
/// target decides.
pub open spec fn cast_is(target: TargetView, r: Result<CastPlan, Problem>) -> bool {
    match target.path {
        None => r matches Err(p) && p == Problem::CastTargetNotAPath,
        Some((last, args)) => if last == "BStackOwnedSlice"@ {
            r matches Ok(CastPlan::IntoSlice)
        } else if last == "BStackSlice"@ {
            r matches Err(p) && p == Problem::CastToBorrowedSlice
        } else if last == "BStackOwned"@ {
            match first_type(args) {
                Some(t) => r matches Ok(CastPlan::CastInto(x)) && x@ == t,
                None => r matches Err(p) && p == Problem::CastWithoutTarget,
            }
        } else if last == "Foreign"@ {
            match first_type(args) {
                Some(t) => r matches Ok(CastPlan::FromLocal(x)) && x@ == t,
                None => r matches Err(p) && p == Problem::CastWithoutTarget,
            }
        } else if last == "BStackRef"@ {
            r matches Ok(CastPlan::IntoLocal)
        } else {
            r matches Ok(CastPlan::CastAs(x)) && x@ == target.text
        },
    }
}

/// The first type among the arguments, or the problem that there is none.
pub fn first_type_arg(args: &Vec<Option<String>>) -> (r: Result<String, Problem>)
    ensures
        match first_type(arg_texts(args@)) {
            Some(t) => r matches Ok(x) && x@ == t,
            None => r matches Err(p) && p == Problem::CastWithoutTarget,
        },
{
    let mut i: usize = 0;
    let ghost all = arg_texts(args@);
    assert(all.skip(0) =~= all);
    while i < args.len()
        invariant
            i <= args@.len(),
            all == arg_texts(args@),
            first_type(all.skip(i as int)) == first_type(all),
        decreases args@.len() - i,
    {
        assert(all.skip(i as int).drop_first() =~= all.skip(i + 1));
        if let Some(t) = &args[i] {
            return Ok(t.clone());
        }
        i += 1;
    }
    Err(Problem::CastWithoutTarget)
}

/// The conversion that a cast to `target` stands for.
pub fn expand_cast(target: &Target) -> (r: Result<CastPlan, Problem>)
    ensures
        cast_is(target@, r),
{
    match &target.path {
        None => Err(Problem::CastTargetNotAPath),
        Some(path) => {
            let last = &path.0;
            if is_name(last, "BStackOwnedSlice") {
                Ok(CastPlan::IntoSlice)
            } else if is_name(last, "BStackSlice") {
                Err(Problem::CastToBorrowedSlice)
            } else if is_name(last, "BStackOwned") {
                match first_type_arg(&path.1) {
                    Ok(t) => Ok(CastPlan::CastInto(t)),
                    Err(p) => Err(p),
                }
            } else if is_name(last, "Foreign") {
                match first_type_arg(&path.1) {
                    Ok(t) => Ok(CastPlan::FromLocal(t)),
                    Err(p) => Err(p),
                }
            } else if is_name(last, "BStackRef") {
                Ok(CastPlan::IntoLocal)
            } else {
                Ok(CastPlan::CastAs(target.text.clone()))
            }
        },
    }
}

/// The conversion that the text `expr as Target` stands for.
pub fn expand_cast_text(text: &str) -> (r: Result<CastPlan, Problem>)
    ensures
        if !is_short(text@) {
            r matches Err(p) && p == Problem::ArgumentsTooLong
        } else {
            match target_named(text@) {
                None => r matches Err(p) && p == Problem::NotACast,
                Some(target) => cast_is(target, r),
            }
        },
{
    if !short_enough(text) {
        return Err(Problem::ArgumentsTooLong);
    }
    match target_of(text) {
        None => Err(Problem::NotACast),
        Some(target) => expand_cast(&target),
    }
}

/// Where a move gets the allocator from.
#[derive(Clone, Copy, Debug, PartialEq, Eq, Structural)]
pub enum MovePlan {
    /// The handle carries it.
    FromHandle,
    /// It is the second argument.
    Given,
}

/// What a move with this many arguments stands for.
pub open spec fn move_of(arguments: nat) -> Result<MovePlan, Problem> {
    if arguments == 1 {
        Ok(MovePlan::FromHandle)
    } else if arguments == 2 {
        Ok(MovePlan::Given)
    } else {
        Err(Problem::MoveArguments)
    }
}

/// What a move with this many arguments stands for.
pub fn expand_move(arguments: usize) -> (r: Result<MovePlan, Problem>)
    ensures
        r == move_of(arguments as nat),
{
    if arguments == 1 {
        Ok(MovePlan::FromHandle)
    } else if arguments == 2 {
        Ok(MovePlan::Given)
    } else {
        Err(Problem::MoveArguments)
    }
}

/// What a move with the arguments in this text stands for.
pub fn expand_move_text(text: &str) -> (r: Result<MovePlan, Problem>)
    ensures
        r == (if !is_short(text@) {
            Err(Problem::ArgumentsTooLong)
        } else {
            match arguments_named(text@) {
                None => Err(Problem::BadArguments),
                Some(n) => move_of(n),
            }
        }),
{
    if !short_enough(text) {
        return Err(Problem::ArgumentsTooLong);
    }
    match arguments_of(text) {
        None => Err(Problem::BadArguments),
        Some(n) => expand_move(n),
    }
}

} // verus!
