//! Types of fields, as far as the shape of a block depends on them.
use vstd::prelude::*;

verus! {

/// The length of an array: its text, and the names in it.
pub struct LenExpr {
    pub text: String,
    pub idents: Vec<String>,
}

/// An argument of a generic type.
pub enum Arg {
    Type(Ty),
    /// Anything else; only the names in it are kept.
    Other(Vec<String>),
}

/// A type. Of what the shape of a block does not depend on, only the names are kept.
pub enum Ty {
    /// A path: the name of its last segment, the arguments of that in angle brackets, and all
    /// other names in the path.
    Path { last: String, args: Vec<Arg>, others: Vec<String> },
    Array { elem: Box<Ty>, len: LenExpr },
    Tuple { elems: Vec<Ty> },
    Reference { elem: Box<Ty>, others: Vec<String> },
    Other { others: Vec<String> },
}

/// The texts of names.
pub open spec fn texts(v: Seq<String>) -> Seq<Seq<char>> {
    v.map_values(|s: String| s@)
}

/// Whether a name is this text.
pub fn is_name(name: &String, text: &str) -> (r: bool)
    ensures
        r == (name@ == text@),
{
    *name == text.to_owned()
}

/// Whether one of the names is among `params`.
pub open spec fn any_in(idents: Seq<String>, params: Seq<Seq<char>>) -> bool {
    exists|i: int| 0 <= i < idents.len() && params.contains(#[trigger] idents[i]@)
}

/// Whether `name` is among `params`.
pub fn is_param(name: &String, params: &Vec<String>) -> (r: bool)
    ensures
        r == texts(params@).contains(name@),
{
    let mut i: usize = 0;
    while i < params.len()
        invariant
            i <= params@.len(),
            forall|j: int| 0 <= j < i ==> #[trigger] params@[j]@ != name@,
        decreases params@.len() - i,
    {
        if params[i] == *name {
            assert(texts(params@)[i as int] == name@);
            return true;
        }
        i += 1;
    }
    assert forall|j: int| 0 <= j < texts(params@).len() implies texts(params@)[j] != name@ by {
        assert(params@[j]@ != name@);
    }
    false
}

/// Whether one of the names is among `params`.
pub fn any_is_param(idents: &Vec<String>, params: &Vec<String>) -> (r: bool)
    ensures
        r == any_in(idents@, texts(params@)),
{
    let mut i: usize = 0;
    while i < idents.len()
        invariant
            i <= idents@.len(),
            forall|j: int| 0 <= j < i ==> !texts(params@).contains(#[trigger] idents@[j]@),
        decreases idents@.len() - i,
    {
        if is_param(&idents[i], params) {
            return true;
        }
        i += 1;
    }
    false
}

/// Whether one of `params` occurs anywhere in the type.
pub open spec fn mentions(ty: Ty, params: Seq<Seq<char>>) -> bool
    decreases ty,
{
    match ty {
        Ty::Path { last, args, others } => params.contains(last@) || any_in(others@, params)
            || args_mention(args@, params),
        Ty::Array { elem, len } => mentions(*elem, params) || any_in(len.idents@, params),
        Ty::Tuple { elems } => tys_mention(elems@, params),
        Ty::Reference { elem, others } => mentions(*elem, params) || any_in(others@, params),
        Ty::Other { others } => any_in(others@, params),
    }
}

pub open spec fn args_mention(args: Seq<Arg>, params: Seq<Seq<char>>) -> bool
    decreases args,
{
    if args.len() == 0 {
        false
    } else {
        args_mention(args.drop_last(), params) || match args.last() {
            Arg::Type(t) => mentions(t, params),
            Arg::Other(names) => any_in(names@, params),
        }
    }
}

pub open spec fn tys_mention(tys: Seq<Ty>, params: Seq<Seq<char>>) -> bool
    decreases tys,
{
    if tys.len() == 0 {
        false
    } else {
        tys_mention(tys.drop_last(), params) || mentions(tys.last(), params)
    }
}

/// Whether one of `params` occurs anywhere in the type.
pub fn type_mentions_any(ty: &Ty, params: &Vec<String>) -> (r: bool)
    ensures
        r == mentions(*ty, texts(params@)),
    decreases ty,
{
    match ty {
        Ty::Path { last, args, others } => {
            if is_param(last, params) || any_is_param(others, params) {
                return true;
            }
            let mut i: usize = 0;
            while i < args.len()
                invariant
                    i <= args@.len(),
                    ty matches Ty::Path { last: _, args: b, others: _ } && b == args,
                    !args_mention(args@.take(i as int), texts(params@)),
                decreases args@.len() - i,
            {
                proof {
                    assert(args@.take(i + 1).drop_last() =~= args@.take(i as int));
                    assert(args@.take(i + 1).last() == args@[i as int]);
                }
                let hit: bool = match &args[i] {
                    Arg::Type(t) => type_mentions_any(t, params),
                    Arg::Other(names) => any_is_param(names, params),
                };
                if hit {
                    proof {
                        lemma_args_prefix(args@, i + 1, texts(params@));
                    }
                    return true;
                }
                i += 1;
            }
            assert(args@.take(i as int) =~= args@);
            false
        },
        Ty::Array { elem, len } => type_mentions_any(elem, params) || any_is_param(
            &len.idents,
            params,
        ),
        Ty::Tuple { elems } => {
            let mut i: usize = 0;
            while i < elems.len()
                invariant
                    i <= elems@.len(),
                    ty matches Ty::Tuple { elems: b } && b == elems,
                    !tys_mention(elems@.take(i as int), texts(params@)),
                decreases elems@.len() - i,
            {
                proof {
                    assert(elems@.take(i + 1).drop_last() =~= elems@.take(i as int));
                    assert(elems@.take(i + 1).last() == elems@[i as int]);
                }
                if type_mentions_any(&elems[i], params) {
                    proof {
                        lemma_tys_prefix(elems@, i + 1, texts(params@));
                    }
                    return true;
                }
                i += 1;
            }
            assert(elems@.take(i as int) =~= elems@);
            false
        },
        Ty::Reference { elem, others } => type_mentions_any(elem, params) || any_is_param(
            others,
            params,
        ),
        Ty::Other { others } => any_is_param(others, params),
    }
}

proof fn lemma_args_prefix(args: Seq<Arg>, n: int, params: Seq<Seq<char>>)
    requires
        0 <= n <= args.len(),
        args_mention(args.take(n), params),
    ensures
        args_mention(args, params),
    decreases args.len() - n,
{
    if n < args.len() {
        assert(args.take(n + 1).drop_last() =~= args.take(n));
        lemma_args_prefix(args, n + 1, params);
    } else {
        assert(args.take(n) =~= args);
    }
}

proof fn lemma_tys_prefix(tys: Seq<Ty>, n: int, params: Seq<Seq<char>>)
    requires
        0 <= n <= tys.len(),
        tys_mention(tys.take(n), params),
    ensures
        tys_mention(tys, params),
    decreases tys.len() - n,
{
    if n < tys.len() {
        assert(tys.take(n + 1).drop_last() =~= tys.take(n));
        lemma_tys_prefix(tys, n + 1, params);
    } else {
        assert(tys.take(n) =~= tys);
    }
}

} // verus!
