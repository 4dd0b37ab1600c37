//! The arguments of the attributes, and the annotations of fields.
use vstd::prelude::*;

use crate::derive::kind::{Kind, Mode};
use crate::derive::problem::Problem;
use crate::derive::syntax::{
    flat_enough, is_flat, is_short, meta_views, metas_named, metas_of, names_in, names_named,
    names_of, raw_views, short_enough, text_of, Meta, MetaView, RawMeta, RawMetaView,
};
use crate::derive::ty::{is_name, texts};

verus! {

/// The parsed arguments.
pub struct Attr {
    pub mode: Mode,
    /// The tag of the data block.
    pub tag: Option<String>,
    /// The tag of the control block.
    pub ctrl_tag: Option<String>,
    /// Whether a tag may be too long without a warning.
    pub allow_overlong: bool,
    /// Whether a reference may be taken for its target without a warning.
    pub allow_coerced_ref: bool,
    /// The integer type of the discriminant.
    pub repr: Option<Repr>,
}

/// The integer types that a discriminant can have.
#[derive(Clone, Copy, Debug, PartialEq, Eq, Structural)]
pub enum Repr {
    U8,
    U16,
    U32,
    U64,
    I8,
    I16,
    I32,
    I64,
}

/// The integer type that a name stands for.
pub open spec fn repr_named(name: Seq<char>) -> Result<Repr, Problem> {
    if name == "aligned"@ {
        Ok(Repr::U64)
    } else if name == "u8"@ {
        Ok(Repr::U8)
    } else if name == "u16"@ {
        Ok(Repr::U16)
    } else if name == "u32"@ {
        Ok(Repr::U32)
    } else if name == "u64"@ {
        Ok(Repr::U64)
    } else if name == "i8"@ {
        Ok(Repr::I8)
    } else if name == "i16"@ {
        Ok(Repr::I16)
    } else if name == "i32"@ {
        Ok(Repr::I32)
    } else if name == "i64"@ {
        Ok(Repr::I64)
    } else if name == "usize"@ || name == "isize"@ {
        Err(Problem::ReprOfPointerWidth)
    } else {
        Err(Problem::BadReprName)
    }
}

/// The integer type that a name stands for. `aligned` is a discriminant of eight bytes, which
/// leaves what follows aligned.
pub fn parse_repr(name: &String) -> (r: Result<Repr, Problem>)
    ensures
        r == repr_named(name@),
{
    if is_name(name, "aligned") {
        Ok(Repr::U64)
    } else if is_name(name, "u8") {
        Ok(Repr::U8)
    } else if is_name(name, "u16") {
        Ok(Repr::U16)
    } else if is_name(name, "u32") {
        Ok(Repr::U32)
    } else if is_name(name, "u64") {
        Ok(Repr::U64)
    } else if is_name(name, "i8") {
        Ok(Repr::I8)
    } else if is_name(name, "i16") {
        Ok(Repr::I16)
    } else if is_name(name, "i32") {
        Ok(Repr::I32)
    } else if is_name(name, "i64") {
        Ok(Repr::I64)
    } else if is_name(name, "usize") || is_name(name, "isize") {
        Err(Problem::ReprOfPointerWidth)
    } else {
        Err(Problem::BadReprName)
    }
}

/// What the arguments have said so far.
pub struct AttrView {
    pub rc: bool,
    pub weak: bool,
    pub tag: Option<Seq<char>>,
    pub ctrl_tag: Option<Seq<char>>,
    pub allow_overlong: bool,
    pub allow_coerced_ref: bool,
    pub repr: Option<Repr>,
}

/// What is said before the first argument.
pub open spec fn nothing_said() -> AttrView {
    AttrView {
        rc: false,
        weak: false,
        tag: None,
        ctrl_tag: None,
        allow_overlong: false,
        allow_coerced_ref: false,
        repr: None,
    }
}

/// Whether a name is this text.
pub open spec fn named(name: Option<String>, text: Seq<char>) -> bool {
    name matches Some(s) && s@ == text
}

/// What `allow(..)` adds.
pub open spec fn allow_step(v: AttrView, lints: Seq<Seq<char>>) -> Result<AttrView, Problem>
    decreases lints.len(),
{
    if lints.len() == 0 {
        Ok(v)
    } else {
        match allow_step(v, lints.drop_last()) {
            Err(p) => Err(p),
            Ok(w) => {
                let lint = lints.last();
                if lint == "overlong_tag"@ {
                    Ok(AttrView { allow_overlong: true, ..w })
                } else if lint == "coerced_ref"@ {
                    Ok(AttrView { allow_coerced_ref: true, ..w })
                } else if lint == "deprecated"@ {
                    Ok(AttrView { allow_overlong: true, allow_coerced_ref: true, ..w })
                } else {
                    Err(Problem::BadAllowName)
                }
            },
        }
    }
}

/// What one argument adds.
pub open spec fn meta_step(v: AttrView, meta: MetaView) -> Result<AttrView, Problem> {
    match meta {
        MetaView::Path(name) => if name == "rc"@ {
            Ok(AttrView { rc: true, ..v })
        } else if name == "weak"@ {
            Ok(AttrView { weak: true, ..v })
        } else {
            Err(Problem::UnknownOption)
        },
        MetaView::NameValue(name, value) => match value {
            None => Err(Problem::NotAString),
            Some(text) => if name == "tag"@ {
                Ok(AttrView { tag: Some(text), ..v })
            } else if name == "ctrl_tag"@ {
                Ok(AttrView { ctrl_tag: Some(text), ..v })
            } else {
                Err(Problem::UnknownOption)
            },
        },
        MetaView::List(name, one, many) => if name == "repr"@ {
            match one {
                None => Err(Problem::BadReprList),
                Some(text) => match repr_named(text) {
                    Ok(repr) => Ok(AttrView { repr: Some(repr), ..v }),
                    Err(p) => Err(p),
                },
            }
        } else if name == "allow"@ {
            match many {
                None => Err(Problem::BadAllowList),
                Some(names) => allow_step(v, names),
            }
        } else {
            Err(Problem::UnknownOption)
        },
    }
}

/// What the arguments say, one after another; the first that is wrong decides.
pub open spec fn said(metas: Seq<MetaView>) -> Result<AttrView, Problem>
    decreases metas.len(),
{
    if metas.len() == 0 {
        Ok(nothing_said())
    } else {
        match said(metas.drop_last()) {
            Err(p) => Err(p),
            Ok(v) => meta_step(v, metas.last()),
        }
    }
}

/// The mode that `rc` and `weak` give together.
pub open spec fn mode_of(rc: bool, weak: bool) -> Result<Mode, Problem> {
    match (rc, weak) {
        (false, false) => Ok(Mode::Plain),
        (true, false) => Ok(Mode::Rc),
        (true, true) => Ok(Mode::RcWeak),
        (false, true) => Err(Problem::WeakWithoutRc),
    }
}

/// The mode that the arguments give.
pub open spec fn mode_said(metas: Seq<MetaView>) -> Result<Mode, Problem> {
    match said(metas) {
        Err(p) => Err(p),
        Ok(v) => mode_of(v.rc, v.weak),
    }
}

/// What is parsed from the arguments.
pub open spec fn parsed(metas: Seq<MetaView>, r: Result<Attr, Problem>) -> bool {
    match said(metas) {
        Err(p) => r matches Err(x) && x == p,
        Ok(v) => match mode_of(v.rc, v.weak) {
            Err(p) => r matches Err(x) && x == p,
            Ok(mode) => {
                &&& r matches Ok(attr)
                &&& attr.mode == mode
                &&& text_of(attr.tag) == v.tag
                &&& text_of(attr.ctrl_tag) == v.ctrl_tag
                &&& attr.allow_overlong == v.allow_overlong
                &&& attr.allow_coerced_ref == v.allow_coerced_ref
                &&& attr.repr == v.repr
            },
        },
    }
}

fn is_opt_name(name: &Option<String>, text: &str) -> (r: bool)
    ensures
        r == named(*name, text@),
{
    match name {
        Some(s) => is_name(s, text),
        None => false,
    }
}

proof fn lemma_said_prefix(metas: Seq<MetaView>, n: int, p: Problem)
    requires
        0 <= n <= metas.len(),
        said(metas.take(n)) == Err::<AttrView, Problem>(p),
    ensures
        said(metas) == Err::<AttrView, Problem>(p),
    decreases metas.len() - n,
{
    if n < metas.len() {
        assert(metas.take(n + 1).drop_last() =~= metas.take(n));
        lemma_said_prefix(metas, n + 1, p);
    } else {
        assert(metas.take(n) =~= metas);
    }
}

proof fn lemma_allow_prefix(v: AttrView, lints: Seq<Seq<char>>, n: int, p: Problem)
    requires
        0 <= n <= lints.len(),
        allow_step(v, lints.take(n)) == Err::<AttrView, Problem>(p),
    ensures
        allow_step(v, lints) == Err::<AttrView, Problem>(p),
    decreases lints.len() - n,
{
    if n < lints.len() {
        assert(lints.take(n + 1).drop_last() =~= lints.take(n));
        lemma_allow_prefix(v, lints, n + 1, p);
    } else {
        assert(lints.take(n) =~= lints);
    }
}

/// The words for an argument that is none of those.
pub fn unknown_opt() -> (r: &'static str)
    ensures
        r@
            == "[BSTACK0003] expected `rc`, `weak`, `tag = \"...\"`, `ctrl_tag = \"...\"`, `allow(...)`, or (enums) `repr(...)`"@,
{
    "[BSTACK0003] expected `rc`, `weak`, `tag = \"...\"`, `ctrl_tag = \"...\"`, `allow(...)`, or (enums) `repr(...)`"
}

/// What the names in `allow(..)` add.
fn add_allowed(names: &Vec<String>, overlong: bool, coerced: bool, Ghost(v): Ghost<AttrView>) -> (r:
    Result<(bool, bool), Problem>)
    requires
        v.allow_overlong == overlong,
        v.allow_coerced_ref == coerced,
    ensures
        allow_step(v, texts(names@)) == (match r {
            Ok(x) => Ok::<AttrView, Problem>(
                AttrView { allow_overlong: x.0, allow_coerced_ref: x.1, ..v },
            ),
            Err(p) => Err(p),
        }),
{
    let mut allow_overlong: bool = overlong;
    let mut allow_coerced_ref: bool = coerced;
    let mut k: usize = 0;
    let ghost all = texts(names@);
    assert(all.take(0) =~= Seq::empty());
    while k < names.len()
        invariant
            k <= names@.len(),
            all == texts(names@),
            allow_step(v, all.take(k as int)) == Ok::<AttrView, Problem>(
                AttrView { allow_overlong, allow_coerced_ref, ..v },
            ),
        decreases names@.len() - k,
    {
        proof {
            assert(all.take(k + 1).drop_last() =~= all.take(k as int));
            assert(all.take(k + 1).last() == names@[k as int]@);
        }
        if is_name(&names[k], "overlong_tag") {
            allow_overlong = true;
        } else if is_name(&names[k], "coerced_ref") {
            allow_coerced_ref = true;
        } else if is_name(&names[k], "deprecated") {
            allow_overlong = true;
            allow_coerced_ref = true;
        } else {
            proof {
                lemma_allow_prefix(v, all, k + 1, Problem::BadAllowName);
            }
            return Err(Problem::BadAllowName);
        }
        k += 1;
    }
    assert(all.take(k as int) =~= all);
    Ok((allow_overlong, allow_coerced_ref))
}

/// Parse the arguments `rc`, `weak`, `tag = ".."`, `ctrl_tag = ".."`, `allow(..)` and
/// `repr(..)`, in any order.
pub fn parse_attr(metas: Vec<Meta>) -> (r: Result<Attr, Problem>)
    ensures
        parsed(meta_views(metas@), r),
{
    let mut rc: bool = false;
    let mut weak: bool = false;
    let mut tag: Option<String> = None;
    let mut ctrl_tag: Option<String> = None;
    let mut allow_overlong: bool = false;
    let mut allow_coerced_ref: bool = false;
    let mut repr: Option<Repr> = None;
    let mut i: usize = 0;
    let ghost views = meta_views(metas@);
    assert(views.take(0) =~= Seq::empty());
    while i < metas.len()
        invariant
            i <= metas@.len(),
            views == meta_views(metas@),
            said(views.take(i as int)) == Ok::<AttrView, Problem>(
                AttrView {
                    rc,
                    weak,
                    tag: text_of(tag),
                    ctrl_tag: text_of(ctrl_tag),
                    allow_overlong,
                    allow_coerced_ref,
                    repr,
                },
            ),
        decreases metas@.len() - i,
    {
        let ghost before = AttrView {
            rc,
            weak,
            tag: text_of(tag),
            ctrl_tag: text_of(ctrl_tag),
            allow_overlong,
            allow_coerced_ref,
            repr,
        };
        proof {
            assert(views.take(i + 1).drop_last() =~= views.take(i as int));
            assert(views.take(i + 1).last() == metas@[i as int]@);
            assert(said(views.take(i + 1)) == meta_step(before, views[i as int]));
        }
        let mut bad: Option<Problem> = None;
        match &metas[i] {
            Meta::Path(name) => {
                if is_name(name, "rc") {
                    rc = true;
                } else if is_name(name, "weak") {
                    weak = true;
                } else {
                    bad = Some(Problem::UnknownOption);
                }
            },
            Meta::NameValue(name, value) => match value {
                None => {
                    bad = Some(Problem::NotAString);
                },
                Some(text) => {
                    if is_name(name, "tag") {
                        tag = Some(text.clone());
                    } else if is_name(name, "ctrl_tag") {
                        ctrl_tag = Some(text.clone());
                    } else {
                        bad = Some(Problem::UnknownOption);
                    }
                },
            },
            Meta::List(name, one, many) => {
                if is_name(name, "repr") {
                    match one {
                        None => {
                            bad = Some(Problem::BadReprList);
                        },
                        Some(text) => match parse_repr(text) {
                            Ok(x) => {
                                repr = Some(x);
                            },
                            Err(p) => {
                                bad = Some(p);
                            },
                        },
                    }
                } else if is_name(name, "allow") {
                    match many {
                        None => {
                            bad = Some(Problem::BadAllowList);
                        },
                        Some(names) => match add_allowed(
                            names,
                            allow_overlong,
                            allow_coerced_ref,
                            Ghost(before),
                        ) {
                            Ok(x) => {
                                allow_overlong = x.0;
                                allow_coerced_ref = x.1;
                            },
                            Err(p) => {
                                bad = Some(p);
                            },
                        },
                    }
                } else {
                    bad = Some(Problem::UnknownOption);
                }
            },
        }
        if let Some(p) = bad {
            proof {
                lemma_said_prefix(views, i + 1, p);
            }
            return Err(p);
        }
        i += 1;
    }
    assert(views.take(i as int) =~= views);
    let mode: Mode = if rc && weak {
        Mode::RcWeak
    } else if rc {
        Mode::Rc
    } else if weak {
        return Err(Problem::WeakWithoutRc);
    } else {
        Mode::Plain
    };
    Ok(Attr { mode, tag, ctrl_tag, allow_overlong, allow_coerced_ref, repr })
}

/// What a list holds that was read as names, where `comma` says whether a comma ends it: the
/// name, where it is just one, and the names.
pub open spec fn readings(found: Option<(Seq<Seq<char>>, bool)>) -> (
    Option<Seq<char>>,
    Option<Seq<Seq<char>>>,
) {
    match found {
        None => (None, None),
        Some((names, comma)) => (
            if names.len() == 1 && !comma {
                Some(names[0])
            } else {
                None
            },
            Some(names),
        ),
    }
}

/// An argument, with what its list holds.
pub open spec fn read_as(raw: RawMetaView) -> Result<MetaView, Problem> {
    match raw {
        RawMetaView::Path(name) => Ok(MetaView::Path(name)),
        RawMetaView::NameValue(name, value) => Ok(MetaView::NameValue(name, value)),
        RawMetaView::List(name, held) => if !is_flat(held) {
            Err(Problem::ArgumentsTooLong)
        } else {
            let found = readings(names_named(held));
            Ok(MetaView::List(name, found.0, found.1))
        },
    }
}

/// The arguments, with what their lists hold; the first that is too long decides.
pub open spec fn all_read(raws: Seq<RawMetaView>) -> Result<Seq<MetaView>, Problem>
    decreases raws.len(),
{
    if raws.len() == 0 {
        Ok(Seq::empty())
    } else {
        match all_read(raws.drop_last()) {
            Err(p) => Err(p),
            Ok(v) => match read_as(raws.last()) {
                Err(p) => Err(p),
                Ok(m) => Ok(v.push(m)),
            },
        }
    }
}

/// The arguments that a text holds, or why it holds none.
pub open spec fn metas_in(text: Seq<char>) -> Result<Seq<MetaView>, Problem> {
    if !is_short(text) {
        Err(Problem::ArgumentsTooLong)
    } else {
        match metas_named(text) {
            None => Err(Problem::BadArguments),
            Some(raws) => all_read(raws),
        }
    }
}

/// What a list holds, where `found` is what came of reading it as names: the name, where it is
/// just one, and the names.
pub fn list_readings(found: Option<(Vec<String>, bool)>) -> (r: (
    Option<String>,
    Option<Vec<String>>,
))
    ensures
        (text_of(r.0), names_of(r.1)) == readings(
            match found {
                None => None,
                Some(x) => Some((texts(x.0@), x.1)),
            },
        ),
{
    match found {
        None => (None, None),
        Some((names, comma)) => {
            let one: Option<String> = if names.len() == 1 && !comma {
                assert(texts(names@)[0] == names@[0]@);
                Some(names[0].clone())
            } else {
                None
            };
            (one, Some(names))
        },
    }
}

fn read_meta(raw: &RawMeta) -> (r: Result<Meta, Problem>)
    ensures
        read_as(raw@) == (match r {
            Ok(m) => Ok::<MetaView, Problem>(m@),
            Err(p) => Err(p),
        }),
{
    match raw {
        RawMeta::Path(name) => Ok(Meta::Path(name.clone())),
        RawMeta::NameValue(name, value) => {
            let copy: Option<String> = match value {
                Some(v) => Some(v.clone()),
                None => None,
            };
            Ok(Meta::NameValue(name.clone(), copy))
        },
        RawMeta::List(name, held) => {
            if !flat_enough(held.as_str()) {
                return Err(Problem::ArgumentsTooLong);
            }
            let (one, many) = list_readings(names_in(held.as_str()));
            Ok(Meta::List(name.clone(), one, many))
        },
    }
}

proof fn lemma_read_prefix(raws: Seq<RawMetaView>, n: int)
    requires
        0 <= n <= raws.len(),
        all_read(raws.take(n)) is Err,
    ensures
        all_read(raws) == all_read(raws.take(n)),
    decreases raws.len() - n,
{
    if n < raws.len() {
        assert(raws.take(n + 1).drop_last() =~= raws.take(n));
        lemma_read_prefix(raws, n + 1);
    } else {
        assert(raws.take(n) =~= raws);
    }
}

/// The arguments that a text holds, or why it holds none.
pub fn read_metas(text: &str) -> (r: Result<Vec<Meta>, Problem>)
    ensures
        match metas_in(text@) {
            Err(p) => r matches Err(q) && q == p,
            Ok(metas) => r matches Ok(v) && meta_views(v@) == metas,
        },
{
    if !short_enough(text) {
        return Err(Problem::ArgumentsTooLong);
    }
    let raws = match metas_of(text) {
        None => {
            return Err(Problem::BadArguments);
        },
        Some(raws) => raws,
    };
    let ghost views = raw_views(raws@);
    let mut out: Vec<Meta> = Vec::new();
    let mut i: usize = 0;
    proof {
        assert(views.take(0) =~= Seq::empty());
        assert(meta_views(out@) =~= Seq::empty());
    }
    while i < raws.len()
        invariant
            i <= raws@.len(),
            views == raw_views(raws@),
            metas_in(text@) == all_read(views),
            all_read(views.take(i as int)) == Ok::<Seq<MetaView>, Problem>(meta_views(out@)),
        decreases raws@.len() - i,
    {
        proof {
            assert(views.take(i + 1).drop_last() =~= views.take(i as int));
            assert(views.take(i + 1).last() == raws@[i as int]@);
        }
        match read_meta(&raws[i]) {
            Err(p) => {
                proof {
                    lemma_read_prefix(views, i + 1);
                }
                return Err(p);
            },
            Ok(m) => {
                let ghost before = out@;
                let ghost view = m@;
                out.push(m);
                assert(meta_views(out@) =~= meta_views(before).push(view));
            },
        }
        i += 1;
    }
    assert(views.take(i as int) =~= views);
    Ok(out)
}

/// Parse the text between the brackets of an attribute; see [`parse_attr`].
pub fn parse_attr_text(text: &str) -> (r: Result<Attr, Problem>)
    ensures
        match metas_in(text@) {
            Err(p) => r matches Err(q) && q == p,
            Ok(metas) => parsed(metas, r),
        },
{
    match read_metas(text) {
        Err(p) => Err(p),
        Ok(metas) => parse_attr(metas),
    }
}

/// The kind that an annotation stands for.
pub open spec fn kind_named(name: Seq<char>) -> Option<Kind> {
    if name == "bstack_owned"@ {
        Some(Kind::Owned)
    } else if name == "bstack_strong"@ {
        Some(Kind::Strong)
    } else if name == "bstack_weak"@ {
        Some(Kind::Weak)
    } else if name == "bstack_ref"@ {
        Some(Kind::Ref)
    } else if name == "embed"@ {
        Some(Kind::Embed)
    } else {
        None
    }
}

/// The kinds that the annotations of a field stand for, in order.
pub open spec fn kinds_in(attrs: Seq<Option<String>>) -> Seq<Kind>
    decreases attrs.len(),
{
    if attrs.len() == 0 {
        Seq::empty()
    } else {
        let rest = kinds_in(attrs.drop_last());
        match attrs.last() {
            Some(name) => match kind_named(name@) {
                Some(k) => rest.push(k),
                None => rest,
            },
            None => rest,
        }
    }
}

/// The kind of a field: that of its one annotation, plain bytes where there is none, and a
/// refusal where there are two.
pub open spec fn kind_of(attrs: Seq<Option<String>>) -> Result<Kind, Problem> {
    let kinds = kinds_in(attrs);
    if kinds.len() == 0 {
        Ok(Kind::Pod)
    } else if kinds.len() == 1 {
        Ok(kinds[0])
    } else {
        Err(Problem::TooManyAnnotations)
    }
}

fn parse_kind(name: &String) -> (r: Option<Kind>)
    ensures
        r == kind_named(name@),
{
    if is_name(name, "bstack_owned") {
        Some(Kind::Owned)
    } else if is_name(name, "bstack_strong") {
        Some(Kind::Strong)
    } else if is_name(name, "bstack_weak") {
        Some(Kind::Weak)
    } else if is_name(name, "bstack_ref") {
        Some(Kind::Ref)
    } else if is_name(name, "embed") {
        Some(Kind::Embed)
    } else {
        None
    }
}

pub(crate) proof fn lemma_kinds_grow(attrs: Seq<Option<String>>, n: int)
    requires
        0 <= n <= attrs.len(),
    ensures
        kinds_in(attrs.take(n)).len() <= kinds_in(attrs).len(),
    decreases attrs.len() - n,
{
    if n < attrs.len() {
        assert(attrs.take(n + 1).drop_last() =~= attrs.take(n));
        lemma_kinds_grow(attrs, n + 1);
    } else {
        assert(attrs.take(n) =~= attrs);
    }
}

/// The kind of a field, by its annotations: the one that is there, plain bytes where there is
/// none, and a refusal where there are two. A `None` among the annotations is one whose name
/// is a longer path.
pub fn classify_attrs(attrs: &Vec<Option<String>>) -> (r: Result<Kind, Problem>)
    ensures
        r == kind_of(attrs@),
{
    let mut kind: Option<Kind> = None;
    let mut i: usize = 0;
    while i < attrs.len()
        invariant
            i <= attrs@.len(),
            kinds_in(attrs@.take(i as int)) == (match kind {
                Some(k) => seq![k],
                None => Seq::empty(),
            }),
        decreases attrs@.len() - i,
    {
        proof {
            assert(attrs@.take(i + 1).drop_last() =~= attrs@.take(i as int));
        }
        if let Some(name) = &attrs[i] {
            if let Some(k) = parse_kind(name) {
                if kind.is_some() {
                    proof {
                        lemma_kinds_grow(attrs@, i + 1);
                    }
                    return Err(Problem::TooManyAnnotations);
                }
                kind = Some(k);
                assert(Seq::<Kind>::empty().push(k) =~= seq![k]);
            }
        }
        i += 1;
    }
    assert(attrs@.take(i as int) =~= attrs@);
    match kind {
        Some(k) => Ok(k),
        None => Ok(Kind::Pod),
    }
}

/// Whether one of the annotations has this name.
pub open spec fn has_attr(attrs: Seq<Option<String>>, text: Seq<char>) -> bool {
    exists|i: int| 0 <= i < attrs.len() && named(#[trigger] attrs[i], text)
}

fn find_attr(attrs: &Vec<Option<String>>, text: &str) -> (r: bool)
    ensures
        r == has_attr(attrs@, text@),
{
    let mut i: usize = 0;
    while i < attrs.len()
        invariant
            i <= attrs@.len(),
            forall|j: int| 0 <= j < i ==> !named(#[trigger] attrs@[j], text@),
        decreases attrs@.len() - i,
    {
        if is_opt_name(&attrs[i], text) {
            return true;
        }
        i += 1;
    }
    false
}

/// Whether the field or type is to be mutable in place.
pub fn is_bstack_mut(attrs: &Vec<Option<String>>) -> (r: bool)
    ensures
        r == has_attr(attrs@, "bstack_mut"@),
{
    find_attr(attrs, "bstack_mut")
}

/// Whether the field is a variable of the class rather than of each block.
pub fn is_bstack_static(attrs: &Vec<Option<String>>) -> (r: bool)
    ensures
        r == has_attr(attrs@, "bstack_static"@),
{
    find_attr(attrs, "bstack_static")
}

/// Whether these arguments are just an `allow(..)` that names the warnings about deprecated
/// items.
pub open spec fn allows_deprecated(metas: Seq<MetaView>) -> bool {
    metas.len() == 1 && match metas[0] {
        MetaView::List(name, _, Some(names)) => name == "allow"@ && names.contains("deprecated"@),
        _ => false,
    }
}

/// Whether an attribute, read as an argument, is an `allow(..)` that names the warnings about
/// deprecated items.
pub fn is_allow_deprecated(metas: &Vec<Meta>) -> (r: bool)
    ensures
        r == allows_deprecated(meta_views(metas@)),
{
    if metas.len() != 1 {
        return false;
    }
    assert(meta_views(metas@)[0] == metas@[0]@);
    match &metas[0] {
        Meta::List(name, _, Some(names)) => {
            let ghost all = texts(names@);
            assert(meta_views(metas@)[0]->List_2 == Some(all));
            if !is_name(name, "allow") {
                return false;
            }
            let mut i: usize = 0;
            while i < names.len()
                invariant
                    i <= names@.len(),
                    all == texts(names@),
                    allows_deprecated(meta_views(metas@)) == all.contains("deprecated"@),
                    forall|j: int| 0 <= j < i ==> #[trigger] all[j] != "deprecated"@,
                decreases names@.len() - i,
            {
                if is_name(&names[i], "deprecated") {
                    assert(all[i as int] == "deprecated"@);
                    return true;
                }
                i += 1;
            }
            false
        },
        _ => false,
    }
}

/// Whether an attribute with this text is an `allow(..)` that names the warnings about
/// deprecated items.
pub fn is_allow_deprecated_text(text: &str) -> (r: bool)
    ensures
        r == (metas_in(text@) matches Ok(metas) && allows_deprecated(metas)),
{
    match read_metas(text) {
        Err(_) => false,
        Ok(metas) => is_allow_deprecated(&metas),
    }
}

/// The order of `rc` and `weak` does not matter, and neither does saying one twice.
pub proof fn law_mode_does_not_depend_on_order(v: AttrView, a: MetaView, b: MetaView)
    requires
        a matches MetaView::Path(x) && (x == "rc"@ || x == "weak"@),
        b matches MetaView::Path(y) && (y == "rc"@ || y == "weak"@),
    ensures
        meta_step(meta_step(v, a)->Ok_0, b) == meta_step(meta_step(v, b)->Ok_0, a),
        meta_step(meta_step(v, a)->Ok_0, a) == meta_step(v, a),
{
}

} // verus!
