//! The arguments of an attribute: what they say together, and which are refused.
use vstd::prelude::*;

use crate::derive::attr::{allow_step, parse_attr, repr_named, said, Attr, AttrView, Repr};
use crate::derive::kind::Mode;
use crate::derive::problem::Problem;
use crate::derive::syntax::{meta_views, text_of, Meta, MetaView};

use super::numbers::name_of;

verus! {

/// Whether this word is among the arguments.
pub open spec fn says_word(ms: Seq<MetaView>, word: Seq<char>) -> bool {
    exists|i: int| 0 <= i < ms.len() && #[trigger] ms[i] == MetaView::Path(word)
}

/// Whether an argument allows this.
pub open spec fn grants(m: MetaView, what: Seq<char>) -> bool {
    m matches MetaView::List(name, _, Some(names)) && name == "allow"@ && names.contains(what)
}

/// Whether some argument allows this.
pub open spec fn allows(ms: Seq<MetaView>, what: Seq<char>) -> bool {
    exists|i: int| 0 <= i < ms.len() && grants(#[trigger] ms[i], what)
}

/// Whether `text` is what the arguments say for `name`: what the last of them says.
pub open spec fn is_text_for(ms: Seq<MetaView>, name: Seq<char>, text: Option<Seq<char>>) -> bool {
    match text {
        None => forall|i: int| 0 <= i < ms.len() ==> !is_value_of(#[trigger] ms[i], name),
        Some(x) => exists|i: int|
            {
                &&& 0 <= i < ms.len()
                &&& #[trigger] ms[i] == MetaView::NameValue(name, Some(x))
                &&& forall|j: int| i < j < ms.len() ==> !is_value_of(#[trigger] ms[j], name)
            },
    }
}

/// Whether an argument gives `name` a value.
pub open spec fn is_value_of(m: MetaView, name: Seq<char>) -> bool {
    m matches MetaView::NameValue(n, _) && n == name
}

/// Whether an argument asks for an integer type.
pub open spec fn is_type_list(m: MetaView) -> bool {
    m matches MetaView::List(n, _, _) && n == "repr"@
}

/// Whether a name asks for this integer type.
pub open spec fn asks_for(name: Seq<char>, ty: Repr) -> bool {
    name == name_of(ty) || (name == "aligned"@ && ty == Repr::U64)
}

/// Whether `repr` is the integer type that the arguments ask for: that of the last that does.
pub open spec fn is_type_asked(ms: Seq<MetaView>, repr: Option<Repr>) -> bool {
    match repr {
        None => forall|i: int| 0 <= i < ms.len() ==> !is_type_list(#[trigger] ms[i]),
        Some(ty) => exists|i: int|
            {
                &&& 0 <= i < ms.len()
                &&& asks_type(#[trigger] ms[i], ty)
                &&& forall|j: int| i < j < ms.len() ==> !is_type_list(#[trigger] ms[j])
            },
    }
}

/// Whether an argument asks for this integer type.
pub open spec fn asks_type(m: MetaView, ty: Repr) -> bool {
    m matches MetaView::List(n, Some(name), _) && n == "repr"@ && asks_for(name, ty)
}

/// Whether an argument is one that is known and well formed.
pub open spec fn is_known(m: MetaView) -> bool {
    match m {
        MetaView::Path(n) => n == "rc"@ || n == "weak"@,
        MetaView::NameValue(n, v) => v is Some && (n == "tag"@ || n == "ctrl_tag"@),
        MetaView::List(n, one, many) => {
            ||| n == "repr"@ && exists|ty: Repr| asks_type(m, ty)
            ||| n == "allow"@ && (many matches Some(names) && all_lints(names))
        },
    }
}

/// Whether these are names of what can be allowed.
pub open spec fn all_lints(names: Seq<Seq<char>>) -> bool {
    forall|j: int| 0 <= j < names.len() ==> is_lint(#[trigger] names[j])
}

/// Whether this can be allowed.
pub open spec fn is_lint(name: Seq<char>) -> bool {
    name == "overlong_tag"@ || name == "coerced_ref"@ || name == "deprecated"@
}

proof fn lemma_texts()
    ensures
        "rc"@ != "weak"@,
        "tag"@ != "ctrl_tag"@,
        "repr"@ != "allow"@,
        "overlong_tag"@ != "coerced_ref"@,
        "overlong_tag"@ != "deprecated"@,
        "coerced_ref"@ != "deprecated"@,
{
    reveal_strlit("rc");
    reveal_strlit("weak");
    reveal_strlit("tag");
    reveal_strlit("ctrl_tag");
    reveal_strlit("repr");
    reveal_strlit("allow");
    reveal_strlit("overlong_tag");
    reveal_strlit("coerced_ref");
    reveal_strlit("deprecated");
    assert("rc"@.len() == 2 && "weak"@.len() == 4);
    assert("tag"@.len() == 3 && "ctrl_tag"@.len() == 8);
    assert("repr"@.len() == 4 && "allow"@.len() == 5);
    assert("overlong_tag"@.len() == 12 && "coerced_ref"@.len() == 11 && "deprecated"@.len() == 10);
}

proof fn lemma_allow(v: AttrView, names: Seq<Seq<char>>)
    ensures
        allow_step(v, names) is Ok <==> all_lints(names),
        allow_step(v, names) matches Ok(w) ==> {
            &&& w.allow_overlong == (v.allow_overlong || names.contains("overlong_tag"@)
                || names.contains("deprecated"@))
            &&& w.allow_coerced_ref == (v.allow_coerced_ref || names.contains("coerced_ref"@)
                || names.contains("deprecated"@))
            &&& w.rc == v.rc && w.weak == v.weak && w.tag == v.tag && w.ctrl_tag == v.ctrl_tag
                && w.repr == v.repr
        },
    decreases names.len(),
{
    lemma_texts();
    if names.len() > 0 {
        let init = names.drop_last();
        let last = names.last();
        lemma_allow(v, init);
        assert(names =~= init.push(last));
        assert(names[names.len() - 1] == last);
        assert forall|x: Seq<char>| names.contains(x) <==> init.contains(x) || x == last by {
            if init.contains(x) {
                let k = init.index_of(x);
                assert(names[k] == x);
            }
            if names.contains(x) && x != last {
                let k = names.index_of(x);
                assert(init[k] == x);
            }
        }
        if all_lints(names) {
            assert forall|j: int| 0 <= j < init.len() implies is_lint(#[trigger] init[j]) by {
                assert(init[j] == names[j]);
            }
        } else if all_lints(init) {
            let j = choose|j: int| 0 <= j < names.len() && !is_lint(#[trigger] names[j]);
            if j < init.len() {
                assert(init[j] == names[j]);
            }
        }
    }
}

/// Whether every argument is known.
pub open spec fn all_known(ms: Seq<MetaView>) -> bool {
    forall|i: int| 0 <= i < ms.len() ==> is_known(#[trigger] ms[i])
}

proof fn lemma_asked(name: Seq<char>)
    ensures
        repr_named(name) matches Ok(ty) ==> asks_for(name, ty),
        (exists|ty: Repr| asks_for(name, ty)) ==> repr_named(name) is Ok,
{
    if exists|ty: Repr| asks_for(name, ty) {
        let ty = choose|ty: Repr| asks_for(name, ty);
        assert(asks_for(name, ty));
    }
}

/// Whether `v` is what the arguments say together.
pub(crate) open spec fn is_said(ms: Seq<MetaView>, v: AttrView) -> bool {
    &&& v.rc == says_word(ms, "rc"@)
    &&& v.weak == says_word(ms, "weak"@)
    &&& is_text_for(ms, "tag"@, v.tag)
    &&& is_text_for(ms, "ctrl_tag"@, v.ctrl_tag)
    &&& v.allow_overlong == (allows(ms, "overlong_tag"@) || allows(ms, "deprecated"@))
    &&& v.allow_coerced_ref == (allows(ms, "coerced_ref"@) || allows(ms, "deprecated"@))
    &&& is_type_asked(ms, v.repr)
}

proof fn lemma_one_more_word(ms: Seq<MetaView>, m: MetaView, word: Seq<char>)
    ensures
        says_word(ms.push(m), word) <==> says_word(ms, word) || m == MetaView::Path(word),
        allows(ms.push(m), word) <==> allows(ms, word) || grants(m, word),
{
    let now = ms.push(m);
    assert(now[ms.len() as int] == m);
    if says_word(ms, word) {
        let i = choose|i: int| 0 <= i < ms.len() && #[trigger] ms[i] == MetaView::Path(word);
        assert(now[i] == ms[i]);
    }
    if says_word(now, word) && m != MetaView::Path(word) {
        let i = choose|i: int| 0 <= i < now.len() && #[trigger] now[i] == MetaView::Path(word);
        assert(now[i] == ms[i]);
    }
    if allows(ms, word) {
        let i = choose|i: int| 0 <= i < ms.len() && grants(#[trigger] ms[i], word);
        assert(now[i] == ms[i]);
    }
    if allows(now, word) && !grants(m, word) {
        let i = choose|i: int| 0 <= i < now.len() && grants(#[trigger] now[i], word);
        assert(now[i] == ms[i]);
    }
}

proof fn lemma_one_more_text(
    ms: Seq<MetaView>,
    m: MetaView,
    name: Seq<char>,
    text: Option<Seq<char>>,
)
    requires
        is_text_for(ms, name, text),
    ensures
        !is_value_of(m, name) ==> is_text_for(ms.push(m), name, text),
        m matches MetaView::NameValue(n, Some(x)) ==> n == name ==> is_text_for(
            ms.push(m),
            name,
            Some(x),
        ),
{
    let now = ms.push(m);
    assert(now[ms.len() as int] == m);
    if !is_value_of(m, name) {
        if let Some(x) = text {
            let i = choose|i: int|
                {
                    &&& 0 <= i < ms.len()
                    &&& #[trigger] ms[i] == MetaView::NameValue(name, Some(x))
                    &&& forall|j: int| i < j < ms.len() ==> !is_value_of(#[trigger] ms[j], name)
                };
            assert(now[i] == ms[i]);
            assert forall|j: int| i < j < now.len() implies !is_value_of(
                #[trigger] now[j],
                name,
            ) by {
                if j < ms.len() {
                    assert(now[j] == ms[j]);
                }
            }
        } else {
            assert forall|j: int| 0 <= j < now.len() implies !is_value_of(
                #[trigger] now[j],
                name,
            ) by {
                if j < ms.len() {
                    assert(now[j] == ms[j]);
                }
            }
        }
    }
}

proof fn lemma_one_more_type(ms: Seq<MetaView>, m: MetaView, repr: Option<Repr>)
    requires
        is_type_asked(ms, repr),
    ensures
        !is_type_list(m) ==> is_type_asked(ms.push(m), repr),
        forall|ty: Repr| #[trigger] asks_type(m, ty) ==> is_type_asked(ms.push(m), Some(ty)),
{
    let now = ms.push(m);
    assert(now[ms.len() as int] == m);
    if !is_type_list(m) {
        if let Some(ty) = repr {
            let i = choose|i: int|
                {
                    &&& 0 <= i < ms.len()
                    &&& asks_type(#[trigger] ms[i], ty)
                    &&& forall|j: int| i < j < ms.len() ==> !is_type_list(#[trigger] ms[j])
                };
            assert(now[i] == ms[i]);
            assert forall|j: int| i < j < now.len() implies !is_type_list(#[trigger] now[j]) by {
                if j < ms.len() {
                    assert(now[j] == ms[j]);
                }
            }
        } else {
            assert forall|j: int| 0 <= j < now.len() implies !is_type_list(#[trigger] now[j]) by {
                if j < ms.len() {
                    assert(now[j] == ms[j]);
                }
            }
        }
    }
}

pub(crate) proof fn lemma_said(ms: Seq<MetaView>)
    ensures
        said(ms) is Ok <==> all_known(ms),
        said(ms) matches Ok(v) ==> is_said(ms, v),
    decreases ms.len(),
{
    lemma_texts();
    if ms.len() > 0 {
        let init = ms.drop_last();
        let m = ms.last();
        lemma_said(init);
        assert(ms =~= init.push(m));
        assert(ms[ms.len() - 1] == m);
        if all_known(ms) {
            assert forall|i: int| 0 <= i < init.len() implies is_known(#[trigger] init[i]) by {
                assert(init[i] == ms[i]);
            }
        } else if all_known(init) {
            let j = choose|j: int| 0 <= j < ms.len() && !is_known(#[trigger] ms[j]);
            if j < init.len() {
                assert(init[j] == ms[j]);
            }
        }
        if said(init) is Ok {
            let v = said(init)->Ok_0;
            if let MetaView::List(n, one, many) = m {
                if let Some(names) = many {
                    lemma_allow(v, names);
                }
                if let Some(name) = one {
                    lemma_asked(name);
                    if n == "repr"@ && repr_named(name) is Ok {
                        assert(asks_type(m, repr_named(name)->Ok_0));
                    }
                    if exists|ty: Repr| asks_type(m, ty) {
                        let ty = choose|ty: Repr| asks_type(m, ty);
                        assert(asks_for(name, ty));
                    }
                }
            }
            lemma_one_more_word(init, m, "rc"@);
            lemma_one_more_word(init, m, "weak"@);
            lemma_one_more_word(init, m, "overlong_tag"@);
            lemma_one_more_word(init, m, "coerced_ref"@);
            lemma_one_more_word(init, m, "deprecated"@);
            lemma_one_more_text(init, m, "tag"@, v.tag);
            lemma_one_more_text(init, m, "ctrl_tag"@, v.ctrl_tag);
            lemma_one_more_type(init, m, v.repr);
        }
    }
}

/// The arguments say together what they say, in whatever order: counting with `rc`, weak
/// references with `weak` beside it, the tags and the integer type that were asked for last, and
/// what is allowed. They are refused exactly where one of them is not known, or `weak` stands
/// without `rc`.
pub proof fn law_arguments_say_what_they_say(metas: Vec<Meta>, r: Result<Attr, Problem>)
    requires
        call_ensures(parse_attr, (metas,), r),
    ensures
        ({
            let ms = meta_views(metas@);
            let rc = says_word(ms, "rc"@);
            let weak = says_word(ms, "weak"@);
            &&& r is Ok <==> all_known(ms) && (weak ==> rc)
            &&& r matches Ok(attr) ==> {
                &&& attr.mode == (if !rc {
                    Mode::Plain
                } else if !weak {
                    Mode::Rc
                } else {
                    Mode::RcWeak
                })
                &&& is_text_for(ms, "tag"@, text_of(attr.tag))
                &&& is_text_for(ms, "ctrl_tag"@, text_of(attr.ctrl_tag))
                &&& attr.allow_overlong == (allows(ms, "overlong_tag"@) || allows(
                    ms,
                    "deprecated"@,
                ))
                &&& attr.allow_coerced_ref == (allows(ms, "coerced_ref"@) || allows(
                    ms,
                    "deprecated"@,
                ))
                &&& is_type_asked(ms, attr.repr)
            }
            &&& r matches Err(p) ==> all_known(ms) ==> p == Problem::WeakWithoutRc
        }),
{
    lemma_said(meta_views(metas@));
}

} // verus!
