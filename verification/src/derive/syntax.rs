//! Where the text of the arguments is read: what is said of a text before it is handed to the
//! parser, and the parser.
use proc_macro2::{fallback, Ident};
use quote::ToTokens;
use syn::parse::Parser;
use syn::punctuated::Punctuated;
use syn::token::Comma;
use syn::{Expr, ExprCast, ExprLit, GenericArgument, Lit, PathArguments, Type};
use vstd::prelude::*;

use super::ty::texts;

verus! {

/// How long a text may be that is handed to the parser.
pub const TEXT_MAX: usize = 256;

/// How long a text may be that is read as a list of names.
pub const LIST_MAX: usize = 1024;

/// How many marks may be in it.
pub const MARKS_MAX: usize = 24;

/// Whether a character is a mark: an ASCII sign that can stand around, or in front of, something
/// nested.
pub open spec fn is_mark(c: char) -> bool {
    &&& '!' <= c <= '~'
    &&& !('0' <= c <= '9' || 'A' <= c <= 'Z' || 'a' <= c <= 'z')
    &&& c != '_' && c != ',' && c != '.' && c != ':' && c != ';' && c != '"'
}

/// How many marks are in a text, those in strings among them.
pub open spec fn marks(text: Seq<char>) -> nat
    decreases text.len(),
{
    if text.len() == 0 {
        0
    } else {
        marks(text.drop_last()) + if is_mark(text.last()) {
            1nat
        } else {
            0
        }
    }
}

/// Whether a text can be handed to the parser. The parser calls itself for whatever is nested,
/// so that the stack bounds how deep a text can go. Something nested takes a mark or a word, and
/// with so few of these the parser stays within the stack of a thread.
pub open spec fn is_short(text: Seq<char>) -> bool {
    text.len() <= TEXT_MAX && marks(text) <= MARKS_MAX
}

/// Whether a text can be handed to the parser to be read as a list of names. That goes down
/// brackets only.
pub open spec fn is_flat(text: Seq<char>) -> bool {
    text.len() <= LIST_MAX && marks(text) <= MARKS_MAX
}

proof fn lemma_marks_grow(text: Seq<char>, n: int)
    requires
        0 <= n <= text.len(),
    ensures
        marks(text.take(n)) <= marks(text),
    decreases text.len() - n,
{
    if n < text.len() {
        assert(text.take(n + 1).drop_last() =~= text.take(n));
        lemma_marks_grow(text, n + 1);
    } else {
        assert(text.take(n) =~= text);
    }
}

fn mark(c: char) -> (r: bool)
    ensures
        r == is_mark(c),
{
    '!' <= c && c <= '~' && !(('0' <= c && c <= '9') || ('A' <= c && c <= 'Z') || ('a' <= c && c
        <= 'z')) && c != '_' && c != ',' && c != '.' && c != ':' && c != ';' && c != '"'
}

fn few_marks(text: &str) -> (r: bool)
    ensures
        r == (marks(text@) <= MARKS_MAX),
{
    let n: usize = text.unicode_len();
    let mut found: usize = 0;
    let mut i: usize = 0;
    assert(text@.take(0) =~= Seq::empty());
    while i < n
        invariant
            i <= n,
            n == text@.len(),
            found <= MARKS_MAX,
            found == marks(text@.take(i as int)),
        decreases n - i,
    {
        let c: char = text.get_char(i);
        proof {
            assert(text@.take(i + 1).drop_last() =~= text@.take(i as int));
            lemma_marks_grow(text@, i + 1);
        }
        if mark(c) {
            if found == MARKS_MAX {
                return false;
            }
            found += 1;
        }
        i += 1;
    }
    assert(text@.take(i as int) =~= text@);
    true
}

/// Whether a text can be handed to the parser.
pub fn short_enough(text: &str) -> (r: bool)
    ensures
        r == is_short(text@),
{
    text.unicode_len() <= TEXT_MAX && few_marks(text)
}

/// Whether a text can be handed to the parser to be read as a list of names.
pub fn flat_enough(text: &str) -> (r: bool)
    ensures
        r == is_flat(text@),
{
    text.unicode_len() <= LIST_MAX && few_marks(text)
}

/// One argument of an attribute, read.
pub enum Meta {
    /// A path on its own, by its text.
    Path(String),
    /// A path with a value; the value is `None` where it is no string.
    NameValue(String, Option<String>),
    /// A path with a list; what the list holds where that is just one name, and where it is
    /// names between commas.
    List(String, Option<String>, Option<Vec<String>>),
}

/// An argument that was read, by its texts.
pub enum MetaView {
    Path(Seq<char>),
    NameValue(Seq<char>, Option<Seq<char>>),
    List(Seq<char>, Option<Seq<char>>, Option<Seq<Seq<char>>>),
}

/// The text of an optional string.
pub open spec fn text_of(s: Option<String>) -> Option<Seq<char>> {
    match s {
        Some(x) => Some(x@),
        None => None,
    }
}

/// The texts of optional names.
pub open spec fn names_of(v: Option<Vec<String>>) -> Option<Seq<Seq<char>>> {
    match v {
        Some(x) => Some(texts(x@)),
        None => None,
    }
}

impl View for Meta {
    type V = MetaView;

    open spec fn view(&self) -> MetaView {
        match *self {
            Meta::Path(name) => MetaView::Path(name@),
            Meta::NameValue(name, value) => MetaView::NameValue(name@, text_of(value)),
            Meta::List(name, one, many) => MetaView::List(name@, text_of(one), names_of(many)),
        }
    }
}

/// The arguments, by their texts.
pub open spec fn meta_views(metas: Seq<Meta>) -> Seq<MetaView> {
    metas.map_values(|m: Meta| m@)
}

/// One argument of an attribute, with what a list holds as it stands.
pub enum RawMeta {
    /// A path on its own, by its text.
    Path(String),
    /// A path with a value; the value is `None` where it is no string.
    NameValue(String, Option<String>),
    /// A path with a list, and the text in the list.
    List(String, String),
}

/// An argument, by its texts.
pub enum RawMetaView {
    Path(Seq<char>),
    NameValue(Seq<char>, Option<Seq<char>>),
    List(Seq<char>, Seq<char>),
}

impl View for RawMeta {
    type V = RawMetaView;

    open spec fn view(&self) -> RawMetaView {
        match *self {
            RawMeta::Path(name) => RawMetaView::Path(name@),
            RawMeta::NameValue(name, value) => RawMetaView::NameValue(name@, text_of(value)),
            RawMeta::List(name, held) => RawMetaView::List(name@, held@),
        }
    }
}

/// The arguments, by their texts.
pub open spec fn raw_views(metas: Seq<RawMeta>) -> Seq<RawMetaView> {
    metas.map_values(|m: RawMeta| m@)
}

/// The arguments that a text holds, or `None` where it holds something else.
pub uninterp spec fn metas_named(text: Seq<char>) -> Option<Seq<RawMetaView>>;

/// `syn::punctuated::Punctuated::parse_terminated` of `syn::Meta`, on the tokens of a text. The
/// outcome depends on the text alone: the tokens are made by the crate `proc_macro2` itself,
/// also inside of a compiler that has a lexer of its own. Which arguments a text holds is left
/// unsaid; it is the grammar of attributes.
#[verifier::external_body]
pub(crate) fn metas_of(text: &str) -> (r: Option<Vec<RawMeta>>)
    requires
        is_short(text@),
    ensures
        match metas_named(text@) {
            Some(views) => r matches Some(v) && raw_views(v@) == views,
            None => r is None,
        },
{
    fallback::force();
    let list = Parser::parse_str(Punctuated::<syn::Meta, Comma>::parse_terminated, text).ok();
    let metas = list.map(|l| l.into_iter().map(|m| {
        let name = m.path().to_token_stream().to_string();
        match m {
            syn::Meta::Path(_) => RawMeta::Path(name),
            syn::Meta::NameValue(p) => RawMeta::NameValue(name, match p.value {
                Expr::Lit(ExprLit { lit: Lit::Str(s), .. }) => Some(s.value()),
                _ => None }),
            syn::Meta::List(l) => RawMeta::List(name, l.tokens.to_string()),
        }
    }).collect());
    fallback::unforce();
    metas
}

/// The names between commas that a text holds, and whether a comma ends it; or `None` where it
/// holds something else.
pub uninterp spec fn names_named(text: Seq<char>) -> Option<(Seq<Seq<char>>, bool)>;

/// `syn::punctuated::Punctuated::parse_terminated` of `syn::Ident`, on the tokens of a text. The
/// outcome depends on the text alone; see `metas_of`. Which names there are is left unsaid; it is
/// the grammar of the language.
#[verifier::external_body]
pub(crate) fn names_in(text: &str) -> (r: Option<(Vec<String>, bool)>)
    requires
        is_flat(text@),
    ensures
        match names_named(text@) {
            Some(found) => r matches Some(v) && texts(v.0@) == found.0 && v.1 == found.1,
            None => r is None,
        },
{
    fallback::force();
    let list = Parser::parse_str(Punctuated::<Ident, Comma>::parse_terminated, text).ok();
    let names = list.map(|l| (l.iter().map(|i| i.to_string()).collect(), l.trailing_punct()));
    fallback::unforce();
    names
}

/// The target of a cast.
pub struct Target {
    /// The text of the whole type.
    pub text: String,
    /// Where the type is a path: the name of its last segment, and the arguments of that in
    /// angle brackets. Of these the texts of the types are kept; `None` is any other argument.
    pub path: Option<(String, Vec<Option<String>>)>,
}

/// The target of a cast, by its texts.
pub struct TargetView {
    pub text: Seq<char>,
    pub path: Option<(Seq<char>, Seq<Option<Seq<char>>>)>,
}

/// The texts of the arguments of a path.
pub open spec fn arg_texts(args: Seq<Option<String>>) -> Seq<Option<Seq<char>>> {
    args.map_values(|a: Option<String>| text_of(a))
}

impl View for Target {
    type V = TargetView;

    open spec fn view(&self) -> TargetView {
        TargetView {
            text: self.text@,
            path: match self.path {
                Some(p) => Some((p.0@, arg_texts(p.1@))),
                None => None,
            },
        }
    }
}

/// The target of the cast that a text holds, or `None` where it holds something else.
pub uninterp spec fn target_named(text: Seq<char>) -> Option<TargetView>;

/// `syn::parse_str` of a `syn::ExprCast`: what stands behind `as`. The outcome depends on the
/// text alone; see `metas_of`. Which casts there are is left unsaid; it is the grammar of
/// expressions.
#[verifier::external_body]
pub(crate) fn target_of(text: &str) -> (r: Option<Target>)
    requires
        is_short(text@),
    ensures
        match target_named(text@) {
            Some(view) => r matches Some(t) && t@ == view,
            None => r is None,
        },
{
    fallback::force();
    let target = syn::parse_str::<ExprCast>(text).ok().map(|c| Target {
        text: c.ty.to_token_stream().to_string(),
        path: match *c.ty {
            Type::Path(p) => p.path.segments.last().map(|s| (s.ident.to_string(), match &s.arguments {
                PathArguments::AngleBracketed(l) => l.args.iter().map(|a| match a {
                    GenericArgument::Type(t) => Some(t.to_token_stream().to_string()),
                    _ => None }).collect(),
                _ => Vec::new(),
            })),
            _ => None,
        },
    });
    fallback::unforce();
    target
}

/// How many expressions between commas a text holds, or `None` where it holds something else.
pub uninterp spec fn arguments_named(text: Seq<char>) -> Option<nat>;

/// `syn::punctuated::Punctuated::parse_terminated` of `syn::Expr`, on the tokens of a text: how
/// many there are. The outcome depends on the text alone; see `metas_of`. Which expressions
/// there are is left unsaid; it is the grammar of expressions.
#[verifier::external_body]
pub(crate) fn arguments_of(text: &str) -> (r: Option<usize>)
    requires
        is_short(text@),
    ensures
        match arguments_named(text@) {
            Some(n) => r matches Some(k) && k == n,
            None => r is None,
        },
{
    fallback::force();
    let list = Parser::parse_str(Punctuated::<Expr, Comma>::parse_terminated, text);
    let n = list.ok().map(|l| l.len());
    fallback::unforce();
    n
}

} // verus!
