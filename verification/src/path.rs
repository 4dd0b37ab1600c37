//! Paths as byte strings, and when two of them are the same path.
//!
//! Two paths are the same where their components are: repeated and trailing separators do not
//! matter, and neither does a `.` but at the very start. What separates components depends on
//! the system: the slash everywhere, on some the backslash too. The name of a drive is a
//! component like any other.
use vstd::prelude::*;

verus! {

/// The slash.
pub const SLASH: u8 = 47;

/// The backslash.
pub const BACKSLASH: u8 = 92;

/// The dot.
pub const DOT: u8 = 46;

/// What separates the components of a path.
#[derive(Clone, Copy, Debug, PartialEq, Eq, Structural)]
pub enum Separators {
    /// The slash alone.
    Slash,
    /// The slash and the backslash.
    Both,
}

/// Whether a byte separates components.
pub open spec fn separates(seps: Separators, b: u8) -> bool {
    b == SLASH || (seps == Separators::Both && b == BACKSLASH)
}

/// Whether a path starts at the root.
pub open spec fn rooted(seps: Separators, path: Seq<u8>) -> bool {
    path.len() > 0 && separates(seps, path[0])
}

/// What stands between the separators of a path; a piece may be empty.
pub open spec fn pieces(seps: Separators, path: Seq<u8>) -> Seq<Seq<u8>>
    decreases path.len(),
{
    if path.len() == 0 {
        seq![Seq::<u8>::empty()]
    } else {
        let before = pieces(seps, path.drop_last());
        if separates(seps, path.last()) {
            before.push(Seq::empty())
        } else {
            before.drop_last().push(before.last().push(path.last()))
        }
    }
}

/// Whether a piece is a component, where `first` says whether it is the first piece.
pub open spec fn counts(piece: Seq<u8>, first: bool) -> bool {
    piece.len() > 0 && (first || piece != seq![DOT])
}

/// The components among pieces.
pub open spec fn counted(ps: Seq<Seq<u8>>) -> Seq<Seq<u8>>
    decreases ps.len(),
{
    if ps.len() == 0 {
        Seq::empty()
    } else if counts(ps.last(), ps.len() == 1) {
        counted(ps.drop_last()).push(ps.last())
    } else {
        counted(ps.drop_last())
    }
}

/// The components of a path.
pub open spec fn components(seps: Separators, path: Seq<u8>) -> Seq<Seq<u8>> {
    counted(pieces(seps, path))
}

/// Whether two byte strings are the same path.
pub open spec fn same_path(seps: Separators, p: Seq<u8>, q: Seq<u8>) -> bool {
    rooted(seps, p) == rooted(seps, q) && components(seps, p) == components(seps, q)
}

/// The bytes of each component.
pub open spec fn byte_views(v: Seq<Vec<u8>>) -> Seq<Seq<u8>> {
    v.map_values(|p: Vec<u8>| p@)
}

/// The components of a path, and whether it starts at the root.
pub struct Parts {
    pub rooted: bool,
    pub components: Vec<Vec<u8>>,
}

/// Whether these are the parts of `path`.
pub open spec fn parts_of(seps: Separators, parts: Parts, path: Seq<u8>) -> bool {
    parts.rooted == rooted(seps, path) && byte_views(parts.components@) == components(seps, path)
}

pub(crate) proof fn lemma_has_a_piece(seps: Separators, path: Seq<u8>)
    ensures
        pieces(seps, path).len() > 0,
    decreases path.len(),
{
    if path.len() > 0 {
        lemma_has_a_piece(seps, path.drop_last());
    }
}

fn is_component(piece: &Vec<u8>, first: bool) -> (r: bool)
    ensures
        r == counts(piece@, first),
{
    if piece.len() == 0 {
        return false;
    }
    if first {
        return true;
    }
    if piece.len() == 1 && piece[0] == DOT {
        assert(piece@ =~= seq![DOT]);
        false
    } else {
        assert(piece@ != seq![DOT]) by {
            if piece@ == seq![DOT] {
                assert(piece@.len() == 1 && piece@[0] == DOT);
            }
        }
        true
    }
}

/// Whether a byte separates components.
pub fn is_separator(seps: Separators, b: u8) -> (r: bool)
    ensures
        r == separates(seps, b),
{
    b == SLASH || (seps == Separators::Both && b == BACKSLASH)
}

/// Take a path apart.
pub fn path_parts(seps: Separators, path: &Vec<u8>) -> (r: Parts)
    ensures
        parts_of(seps, r, path@),
{
    let mut done: Vec<Vec<u8>> = Vec::new();
    let mut cur: Vec<u8> = Vec::new();
    let mut first: bool = true;
    let mut i: usize = 0;
    proof {
        assert(path@.take(0) =~= Seq::empty());
        assert(pieces(seps, path@.take(0)).drop_last() =~= Seq::empty());
        assert(cur@ =~= Seq::empty());
        assert(byte_views(done@) =~= Seq::empty());
    }
    while i < path.len()
        invariant
            i <= path@.len(),
            pieces(seps, path@.take(i as int)).len() > 0,
            cur@ == pieces(seps, path@.take(i as int)).last(),
            byte_views(done@) == counted(pieces(seps, path@.take(i as int)).drop_last()),
            first == (pieces(seps, path@.take(i as int)).len() == 1),
        decreases path@.len() - i,
    {
        let b: u8 = path[i];
        let ghost was = pieces(seps, path@.take(i as int));
        let ghost now = pieces(seps, path@.take(i + 1));
        proof {
            assert(path@.take(i + 1).drop_last() =~= path@.take(i as int));
            assert(path@.take(i + 1).last() == b);
        }
        if is_separator(seps, b) {
            let mut piece: Vec<u8> = Vec::new();
            core::mem::swap(&mut cur, &mut piece);
            proof {
                assert(now.drop_last() =~= was);
                assert(cur@ =~= Seq::empty());
            }
            let ghost before = done@;
            if is_component(&piece, first) {
                let ghost text = piece@;
                done.push(piece);
                assert(byte_views(done@) =~= byte_views(before).push(text));
            }
            first = false;
        } else {
            cur.push(b);
            assert(now.drop_last() =~= was.drop_last());
        }
        i += 1;
    }
    let ghost all = pieces(seps, path@);
    assert(path@.take(i as int) =~= path@);
    let ghost before = done@;
    if is_component(&cur, first) {
        let ghost text = cur@;
        done.push(cur);
        assert(byte_views(done@) =~= byte_views(before).push(text));
    }
    Parts { rooted: path.len() > 0 && is_separator(seps, path[0]), components: done }
}

/// Whether two byte strings are the same.
pub fn same_bytes(x: &Vec<u8>, y: &Vec<u8>) -> (r: bool)
    ensures
        r == (x@ == y@),
{
    if x.len() != y.len() {
        return false;
    }
    let mut i: usize = 0;
    while i < x.len()
        invariant
            i <= x@.len(),
            x@.len() == y@.len(),
            forall|j: int| 0 <= j < i ==> x@[j] == y@[j],
        decreases x@.len() - i,
    {
        if x[i] != y[i] {
            return false;
        }
        i += 1;
    }
    assert(x@ =~= y@);
    true
}

/// Whether two paths that were taken apart are the same.
pub fn same_parts(x: &Parts, y: &Parts) -> (r: bool)
    ensures
        r == (x.rooted == y.rooted && byte_views(x.components@) == byte_views(y.components@)),
{
    if x.rooted != y.rooted {
        return false;
    }
    if x.components.len() != y.components.len() {
        assert(byte_views(x.components@).len() != byte_views(y.components@).len());
        return false;
    }
    let mut i: usize = 0;
    while i < x.components.len()
        invariant
            i <= x.components@.len(),
            x.components@.len() == y.components@.len(),
            forall|j: int| 0 <= j < i ==> (#[trigger] x.components@[j])@ == y.components@[j]@,
        decreases x.components@.len() - i,
    {
        if !same_bytes(&x.components[i], &y.components[i]) {
            assert(byte_views(x.components@)[i as int] != byte_views(y.components@)[i as int]);
            return false;
        }
        i += 1;
    }
    assert(byte_views(x.components@) =~= byte_views(y.components@));
    true
}

/// Whether two byte strings are the same path.
pub fn is_same_path(seps: Separators, p: &Vec<u8>, q: &Vec<u8>) -> (r: bool)
    ensures
        r == same_path(seps, p@, q@),
{
    same_parts(&path_parts(seps, p), &path_parts(seps, q))
}

/// A separator at the end of a path that has anything before it, and one after another, do not
/// make another path.
pub proof fn law_more_slashes_are_the_same_path(seps: Separators, path: Seq<u8>, b: u8)
    requires
        path.len() > 0,
        separates(seps, b),
    ensures
        same_path(seps, path.push(b), path),
{
    let more = path.push(b);
    assert(more.drop_last() =~= path);
    lemma_has_a_piece(seps, path);
    assert(pieces(seps, more).drop_last() =~= pieces(seps, path));
}

/// A separator and a `.` at the end of a path that has anything before them do not make another
/// path.
pub proof fn law_a_dot_is_no_component(seps: Separators, path: Seq<u8>, b: u8)
    requires
        path.len() > 0,
        separates(seps, b),
    ensures
        same_path(seps, path.push(b).push(DOT), path),
{
    let more = path.push(b);
    let dotted = more.push(DOT);
    assert(more.drop_last() =~= path);
    assert(dotted.drop_last() =~= more);
    lemma_has_a_piece(seps, path);
    let ps = pieces(seps, path);
    assert(pieces(seps, more) == ps.push(Seq::empty()));
    assert(pieces(seps, more).drop_last() =~= ps);
    assert(Seq::<u8>::empty().push(DOT) =~= seq![DOT]);
    assert(pieces(seps, dotted) =~= ps.push(seq![DOT]));
    assert(pieces(seps, dotted).drop_last() =~= ps);
}

proof fn lemma_both_separators(path: Seq<u8>, rest: Seq<u8>)
    ensures
        pieces(Separators::Both, path.push(BACKSLASH) + rest) == pieces(
            Separators::Both,
            path.push(SLASH) + rest,
        ),
    decreases rest.len(),
{
    let p = path.push(BACKSLASH) + rest;
    let q = path.push(SLASH) + rest;
    if rest.len() == 0 {
        assert(p.drop_last() =~= path);
        assert(q.drop_last() =~= path);
    } else {
        lemma_both_separators(path, rest.drop_last());
        assert(p.drop_last() =~= path.push(BACKSLASH) + rest.drop_last());
        assert(q.drop_last() =~= path.push(SLASH) + rest.drop_last());
    }
}

/// Where the backslash separates too, it makes no difference which of the two does.
pub proof fn law_both_separators_are_one(path: Seq<u8>, rest: Seq<u8>)
    ensures
        same_path(
            Separators::Both,
            path.push(BACKSLASH) + rest,
            path.push(SLASH) + rest,
        ),
{
    lemma_both_separators(path, rest);
    assert((path.push(BACKSLASH) + rest)[0] == path.push(BACKSLASH)[0]);
    assert((path.push(SLASH) + rest)[0] == path.push(SLASH)[0]);
}

} // verus!
