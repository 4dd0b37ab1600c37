//! Paths: one component after another.
use vstd::prelude::*;

use crate::path::{
    byte_views, components, is_same_path, lemma_has_a_piece, path_parts, pieces, Parts, Separators,
};

verus! {

/// Whether a byte separates components: a slash, and where it does so too, a backslash.
pub open spec fn parts_at(seps: Separators, b: u8) -> bool {
    b == 47 || (b == 92 && seps == Separators::Both)
}

/// Whether no byte of these separates components.
pub open spec fn is_whole(seps: Separators, name: Seq<u8>) -> bool {
    forall|i: int| 0 <= i < name.len() ==> !parts_at(seps, #[trigger] name[i])
}

proof fn lemma_one_more(seps: Separators, path: Seq<u8>, b: u8, name: Seq<u8>)
    requires
        parts_at(seps, b),
        is_whole(seps, name),
    ensures
        pieces(seps, path.push(b) + name) == pieces(seps, path).push(name),
    decreases name.len(),
{
    lemma_has_a_piece(seps, path);
    let all = path.push(b) + name;
    if name.len() == 0 {
        assert(all =~= path.push(b));
        assert(all.drop_last() =~= path);
        assert(name =~= Seq::empty());
    } else {
        let init = name.drop_last();
        assert forall|i: int| 0 <= i < init.len() implies !parts_at(seps, #[trigger] init[i]) by {
            assert(init[i] == name[i]);
        }
        lemma_one_more(seps, path, b, init);
        assert(all.drop_last() =~= path.push(b) + init);
        assert(all.last() == name.last());
        assert(!parts_at(seps, name[name.len() - 1]));
        let before = pieces(seps, path).push(init);
        assert(before.drop_last() =~= pieces(seps, path));
        assert(init.push(name.last()) =~= name);
    }
}

proof fn lemma_only_one(seps: Separators, name: Seq<u8>)
    requires
        is_whole(seps, name),
    ensures
        pieces(seps, name) == seq![name],
    decreases name.len(),
{
    if name.len() > 0 {
        let init = name.drop_last();
        assert forall|i: int| 0 <= i < init.len() implies !parts_at(seps, #[trigger] init[i]) by {
            assert(init[i] == name[i]);
        }
        lemma_only_one(seps, init);
        assert(!parts_at(seps, name[name.len() - 1]));
        assert(init.push(name.last()) =~= name);
        assert(seq![init].drop_last() =~= Seq::empty());
        assert(pieces(seps, name) =~= seq![name]);
    } else {
        assert(name =~= Seq::empty());
    }
}

/// A name behind a path and a separator is one component more, unless it is empty or a `.`; and
/// whether the path starts at the root does not change.
pub proof fn law_a_name_is_one_component_more(
    seps: Separators,
    path: &Vec<u8>,
    b: u8,
    name: Seq<u8>,
    longer: &Vec<u8>,
    p: Parts,
    q: Parts,
)
    requires
        path@.len() > 0,
        parts_at(seps, b),
        is_whole(seps, name),
        longer@ == path@.push(b) + name,
        call_ensures(path_parts, (seps, path), p),
        call_ensures(path_parts, (seps, longer), q),
    ensures
        q.rooted == p.rooted,
        p.rooted == parts_at(seps, path@[0]),
        name.len() == 0 || name == seq![46u8] ==> q.components@.len() == p.components@.len(),
        name.len() > 0 && name != seq![46u8] ==> q.components@.len() == p.components@.len() + 1
            && q.components@.last()@ == name,
        forall|i: int|
            0 <= i < p.components@.len() ==> (#[trigger] p.components@[i])@ == q.components@[i]@,
{
    lemma_has_a_piece(seps, path@);
    lemma_one_more(seps, path@, b, name);
    assert(longer@[0] == path@[0]);
    let ps = pieces(seps, path@);
    let qs = pieces(seps, longer@);
    assert(qs.drop_last() =~= ps);
    let pv = byte_views(p.components@);
    let qv = byte_views(q.components@);
    assert(pv.len() == p.components@.len());
    assert(qv.len() == q.components@.len());
    assert(forall|i: int| 0 <= i < pv.len() ==> pv[i] == #[trigger] p.components@[i]@);
    assert(forall|i: int| 0 <= i < qv.len() ==> qv[i] == #[trigger] q.components@[i]@);
    assert(pv == components(seps, path@));
    if name.len() > 0 && name != seq![46u8] {
        assert(qv == pv.push(name));
    } else {
        assert(qv == pv);
    }
}

/// A name by itself is one component, a `.` too; nothing at all is none.
pub proof fn law_a_name_is_one_component(seps: Separators, name: &Vec<u8>, p: Parts)
    requires
        is_whole(seps, name@),
        call_ensures(path_parts, (seps, name), p),
    ensures
        !p.rooted,
        name@.len() == 0 ==> p.components@.len() == 0,
        name@.len() > 0 ==> p.components@.len() == 1 && p.components@[0]@ == name@,
{
    lemma_only_one(seps, name@);
    let ps = seq![name@];
    assert(ps.drop_last() =~= Seq::empty());
    let pv = byte_views(p.components@);
    assert(pv.len() == p.components@.len());
    assert(pv == crate::path::counted(ps));
    assert(crate::path::counted(Seq::<Seq<u8>>::empty()) =~= Seq::empty());
    if name@.len() > 0 {
        assert(pv[0] == p.components@[0]@);
        assert(!parts_at(seps, name@[0]));
    }
}

/// Two paths are the same exactly where both or neither start at the root and their components
/// are the same.
pub proof fn law_paths_are_the_same_by_their_components(
    seps: Separators,
    x: &Vec<u8>,
    y: &Vec<u8>,
    p: Parts,
    q: Parts,
    r: bool,
)
    requires
        call_ensures(path_parts, (seps, x), p),
        call_ensures(path_parts, (seps, y), q),
        call_ensures(is_same_path, (seps, x, y), r),
    ensures
        r <==> p.rooted == q.rooted && p.components@.len() == q.components@.len() && forall|i: int|
            0 <= i < p.components@.len() ==> (#[trigger] p.components@[i])@ == q.components@[i]@,
{
    let pv = byte_views(p.components@);
    let qv = byte_views(q.components@);
    assert(pv.len() == p.components@.len());
    assert(qv.len() == q.components@.len());
    assert(forall|i: int| 0 <= i < pv.len() ==> pv[i] == #[trigger] p.components@[i]@);
    assert(forall|i: int| 0 <= i < qv.len() ==> qv[i] == #[trigger] q.components@[i]@);
    if pv.len() == qv.len() && (forall|i: int|
        0 <= i < p.components@.len() ==> (#[trigger] p.components@[i])@ == q.components@[i]@) {
        assert forall|i: int| 0 <= i < pv.len() implies pv[i] == qv[i] by {
            assert(p.components@[i]@ == q.components@[i]@);
        }
        assert(pv =~= qv);
    }
}

} // verus!
