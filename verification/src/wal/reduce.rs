//! Reusing a block that is about to be freed for a requirement of the same length.
use vstd::prelude::*;

use crate::range::{BStackRange, FileId};

verus! {

/// A requirement: a length in a file, with a number that tells equal ones apart.
#[derive(Clone, Copy, Debug, PartialEq, Eq, Structural)]
pub struct AllocReq {
    pub id: u64,
    pub len: u64,
    /// The file the block is wanted in; `0` is the file at hand.
    pub file_id: FileId,
    /// Kept for later; `0`.
    pub obj_id: u32,
}

/// The outcome of [`reduce`].
pub struct Reduced {
    /// Requirements met by a block that was about to be freed.
    pub reused: Vec<(AllocReq, BStackRange)>,
    /// Requirements that still need a new block.
    pub allocs: Vec<AllocReq>,
    /// Blocks that are still to be freed.
    pub deallocs: Vec<(FileId, BStackRange)>,
}

/// [`Reduced`] as sequences.
pub struct ReducedView {
    pub reused: Seq<(AllocReq, BStackRange)>,
    pub allocs: Seq<AllocReq>,
    pub deallocs: Seq<(FileId, BStackRange)>,
}

impl View for Reduced {
    type V = ReducedView;

    open spec fn view(&self) -> ReducedView {
        ReducedView { reused: self.reused@, allocs: self.allocs@, deallocs: self.deallocs@ }
    }
}

/// Whether the block meets the requirement: the same file, and the same length.
pub open spec fn fits(d: (FileId, BStackRange), req: AllocReq) -> bool {
    d.0 == req.file_id && d.1.len == req.len
}

/// Whether the block at `pos` is the first that meets the requirement.
pub open spec fn first_fit(ds: Seq<(FileId, BStackRange)>, req: AllocReq, pos: int) -> bool {
    &&& 0 <= pos < ds.len()
    &&& fits(ds[pos], req)
    &&& forall|j: int| 0 <= j < pos ==> !fits(#[trigger] ds[j], req)
}

/// Whether some block meets the requirement.
pub open spec fn some_fit(ds: Seq<(FileId, BStackRange)>, req: AllocReq) -> bool {
    exists|pos: int| first_fit(ds, req, pos)
}

/// What becomes of the requirements, taken in order: each gets the first block left that
/// meets it.
pub open spec fn reduce_spec(allocs: Seq<AllocReq>, deallocs: Seq<(FileId, BStackRange)>) ->
    ReducedView
    decreases allocs.len(),
{
    if allocs.len() == 0 {
        ReducedView { reused: Seq::empty(), allocs: Seq::empty(), deallocs }
    } else {
        let s = reduce_spec(allocs.drop_last(), deallocs);
        let req = allocs.last();
        if some_fit(s.deallocs, req) {
            let pos = choose|pos: int| first_fit(s.deallocs, req, pos);
            ReducedView {
                reused: s.reused.push((req, s.deallocs[pos].1)),
                allocs: s.allocs,
                deallocs: s.deallocs.remove(pos),
            }
        } else {
            ReducedView { reused: s.reused, allocs: s.allocs.push(req), deallocs: s.deallocs }
        }
    }
}

/// Where the first block that meets the requirement is.
fn find_fit(ds: &Vec<(FileId, BStackRange)>, req: &AllocReq) -> (r: Option<usize>)
    ensures
        match r {
            Some(pos) => first_fit(ds@, *req, pos as int),
            None => !some_fit(ds@, *req),
        },
{
    let mut i: usize = 0;
    while i < ds.len()
        invariant
            i <= ds@.len(),
            forall|j: int| 0 <= j < i ==> !fits(#[trigger] ds@[j], *req),
        decreases ds@.len() - i,
    {
        if ds[i].0 == req.file_id && ds[i].1.len == req.len {
            return Some(i);
        }
        i += 1;
    }
    None
}

/// Let each requirement take over a block of the same file and length that is about to be
/// freed; only what finds no partner is left as work.
pub fn reduce(allocs: Vec<AllocReq>, deallocs: Vec<(FileId, BStackRange)>) -> (r: Reduced)
    ensures
        r@ == reduce_spec(allocs@, deallocs@),
{
    let ghost given = deallocs@;
    let mut left = deallocs;
    let mut reused: Vec<(AllocReq, BStackRange)> = Vec::new();
    let mut rest: Vec<AllocReq> = Vec::new();
    let mut i: usize = 0;
    while i < allocs.len()
        invariant
            i <= allocs@.len(),
            reduce_spec(allocs@.take(i as int), given) == (ReducedView {
                reused: reused@,
                allocs: rest@,
                deallocs: left@,
            }),
        decreases allocs@.len() - i,
    {
        let req: AllocReq = allocs[i];
        let found = find_fit(&left, &req);
        proof {
            assert(allocs@.take(i + 1).drop_last() =~= allocs@.take(i as int));
        }
        match found {
            Some(pos) => {
                proof {
                    let p = choose|p: int| first_fit(left@, req, p);
                    assert(first_fit(left@, req, pos as int));
                    assert(p == pos) by {
                        if p < pos {
                            assert(!fits(left@[p], req));
                        } else if pos < p {
                            assert(!fits(left@[pos as int], req));
                        }
                    }
                }
                let d = left.remove(pos);
                reused.push((req, d.1));
            },
            None => {
                rest.push(req);
            },
        }
        i += 1;
    }
    assert(allocs@.take(i as int) =~= allocs@);
    Reduced { reused, allocs: rest, deallocs: left }
}

/// The requirements that were met.
pub open spec fn met(v: ReducedView) -> Seq<AllocReq> {
    v.reused.map_values(|p: (AllocReq, BStackRange)| p.0)
}

/// The blocks that were taken over, each with its file.
pub open spec fn taken(v: ReducedView) -> Seq<(FileId, BStackRange)> {
    v.reused.map_values(|p: (AllocReq, BStackRange)| (p.0.file_id, p.1))
}

/// Nothing is lost and nothing made up: every requirement is met or left, every block is
/// taken over or left, each exactly once.
pub proof fn law_reduce_keeps_everything(
    allocs: Seq<AllocReq>,
    deallocs: Seq<(FileId, BStackRange)>,
)
    ensures
        ({
            let v = reduce_spec(allocs, deallocs);
            &&& met(v).to_multiset().add(v.allocs.to_multiset()) == allocs.to_multiset()
            &&& taken(v).to_multiset().add(v.deallocs.to_multiset()) == deallocs.to_multiset()
        }),
    decreases allocs.len(),
{
    broadcast use vstd::seq_lib::group_to_multiset_ensures;

    let v = reduce_spec(allocs, deallocs);
    if allocs.len() == 0 {
        assert(met(v) =~= Seq::empty());
        assert(taken(v) =~= Seq::empty());
        assert(met(v).to_multiset().add(v.allocs.to_multiset()) =~= allocs.to_multiset());
        assert(taken(v).to_multiset().add(v.deallocs.to_multiset()) =~= deallocs.to_multiset());
    } else {
        let init = allocs.drop_last();
        let req = allocs.last();
        let s = reduce_spec(init, deallocs);
        law_reduce_keeps_everything(init, deallocs);
        assert(allocs =~= init.push(req));
        if some_fit(s.deallocs, req) {
            let pos = choose|pos: int| first_fit(s.deallocs, req, pos);
            assert(met(v) =~= met(s).push(req));
            assert(taken(v) =~= taken(s).push(s.deallocs[pos]));
            assert(met(v).to_multiset().add(v.allocs.to_multiset()) =~= allocs.to_multiset());
            assert(s.deallocs.remove(pos).to_multiset().insert(s.deallocs[pos])
                =~= s.deallocs.to_multiset());
            assert(taken(v).to_multiset().add(v.deallocs.to_multiset())
                =~= deallocs.to_multiset());
        } else {
            assert(met(v).to_multiset().add(v.allocs.to_multiset()) =~= allocs.to_multiset());
        }
    }
}

/// A block taken over lies in the file of the requirement and has its length.
pub proof fn law_reuse_is_same_file_and_length(
    allocs: Seq<AllocReq>,
    deallocs: Seq<(FileId, BStackRange)>,
)
    ensures
        forall|i: int|
            0 <= i < reduce_spec(allocs, deallocs).reused.len() ==> {
                let p = #[trigger] reduce_spec(allocs, deallocs).reused[i];
                p.1.len == p.0.len && deallocs.contains((p.0.file_id, p.1))
            },
        forall|d: (FileId, BStackRange)|
            reduce_spec(allocs, deallocs).deallocs.contains(d) ==> #[trigger] deallocs.contains(d),
    decreases allocs.len(),
{
    let v = reduce_spec(allocs, deallocs);
    if allocs.len() > 0 {
        let s = reduce_spec(allocs.drop_last(), deallocs);
        let req = allocs.last();
        law_reuse_is_same_file_and_length(allocs.drop_last(), deallocs);
        if some_fit(s.deallocs, req) {
            let pos = choose|pos: int| first_fit(s.deallocs, req, pos);
            assert(s.deallocs.contains(s.deallocs[pos]));
            assert forall|d: (FileId, BStackRange)| v.deallocs.contains(d) implies
                #[trigger] deallocs.contains(d) by {
                let k = choose|k: int| 0 <= k < v.deallocs.len() && v.deallocs[k] == d;
                if k < pos {
                    assert(s.deallocs[k] == d);
                } else {
                    assert(s.deallocs[k + 1] == d);
                }
                assert(s.deallocs.contains(d));
            }
        }
    }
}

/// No partner is overlooked: no requirement that is left could be met by a block that is left.
pub proof fn law_reduce_leaves_no_pair(
    allocs: Seq<AllocReq>,
    deallocs: Seq<(FileId, BStackRange)>,
)
    ensures
        forall|i: int, j: int|
            0 <= i < reduce_spec(allocs, deallocs).allocs.len() && 0 <= j < reduce_spec(
                allocs,
                deallocs,
            ).deallocs.len() ==> !fits(
                #[trigger] reduce_spec(allocs, deallocs).deallocs[j],
                #[trigger] reduce_spec(allocs, deallocs).allocs[i],
            ),
    decreases allocs.len(),
{
    let v = reduce_spec(allocs, deallocs);
    if allocs.len() > 0 {
        let s = reduce_spec(allocs.drop_last(), deallocs);
        let req = allocs.last();
        law_reduce_leaves_no_pair(allocs.drop_last(), deallocs);
        assert forall|i: int, j: int|
            0 <= i < v.allocs.len() && 0 <= j < v.deallocs.len() implies !fits(
            #[trigger] v.deallocs[j],
            #[trigger] v.allocs[i],
        ) by {
            if some_fit(s.deallocs, req) {
                let pos = choose|pos: int| first_fit(s.deallocs, req, pos);
                if j < pos {
                    assert(!fits(s.deallocs[j], s.allocs[i]));
                } else {
                    assert(!fits(s.deallocs[j + 1], s.allocs[i]));
                }
            } else if i < s.allocs.len() {
                assert(!fits(s.deallocs[j], s.allocs[i]));
            } else if fits(s.deallocs[j], req) {
                lemma_first_fit_exists(s.deallocs, req, j);
            }
        }
    }
}

proof fn lemma_first_fit_exists(ds: Seq<(FileId, BStackRange)>, req: AllocReq, j: int)
    requires
        0 <= j < ds.len(),
        fits(ds[j], req),
    ensures
        some_fit(ds, req),
    decreases j,
{
    if forall|k: int| 0 <= k < j ==> !fits(#[trigger] ds[k], req) {
        assert(first_fit(ds, req, j));
    } else {
        let k = choose|k: int| 0 <= k < j && fits(#[trigger] ds[k], req);
        lemma_first_fit_exists(ds, req, k);
    }
}

} // verus!
