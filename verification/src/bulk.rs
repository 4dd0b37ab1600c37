//! Taking and freeing several blocks.
use vstd::pervasive::arbitrary;
use vstd::prelude::*;

use crate::allocator::{
    extends, lemma_extends, lemma_since, ranges_view, since, BStackRaiiAllocator, Event, Settings,
};
use crate::error::Error;
use crate::handback::HandBack;
use crate::range::{BStackRange, FileId};
use crate::teardown::{
    collects, dealloc_range, kept, lemma_with_more, with_more, Teardown, TeardownView,
};

verus! {

/// A free of several blocks that did not free all of them.
pub struct FreeManyError {
    pub source: Error,
    pub unfreed: Vec<BStackRange>,
}

impl FreeManyError {
    pub fn from_parts(source: Error, unfreed: Vec<BStackRange>) -> (r: FreeManyError)
        ensures
            r == (FreeManyError { source, unfreed }),
    {
        FreeManyError { source, unfreed }
    }

    /// The blocks that were not freed.
    pub fn unfreed(&self) -> (r: &[BStackRange])
        ensures
            r@ == self.unfreed@,
    {
        self.unfreed.as_slice()
    }
}

impl HandBack for FreeManyError {
    open spec fn spec_io(&self) -> Error {
        self.source
    }

    fn io(&self) -> (r: &Error) {
        &self.source
    }
}

/// The conversation that takes blocks one by one: all of them, or, where one cannot be had,
/// those that were taken are freed, the last first.
pub open spec fn alloc_many_talk(
    sizes: Seq<u64>,
    before: TeardownView,
    new: TeardownView,
    s: Settings,
    t: Seq<Event>,
    r: Result<Seq<BStackRange>, Error>,
) -> bool {
    match r {
        Ok(out) => {
            &&& out.len() == sizes.len()
            &&& t.len() == sizes.len()
            &&& took(sizes, t, out)
            &&& new == before
        },
        Err(e) => exists|out: Seq<BStackRange>| #[trigger]
            gave_up(sizes, t, out, e, collects(before, s)) && new == (if collects(before, s) {
                with_more(before, backwards(s.file, out))
            } else {
                before
            }),
    }
}

/// The blocks of a file, the last first.
pub open spec fn backwards(file: FileId, out: Seq<BStackRange>) -> Seq<(FileId, BStackRange)> {
    Seq::new(out.len(), |i: int| (file, out[out.len() - 1 - i]))
}

/// Whether the first requests took the blocks `out`, of the first of the sizes.
pub open spec fn took(sizes: Seq<u64>, t: Seq<Event>, out: Seq<BStackRange>) -> bool {
    &&& out.len() <= sizes.len()
    &&& out.len() <= t.len()
    &&& forall|i: int|
        0 <= i < out.len() ==> #[trigger] t[i] == (Event::Alloc {
            len: sizes[i],
            reply: Ok(out[i]),
        })
}

/// Whether the next block could not be had, and those in `out` were given back, unless they were
/// collected.
pub open spec fn gave_up(
    sizes: Seq<u64>,
    t: Seq<Event>,
    out: Seq<BStackRange>,
    e: Error,
    held: bool,
) -> bool {
    let n = out.len() as int;
    &&& n < sizes.len()
    &&& t.len() == (if held {
        n + 1
    } else {
        2 * n + 1
    })
    &&& took(sizes, t, out)
    &&& t[n] == (Event::Alloc { len: sizes[n], reply: Err(e) })
    &&& forall|i: int|
        n < i < t.len() ==> (#[trigger] t[i] matches Event::Dealloc { range, reply: _ } && range
            == out[2 * n - i])
}

/// Take one block of each size, in order. Where one cannot be had, those taken before are
/// freed, so that nothing is left over.
pub fn seq_alloc_many<A: BStackRaiiAllocator>(ctx: &mut Teardown, a: &mut A, sizes: &[u64]) -> (r:
    Result<Vec<BStackRange>, Error>)
    ensures
        final(a).spec_settings() == old(a).spec_settings(),
        extends(old(a).trace(), final(a).trace()),
        kept(old(ctx)@, final(ctx)@),
        alloc_many_talk(
            sizes@,
            old(ctx)@,
            final(ctx)@,
            old(a).spec_settings(),
            since(old(a).trace(), final(a).trace()),
            ranges_view(r),
        ),
{
    let ghost before = a.trace();
    let ghost s = a.spec_settings();
    let ghost was = ctx@;
    let ghost held = collects(was, s);
    let ghost mut t: Seq<Event> = Seq::empty();
    let mut out: Vec<BStackRange> = Vec::with_capacity(sizes.len());
    assert(a.trace() =~= before + t);
    let mut i: usize = 0;
    while i < sizes.len()
        invariant
            i <= sizes@.len(),
            before == old(a).trace(),
            s == old(a).spec_settings(),
            was == old(ctx)@,
            held == collects(was, s),
            ctx@ == was,
            a.spec_settings() == s,
            a.trace() == before + t,
            t.len() == i,
            out@.len() == i,
            took(sizes@, t, out@),
        decreases sizes@.len() - i,
    {
        let taken = a.alloc_range(sizes[i]);
        proof {
            t = t.push(Event::Alloc { len: sizes@[i as int], reply: taken });
            assert(a.trace() =~= before + t);
        }
        match taken {
            Ok(range) => {
                out.push(range);
            },
            Err(e) => {
                let ghost n = i as int;
                let mut k: usize = out.len();
                proof {
                    lemma_with_more(was, Seq::empty(), (s.file, arbitrary()));
                    assert(backwards(s.file, out@).take(0) =~= Seq::empty());
                }
                while k > 0
                    invariant
                        0 <= k <= out@.len(),
                        n == out@.len(),
                        n < sizes@.len(),
                        before == old(a).trace(),
                        s == old(a).spec_settings(),
                        was == old(ctx)@,
                        held == collects(was, s),
                        ctx@ == (if held {
                            with_more(was, backwards(s.file, out@).take(n - k))
                        } else {
                            was
                        }),
                        a.spec_settings() == s,
                        a.trace() == before + t,
                        t.len() == (if held {
                            n + 1
                        } else {
                            2 * n + 1 - k
                        }),
                        took(sizes@, t, out@),
                        t[n] == (Event::Alloc { len: sizes@[n], reply: Err(e) }),
                        forall|j: int|
                            n < j < t.len() ==> (#[trigger] t[j] matches Event::Dealloc {
                                range,
                                reply: _,
                            } && range == out@[2 * n - j]),
                    decreases k,
                {
                    k -= 1;
                    let ghost mid = a.trace();
                    let ghost done = backwards(s.file, out@).take(n - k - 1);
                    let _ = dealloc_range(ctx, a, out[k]);
                    proof {
                        lemma_extends(mid, a.trace());
                        let t2 = since(mid, a.trace());
                        lemma_with_more(was, done, (s.file, out@[k as int]));
                        assert(backwards(s.file, out@).take(n - k) =~= done.push(
                            (s.file, out@[k as int]),
                        ));
                        t = t + t2;
                        assert(a.trace() =~= before + t);
                    }
                }
                proof {
                    lemma_since(before, t);
                    let all = backwards(s.file, out@);
                    assert(all.take(n) =~= all);
                    lemma_with_more(was, all, (s.file, arbitrary()));
                    lemma_with_more(was, Seq::empty(), (s.file, arbitrary()));
                    assert(gave_up(sizes@, t, out@, e, held));
                }
                return Err(e);
            },
        }
        i += 1;
    }
    proof {
        lemma_since(before, t);
        lemma_with_more(was, Seq::empty(), (s.file, arbitrary()));
    }
    Ok(out)
}

/// What became of each free, where none was collected: the requests, and the blocks whose free
/// failed, in order.
pub open spec fn failed_frees(ranges: Seq<BStackRange>, t: Seq<Event>) -> Seq<BStackRange>
    decreases ranges.len(),
{
    if ranges.len() == 0 {
        Seq::empty()
    } else {
        let rest = failed_frees(ranges.drop_last(), t);
        if t[ranges.len() - 1]->Dealloc_reply is Err {
            rest.push(ranges.last())
        } else {
            rest
        }
    }
}

/// The first failure among the frees.
pub open spec fn first_failure(n: nat, t: Seq<Event>) -> Option<Error>
    decreases n,
{
    if n == 0 {
        None
    } else {
        match first_failure((n - 1) as nat, t) {
            Some(e) => Some(e),
            None => match t[n - 1]->Dealloc_reply {
                Err(e) => Some(e),
                Ok(_) => None,
            },
        }
    }
}

/// The conversation that frees blocks one by one: every one is tried.
pub open spec fn free_many_talk(
    ranges: Seq<BStackRange>,
    t: Seq<Event>,
    r: Result<(), FreeManyError>,
) -> bool {
    &&& t.len() == ranges.len()
    &&& forall|i: int|
        0 <= i < t.len() ==> (#[trigger] t[i] matches Event::Dealloc { range, reply: _ } && range
            == ranges[i])
    &&& match first_failure(ranges.len(), t) {
        None => r is Ok,
        Some(e) => r matches Err(x) && x.source == e && x.unfreed@ == failed_frees(ranges, t),
    }
}

proof fn lemma_frees_prefix(ranges: Seq<BStackRange>, t: Seq<Event>, more: Event)
    requires
        ranges.len() <= t.len(),
    ensures
        failed_frees(ranges, t.push(more)) == failed_frees(ranges, t),
        first_failure(ranges.len(), t.push(more)) == first_failure(ranges.len(), t),
    decreases ranges.len(),
{
    if ranges.len() > 0 {
        lemma_frees_prefix(ranges.drop_last(), t, more);
        assert(t.push(more)[ranges.len() - 1] == t[ranges.len() - 1]);
    }
}

/// Free every block, one by one, going on past a failure. The error is the first failure,
/// with all blocks that were not freed. Blocks that belong to a collection under way are
/// collected.
pub fn seq_free_many<A: BStackRaiiAllocator>(
    ctx: &mut Teardown,
    a: &mut A,
    ranges: &Vec<BStackRange>,
) -> (r: Result<(), FreeManyError>)
    ensures
        final(a).spec_settings() == old(a).spec_settings(),
        extends(old(a).trace(), final(a).trace()),
        if collects(old(ctx)@, old(a).spec_settings()) {
            &&& r is Ok
            &&& final(a).trace() == old(a).trace()
            &&& final(ctx)@ == with_more(
                old(ctx)@,
                ranges@.map_values(|x: BStackRange| (old(a).spec_settings().file, x)),
            )
        } else {
            &&& final(ctx)@ == old(ctx)@
            &&& free_many_talk(ranges@, since(old(a).trace(), final(a).trace()), r)
        },
{
    let ghost before = a.trace();
    let ghost s = a.spec_settings();
    let ghost was = ctx@;
    let ghost coll = collects(was, s);
    let ghost mut t: Seq<Event> = Seq::empty();
    let ghost tag = |x: BStackRange| (s.file, x);
    let mut first: Option<Error> = None;
    let mut unfreed: Vec<BStackRange> = Vec::new();
    let mut i: usize = 0;
    assert(a.trace() =~= before + t);
    assert(ranges@.take(0).map_values(tag) =~= Seq::empty());
    proof {
        lemma_with_more(was, Seq::empty(), arbitrary());
    }
    while i < ranges.len()
        invariant
            i <= ranges@.len(),
            before == old(a).trace(),
            was == old(ctx)@,
            s == old(a).spec_settings(),
            a.spec_settings() == s,
            coll == collects(was, s),
            tag == (|x: BStackRange| (s.file, x)),
            a.trace() == before + t,
            coll ==> {
                &&& t.len() == 0
                &&& first is None
                &&& unfreed@.len() == 0
                &&& collects(ctx@, s)
                &&& ctx@ == with_more(was, ranges@.take(i as int).map_values(tag))
            },
            !coll ==> {
                &&& ctx@ == was
                &&& t.len() == i
                &&& forall|j: int|
                    0 <= j < t.len() ==> (#[trigger] t[j] matches Event::Dealloc { range, reply: _ }
                        && range == ranges@[j])
                &&& unfreed@ == failed_frees(ranges@.take(i as int), t)
                &&& first == first_failure(i as nat, t)
            },
        decreases ranges@.len() - i,
    {
        let ghost mid = a.trace();
        let ghost mid_ctx = ctx@;
        let one = dealloc_range(ctx, a, ranges[i]);
        proof {
            lemma_extends(mid, a.trace());
            let more = since(mid, a.trace());
            assert(ranges@.take(i + 1).drop_last() =~= ranges@.take(i as int));
            if coll {
                assert(ranges@.take(i + 1).map_values(tag) =~= ranges@.take(
                    i as int,
                ).map_values(tag).push((s.file, ranges@[i as int])));
                assert(a.trace() =~= before + t);
                lemma_with_more(
                    was,
                    ranges@.take(i as int).map_values(tag),
                    (s.file, ranges@[i as int]),
                );
            } else {
                lemma_frees_prefix(ranges@.take(i as int), t, more[0]);
                t = t.push(more[0]);
                assert(a.trace() =~= before + t);
            }
        }
        if let Err(e) = one {
            if first.is_none() {
                first = Some(e);
            }
            unfreed.push(ranges[i]);
        }
        i += 1;
    }
    proof {
        lemma_since(before, t);
        assert(ranges@.take(i as int) =~= ranges@);
        assert(before + Seq::empty() =~= before);
        if coll {
            assert(t =~= Seq::empty());
        }
    }
    match first {
        None => Ok(()),
        Some(source) => Err(FreeManyError { source, unfreed }),
    }
}

/// Take all blocks in one indivisible step.
pub fn bulk_alloc_many<A: BStackRaiiAllocator>(a: &mut A, sizes: Vec<u64>) -> (r: Result<
    Vec<BStackRange>,
    Error,
>)
    ensures
        final(a).spec_settings() == old(a).spec_settings(),
        final(a).trace() == old(a).trace().push(
            Event::AllocBulk { lens: sizes@, reply: ranges_view(r) },
        ),
{
    a.alloc_bulk(sizes)
}

fn copy_ranges(ranges: &Vec<BStackRange>) -> (r: Vec<BStackRange>)
    ensures
        r@ == ranges@,
{
    let mut out: Vec<BStackRange> = Vec::with_capacity(ranges.len());
    out.extend_from_slice(ranges.as_slice());
    assert(out@ =~= ranges@);
    out
}

/// The conversation that frees all blocks in one step: all of them go, or none.
pub open spec fn free_bulk_talk(
    ranges: Seq<BStackRange>,
    t: Seq<Event>,
    r: Result<(), FreeManyError>,
) -> bool {
    &&& t.len() == 1
    &&& t[0] matches Event::DeallocBulk { ranges: asked, reply }
    &&& asked == ranges
    &&& match reply {
        Ok(_) => r is Ok,
        Err(e) => r matches Err(x) && x.source == e && x.unfreed@ == ranges,
    }
}

/// Free all blocks in one indivisible step: all of them go, or none.
pub fn bulk_free_many<A: BStackRaiiAllocator>(a: &mut A, ranges: Vec<BStackRange>) -> (r: Result<
    (),
    FreeManyError,
>)
    ensures
        final(a).spec_settings() == old(a).spec_settings(),
        extends(old(a).trace(), final(a).trace()),
        free_bulk_talk(ranges@, since(old(a).trace(), final(a).trace()), r),
{
    let ghost before = a.trace();
    let all = copy_ranges(&ranges);
    let reply = a.dealloc_bulk(all);
    proof {
        let t = seq![Event::DeallocBulk { ranges: ranges@, reply }];
        assert(a.trace() =~= before + t);
        lemma_since(before, t);
    }
    match reply {
        Ok(_) => Ok(()),
        Err(e) => Err(FreeManyError::from_parts(e, ranges)),
    }
}

/// Take one block of each size: in one step where the allocator can, else one by one.
pub fn alloc_many<A: BStackRaiiAllocator>(ctx: &mut Teardown, a: &mut A, sizes: Vec<u64>) -> (r:
    Result<Vec<BStackRange>, Error>)
    ensures
        final(a).spec_settings() == old(a).spec_settings(),
        extends(old(a).trace(), final(a).trace()),
        kept(old(ctx)@, final(ctx)@),
        if old(a).spec_settings().bulk {
            &&& final(ctx)@ == old(ctx)@
            &&& final(a).trace() == old(a).trace().push(
                Event::AllocBulk { lens: sizes@, reply: ranges_view(r) },
            )
        } else {
            alloc_many_talk(
                sizes@,
                old(ctx)@,
                final(ctx)@,
                old(a).spec_settings(),
                since(old(a).trace(), final(a).trace()),
                ranges_view(r),
            )
        },
        r matches Ok(out) ==> out@.len() == sizes@.len(),
{
    let ghost before = a.trace();
    if a.settings().bulk {
        let r = a.alloc_bulk(sizes);
        proof {
            let t = seq![a.trace().last()];
            assert(a.trace() =~= before + t);
            lemma_since(before, t);
            lemma_with_more(ctx@, Seq::empty(), arbitrary());
        }
        r
    } else {
        seq_alloc_many(ctx, a, sizes.as_slice())
    }
}

/// Free every block: in one step where the allocator can, else one by one. Blocks that belong
/// to a collection under way are collected where they would go one by one.
pub fn free_many<A: BStackRaiiAllocator>(
    ctx: &mut Teardown,
    a: &mut A,
    ranges: Vec<BStackRange>,
) -> (r: Result<(), FreeManyError>)
    ensures
        final(a).spec_settings() == old(a).spec_settings(),
        extends(old(a).trace(), final(a).trace()),
        if old(a).spec_settings().bulk {
            &&& final(ctx)@ == old(ctx)@
            &&& free_bulk_talk(ranges@, since(old(a).trace(), final(a).trace()), r)
        } else if collects(old(ctx)@, old(a).spec_settings()) {
            &&& r is Ok
            &&& final(a).trace() == old(a).trace()
            &&& final(ctx)@ == with_more(
                old(ctx)@,
                ranges@.map_values(|x: BStackRange| (old(a).spec_settings().file, x)),
            )
        } else {
            &&& final(ctx)@ == old(ctx)@
            &&& free_many_talk(ranges@, since(old(a).trace(), final(a).trace()), r)
        },
{
    if a.settings().bulk {
        bulk_free_many(a, ranges)
    } else {
        seq_free_many(ctx, a, &ranges)
    }
}

/// Where several blocks cannot be had, none is left over: each that was taken is given back
/// later, or collected.
pub proof fn law_failed_allocation_leaves_nothing(
    sizes: Seq<u64>,
    before: TeardownView,
    new: TeardownView,
    s: Settings,
    t: Seq<Event>,
    e: Error,
    i: int,
    block: BStackRange,
)
    requires
        alloc_many_talk(sizes, before, new, s, t, Err(e)),
        0 <= i < t.len(),
        t[i] matches Event::Alloc { len: _, reply: Ok(b) } && b == block,
    ensures
        if collects(before, s) {
            new.frees().contains((s.file, block))
        } else {
            exists|j: int|
                i < j < t.len() && (#[trigger] t[j] matches Event::Dealloc { range, reply: _ }
                    && range == block)
        },
{
    let held = collects(before, s);
    let out = choose|out: Seq<BStackRange>| #[trigger]
        gave_up(sizes, t, out, e, held) && new == (if held {
            with_more(before, backwards(s.file, out))
        } else {
            before
        });
    let n = out.len() as int;
    if i > n {
        assert(t[i] is Dealloc);
    }
    assert(t[i] == (Event::Alloc { len: sizes[i], reply: Ok(out[i]) }));
    if held {
        let k = before.frees().len() + (n - 1 - i);
        assert(new.frees()[k] == (s.file, out[i]));
    } else {
        let j = 2 * n - i;
        assert(t[j] matches Event::Dealloc { range, reply: _ } && range == out[i]);
    }
}

/// The error of a free of several blocks names exactly those whose free failed.
pub proof fn law_unfreed_blocks_are_those_that_failed(
    ranges: Seq<BStackRange>,
    t: Seq<Event>,
    x: FreeManyError,
    block: BStackRange,
)
    requires
        free_many_talk(ranges, t, Err(x)),
    ensures
        x.unfreed@.contains(block) <==> exists|i: int|
            0 <= i < ranges.len() && ranges[i] == block && (#[trigger] t[i])->Dealloc_reply is Err,
{
    lemma_failed_frees(ranges, t, block);
}

proof fn lemma_failed_frees(ranges: Seq<BStackRange>, t: Seq<Event>, block: BStackRange)
    requires
        ranges.len() <= t.len(),
    ensures
        failed_frees(ranges, t).contains(block) <==> exists|i: int|
            0 <= i < ranges.len() && ranges[i] == block && (#[trigger] t[i])->Dealloc_reply is Err,
    decreases ranges.len(),
{
    if ranges.len() > 0 {
        let init = ranges.drop_last();
        let n = ranges.len() - 1;
        lemma_failed_frees(init, t, block);
        let before = failed_frees(init, t);
        let all = failed_frees(ranges, t);
        if before.contains(block) {
            let k = before.index_of(block);
            assert(all[k] == block);
        }
        if t[n]->Dealloc_reply is Err {
            assert(all == before.push(ranges[n]));
            if ranges[n] == block {
                assert(all[before.len() as int] == block);
            }
            if all.contains(block) && !before.contains(block) {
                let k = all.index_of(block);
                assert(k == before.len());
                assert(t[n]->Dealloc_reply is Err);
            }
        }
        assert forall|i: int|
            0 <= i < ranges.len() && ranges[i] == block && (
            #[trigger] t[i])->Dealloc_reply is Err implies all.contains(block) by {
            if i < n {
                assert(init[i] == block);
            }
        }
        if all.contains(block) && before.contains(block) {
            let i = choose|i: int|
                0 <= i < init.len() && init[i] == block && (#[trigger] t[i])->Dealloc_reply is Err;
            assert(ranges[i] == block && t[i]->Dealloc_reply is Err);
        }
    }
}

} // verus!
