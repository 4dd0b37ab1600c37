//! Blocks that lie in another: they are copied to their place, and the places where they were
//! are given back.
use vstd::prelude::*;

use crate::allocator::{
    extends, lemma_extends, lemma_since, since, BStackRaiiAllocator, Event, Settings,
};
use crate::error::Error;
use crate::range::BStackRange;
use crate::teardown::{dealloc_range, dealloc_talk, kept, Teardown, TeardownView};

verus! {

/// A block that is to lie in another: where it is, how much of it is copied, and to what offset
/// in the room for such blocks.
#[derive(Clone, Copy, Debug, PartialEq, Eq, Structural)]
pub struct Move {
    pub child: BStackRange,
    pub size: u64,
    pub at: u64,
}

/// The conversation that moves one block to its place.
pub open spec fn move_talk(
    m: Move,
    dest: u64,
    before: TeardownView,
    new: TeardownView,
    s: Settings,
    t: Seq<Event>,
    r: Result<(), Error>,
) -> bool {
    &&& t.len() >= 1
    &&& t[0] matches Event::Copy { from, to, len, reply }
    &&& from == m.child.start && to == dest + m.at && len == m.size
    &&& match reply {
        Err(e) => t.len() == 1 && new == before && (r matches Err(x) && x == e),
        Ok(_) => dealloc_talk(before, new, s, m.child, t.skip(1), r),
    }
}

/// How far the blocks before the last have come.
pub struct SoFar {
    /// How many events that took.
    pub k: int,
    pub ctx: TeardownView,
    pub failed: Option<Error>,
}

/// The conversation that moves blocks to their places, one after another; the first failure ends
/// it.
pub open spec fn embed_talk(
    moves: Seq<Move>,
    dest: u64,
    before: TeardownView,
    new: TeardownView,
    s: Settings,
    t: Seq<Event>,
    failed: Option<Error>,
) -> bool
    decreases moves.len(),
{
    if moves.len() == 0 {
        t.len() == 0 && new == before && failed is None
    } else {
        exists|f: SoFar|
            {
                &&& #[trigger] last_move(moves, dest, f, new, s, t, failed)
                &&& embed_talk(moves.drop_last(), dest, before, f.ctx, s, t.take(f.k), f.failed)
            }
    }
}

/// What comes after the blocks before the last.
pub open spec fn last_move(
    moves: Seq<Move>,
    dest: u64,
    f: SoFar,
    new: TeardownView,
    s: Settings,
    t: Seq<Event>,
    failed: Option<Error>,
) -> bool {
    &&& moves.len() > 0
    &&& 0 <= f.k <= t.len()
    &&& match f.failed {
        Some(e) => f.k == t.len() && new == f.ctx && failed == Some(e),
        None => match failed {
            Some(e) => move_talk(moves.last(), dest, f.ctx, new, s, t.skip(f.k), Err(e)),
            None => move_talk(moves.last(), dest, f.ctx, new, s, t.skip(f.k), Ok(())),
        },
    }
}

proof fn lemma_failure_ends_it(
    moves: Seq<Move>,
    n: int,
    dest: u64,
    before: TeardownView,
    new: TeardownView,
    s: Settings,
    t: Seq<Event>,
    e: Error,
)
    requires
        0 <= n <= moves.len(),
        embed_talk(moves.take(n), dest, before, new, s, t, Some(e)),
    ensures
        embed_talk(moves, dest, before, new, s, t, Some(e)),
    decreases moves.len() - n,
{
    if n == moves.len() {
        assert(moves.take(n) =~= moves);
    } else {
        let more = moves.take(n + 1);
        assert(more.drop_last() =~= moves.take(n));
        assert(t.take(t.len() as int) =~= t);
        let f = SoFar { k: t.len() as int, ctx: new, failed: Some(e) };
        assert(last_move(more, dest, f, new, s, t, Some(e)));
        lemma_failure_ends_it(moves, n + 1, dest, before, new, s, t, e);
    }
}

/// Move one block to its place, and give the place where it was back.
pub fn embed_one<A: BStackRaiiAllocator>(ctx: &mut Teardown, a: &mut A, dest: u64, m: Move) -> (r:
    Result<(), Error>)
    requires
        dest + m.at <= u64::MAX,
    ensures
        final(a).spec_settings() == old(a).spec_settings(),
        extends(old(a).trace(), final(a).trace()),
        kept(old(ctx)@, final(ctx)@),
        move_talk(
            m,
            dest,
            old(ctx)@,
            final(ctx)@,
            old(a).spec_settings(),
            since(old(a).trace(), final(a).trace()),
            r,
        ),
{
    let ghost before = a.trace();
    let ghost was = ctx@;
    assert(was.sink matches Some(k) ==> k.1.take(k.1.len() as int) =~= k.1);
    let copied = a.copy(m.child.start, dest + m.at, m.size);
    let ghost mid = a.trace();
    let ghost t1 = seq![
        Event::Copy {
            from: m.child.start,
            to: (dest + m.at) as u64,
            len: m.size,
            reply: copied,
        },
    ];
    proof {
        assert(mid =~= before + t1);
        lemma_since(before, t1);
    }
    if let Err(e) = copied {
        return Err(e);
    }
    let r = dealloc_range(ctx, a, m.child);
    proof {
        lemma_extends(mid, a.trace());
        let t2 = since(mid, a.trace());
        assert(a.trace() =~= before + (t1 + t2));
        lemma_since(before, t1 + t2);
        assert((t1 + t2).skip(1) =~= t2);
    }
    r
}

/// The failure, if it failed.
pub open spec fn failure_of(r: Result<(), Error>) -> Option<Error> {
    match r {
        Ok(_) => None,
        Err(e) => Some(e),
    }
}

/// Move blocks to their places, one after another, and give the places where they were back.
pub fn embed_children<A: BStackRaiiAllocator>(
    ctx: &mut Teardown,
    a: &mut A,
    dest: u64,
    moves: &Vec<Move>,
) -> (r: Result<(), Error>)
    requires
        forall|i: int| 0 <= i < moves@.len() ==> dest + (#[trigger] moves@[i]).at <= u64::MAX,
    ensures
        final(a).spec_settings() == old(a).spec_settings(),
        extends(old(a).trace(), final(a).trace()),
        kept(old(ctx)@, final(ctx)@),
        embed_talk(
            moves@,
            dest,
            old(ctx)@,
            final(ctx)@,
            old(a).spec_settings(),
            since(old(a).trace(), final(a).trace()),
            failure_of(r),
        ),
{
    let ghost before = a.trace();
    let ghost was = ctx@;
    let ghost s = a.spec_settings();
    let mut i: usize = 0;
    proof {
        lemma_since(before, Seq::empty());
        assert(before + Seq::empty() =~= before);
        assert(moves@.take(0) =~= Seq::empty());
        assert(was.sink matches Some(k) ==> k.1.take(k.1.len() as int) =~= k.1);
    }
    while i < moves.len()
        invariant
            i <= moves@.len(),
            forall|i: int| 0 <= i < moves@.len() ==> dest + (#[trigger] moves@[i]).at <= u64::MAX,
            before == old(a).trace(),
            was == old(ctx)@,
            s == old(a).spec_settings(),
            a.spec_settings() == s,
            extends(before, a.trace()),
            kept(was, ctx@),
            embed_talk(
                moves@.take(i as int),
                dest,
                was,
                ctx@,
                s,
                since(before, a.trace()),
                None,
            ),
        decreases moves@.len() - i,
    {
        let ghost mid = a.trace();
        let ghost mid_ctx = ctx@;
        let ghost t1 = since(before, mid);
        let ghost k = t1.len() as int;
        let ghost more = moves@.take(i + 1);
        let ghost f = SoFar { k, ctx: mid_ctx, failed: None };
        proof {
            lemma_extends(before, mid);
            assert(more.drop_last() =~= moves@.take(i as int));
            assert(more.last() == moves@[i as int]);
        }
        let r = embed_one(ctx, a, dest, moves[i]);
        let ghost t2 = since(mid, a.trace());
        proof {
            lemma_extends(mid, a.trace());
            assert(a.trace() =~= before + (t1 + t2));
            lemma_since(before, t1 + t2);
            lemma_extends(before, a.trace());
            assert((t1 + t2).take(k) =~= t1);
            assert((t1 + t2).skip(k) =~= t2);
            if let (Some(b), Some(m), Some(n)) = (was.sink, mid_ctx.sink, ctx@.sink) {
                assert(n.1.take(b.1.len() as int) =~= n.1.take(m.1.len() as int).take(
                    b.1.len() as int,
                ));
            }
        }
        match r {
            Err(e) => {
                proof {
                    assert(last_move(more, dest, f, ctx@, s, t1 + t2, Some(e)));
                    lemma_failure_ends_it(moves@, i + 1, dest, was, ctx@, s, t1 + t2, e);
                }
                return Err(e);
            },
            Ok(u) => {
                assert(u == ());
                assert(r == Ok::<(), Error>(u));
                assert(last_move(more, dest, f, ctx@, s, t1 + t2, None));
            },
        }
        i += 1;
    }
    assert(moves@.take(i as int) =~= moves@);
    Ok(())
}

} // verus!
