//! Arrays of strong references, replaced as a whole.
use vstd::prelude::*;

use crate::allocator::{
    bytes_view, extends, lemma_extends, lemma_since, since, BStackRaiiAllocator, Event,
};
use crate::error::Error;
use crate::foreign::{parts_talk, strong_parts};
use crate::handback::ReplaceError;
use crate::range::BStackRange;
use crate::slot::{
    data_of, nothing_written, slots_bytes, slots_image, slots_read, targets_of, ArrayField, Strong,
};
use crate::traits::BStackShared;

verus! {

/// The data blocks of strong references.
pub open spec fn all_data(v: Seq<Option<Strong>>) -> Seq<Option<BStackRange>> {
    v.map_values(|s: Option<Strong>| data_of(s))
}

/// The conversation that finds the control blocks of data blocks, one after another; the first
/// that cannot be read ends it.
pub open spec fn each_talk<T: BStackShared>(
    blocks: Seq<Option<BStackRange>>,
    t: Seq<Event>,
    r: Result<Seq<Option<Strong>>, Error>,
) -> bool
    decreases blocks.len(),
{
    if blocks.len() == 0 {
        t.len() == 0 && r == Ok::<Seq<Option<Strong>>, Error>(Seq::empty())
    } else {
        exists|k: int, so_far: Result<Seq<Option<Strong>>, Error>|
            {
                &&& #[trigger] last_talk::<T>(blocks, t, r, k, so_far)
                &&& each_talk::<T>(blocks.drop_last(), t.take(k), so_far)
            }
    }
}

/// What comes after the first `k` events of [`each_talk`], which is about the last data block;
/// `so_far` is the outcome before.
pub open spec fn last_talk<T: BStackShared>(
    blocks: Seq<Option<BStackRange>>,
    t: Seq<Event>,
    r: Result<Seq<Option<Strong>>, Error>,
    k: int,
    so_far: Result<Seq<Option<Strong>>, Error>,
) -> bool {
    &&& blocks.len() > 0
    &&& 0 <= k <= t.len()
    &&& match so_far {
        Err(e) => k == t.len() && r == Err::<Seq<Option<Strong>>, Error>(e),
        Ok(v) => match blocks.last() {
            None => k == t.len() && r == Ok::<Seq<Option<Strong>>, Error>(v.push(None)),
            Some(data) => match r {
                Ok(w) => w.len() == v.len() + 1 && w.drop_last() == v && (w.last() matches Some(
                    s,
                ) && s.data == data && parts_talk::<T>(data, t.skip(k), Ok(s.ctrl))),
                Err(e) => parts_talk::<T>(data, t.skip(k), Err(e)),
            },
        },
    }
}

proof fn lemma_error_ends_it<T: BStackShared>(
    blocks: Seq<Option<BStackRange>>,
    n: int,
    t: Seq<Event>,
    e: Error,
)
    requires
        0 <= n <= blocks.len(),
        each_talk::<T>(blocks.take(n), t, Err(e)),
    ensures
        each_talk::<T>(blocks, t, Err(e)),
    decreases blocks.len() - n,
{
    if n == blocks.len() {
        assert(blocks.take(n) =~= blocks);
    } else {
        let more = blocks.take(n + 1);
        assert(more.drop_last() =~= blocks.take(n));
        assert(t.take(t.len() as int) =~= t);
        assert(last_talk::<T>(more, t, Err(e), t.len() as int, Err(e)));
        lemma_error_ends_it::<T>(blocks, n + 1, t, e);
    }
}

/// The values of the strong references that were found.
pub open spec fn found_view(r: Result<Vec<Option<Strong>>, Error>) -> Result<
    Seq<Option<Strong>>,
    Error,
> {
    match r {
        Ok(v) => Ok(v@),
        Err(e) => Err(e),
    }
}

fn find_each<T: BStackShared, A: BStackRaiiAllocator>(
    a: &mut A,
    blocks: &Vec<Option<BStackRange>>,
) -> (r: Result<Vec<Option<Strong>>, Error>)
    ensures
        final(a).spec_settings() == old(a).spec_settings(),
        extends(old(a).trace(), final(a).trace()),
        each_talk::<T>(
            blocks@,
            since(old(a).trace(), final(a).trace()),
            found_view(r),
        ),
{
    let ghost before = a.trace();
    let ghost s = a.spec_settings();
    let mut out: Vec<Option<Strong>> = Vec::new();
    let mut i: usize = 0;
    proof {
        lemma_since(before, Seq::empty());
        assert(before + Seq::empty() =~= before);
        assert(blocks@.take(0) =~= Seq::empty());
        assert(out@ =~= Seq::empty());
    }
    while i < blocks.len()
        invariant
            i <= blocks@.len(),
            a.spec_settings() == s,
            extends(before, a.trace()),
            each_talk::<T>(
                blocks@.take(i as int),
                since(before, a.trace()),
                Ok(out@),
            ),
            before == old(a).trace(),
            s == old(a).spec_settings(),
        decreases blocks@.len() - i,
    {
        let ghost mid = a.trace();
        let ghost t1 = since(before, mid);
        let ghost k = t1.len() as int;
        let ghost v = out@;
        let ghost more = blocks@.take(i + 1);
        proof {
            lemma_extends(before, mid);
            assert(more.drop_last() =~= blocks@.take(i as int));
            assert(more.last() == blocks@[i as int]);
            assert(t1.take(k) =~= t1);
        }
        match blocks[i] {
            None => {
                out.push(None);
                assert(last_talk::<T>(more, t1, Ok(out@), k, Ok(v)));
            },
            Some(data) => {
                let found = strong_parts::<T, A>(a, data);
                let ghost t2 = since(mid, a.trace());
                proof {
                    lemma_extends(mid, a.trace());
                    assert(a.trace() =~= before + (t1 + t2));
                    lemma_since(before, t1 + t2);
                    lemma_extends(before, a.trace());
                    assert((t1 + t2).take(k) =~= t1);
                    assert((t1 + t2).skip(k) =~= t2);
                }
                match found {
                    Err(e) => {
                        proof {
                            assert(last_talk::<T>(more, t1 + t2, Err(e), k, Ok(v)));
                            lemma_error_ends_it::<T>(blocks@, i + 1, t1 + t2, e);
                        }
                        return Err(e);
                    },
                    Ok(ctrl) => {
                        out.push(Some(Strong { data, ctrl }));
                        assert(out@.drop_last() =~= v);
                        assert(last_talk::<T>(more, t1 + t2, Ok(out@), k, Ok(v)));
                    },
                }
            },
        }
        i += 1;
    }
    assert(blocks@.take(i as int) =~= blocks@);
    Ok(out)
}

/// The values of a replacement of a whole array of strong references.
pub open spec fn strongs_view(
    r: Result<Vec<Option<Strong>>, ReplaceError<Vec<Option<Strong>>>>,
) -> Result<Seq<Option<Strong>>, (Error, Option<Seq<Option<Strong>>>)> {
    match r {
        Ok(v) => Ok(v@),
        Err(e) => Err(
            (
                e.source,
                match e.value {
                    Some(v) => Some(v@),
                    None => None,
                },
            ),
        ),
    }
}

/// The conversation that replaces a whole array of strong references: read the block, look up
/// all the old control blocks, up to the event number `k` and with the outcome `found`, and only
/// then write the array in one step and hand the old one out.
pub open spec fn strongs_talk<T: BStackShared>(
    field: ArrayField,
    value: Seq<Option<Strong>>,
    nullable: bool,
    t: Seq<Event>,
    r: Result<Seq<Option<Strong>>, (Error, Option<Seq<Option<Strong>>>)>,
    k: int,
    found: Result<Seq<Option<Strong>>, Error>,
) -> bool {
    &&& t.len() >= 1
    &&& t[0] matches Event::Read { off: o0, len: l0, reply: r0 }
    &&& o0 == field.block.start && l0 == field.block.len
    &&& match r0 {
        Err(e) => t.len() == 1 && r == Err::<
            Seq<Option<Strong>>,
            (Error, Option<Seq<Option<Strong>>>),
        >((e, Some(value))),
        Ok(b) => {
            &&& 1 <= k <= t.len()
            &&& each_talk::<T>(
                targets_of(
                    b.subrange(field.at as int, field.at + 8 * field.total),
                    field.total as nat,
                    T::spec_on_disk_size(),
                    nullable,
                ),
                t.subrange(1, k),
                found,
            )
            &&& match found {
                Err(e) => k == t.len() && r == Err::<
                    Seq<Option<Strong>>,
                    (Error, Option<Seq<Option<Strong>>>),
                >((e, Some(value))),
                Ok(was) => {
                    &&& t.len() == k + 1
                    &&& t[k] matches Event::Write { off, bytes, reply }
                    &&& off == field.spec_off(0)
                    &&& bytes == slots_image(all_data(value))
                    &&& r == match reply {
                        Err(e) => Err::<
                            Seq<Option<Strong>>,
                            (Error, Option<Seq<Option<Strong>>>),
                        >((e, Some(value))),
                        Ok(_) => Ok(was),
                    }
                },
            }
        },
    }
}

fn data_blocks(value: &Vec<Option<Strong>>) -> (r: Vec<Option<BStackRange>>)
    ensures
        r@ == all_data(value@),
{
    let mut out: Vec<Option<BStackRange>> = Vec::new();
    let mut i: usize = 0;
    while i < value.len()
        invariant
            i <= value@.len(),
            out@ =~= all_data(value@).take(i as int),
        decreases value@.len() - i,
    {
        match &value[i] {
            Some(s) => out.push(Some(s.data)),
            None => out.push(None),
        }
        i += 1;
    }
    assert(all_data(value@).take(i as int) =~= all_data(value@));
    out
}

/// Replace the whole array of strong references, and hand the old ones out. Where that fails the
/// new array is given back, and the field is as it was.
pub fn replace_strong_all<T: BStackShared, A: BStackRaiiAllocator>(
    a: &mut A,
    field: ArrayField,
    value: Vec<Option<Strong>>,
    nullable: bool,
) -> (r: Result<Vec<Option<Strong>>, ReplaceError<Vec<Option<Strong>>>>)
    requires
        field.wf(),
        value@.len() == field.total,
    ensures
        final(a).spec_settings() == old(a).spec_settings(),
        extends(old(a).trace(), final(a).trace()),
        exists|k: int, found: Result<Seq<Option<Strong>>, Error>| #[trigger]
            strongs_talk::<T>(
                field,
                value@,
                nullable,
                since(old(a).trace(), final(a).trace()),
                strongs_view(r),
                k,
                found,
            ),
{
    let ghost before = a.trace();
    let got = a.get(field.block.start, field.block.len);
    let ghost t0: Seq<Event> = seq![
        Event::Read { off: field.block.start, len: field.block.len, reply: bytes_view(got) },
    ];
    let ghost mid = a.trace();
    proof {
        assert(mid =~= before + t0);
        lemma_since(before, t0);
    }
    let buf = match got {
        Err(e) => {
            let r = Err(ReplaceError::recovered(e, value));
            assert(strongs_talk::<T>(field, value@, nullable, t0, strongs_view(r), 1, Err(e)));
            return r;
        },
        Ok(b) => b,
    };
    let blocks = slots_read(
        buf.as_slice(),
        field.at as usize,
        field.total as usize,
        T::on_disk_size(),
        nullable,
    );
    let looked = find_each::<T, A>(a, &blocks);
    let ghost found = found_view(looked);
    let ghost t1 = since(mid, a.trace());
    let ghost k = 1 + t1.len() as int;
    proof {
        lemma_extends(mid, a.trace());
        assert(a.trace() =~= before + (t0 + t1));
        lemma_since(before, t0 + t1);
        assert((t0 + t1).subrange(1, k) =~= t1);
    }
    let was = match looked {
        Err(e) => {
            let r = Err(ReplaceError::recovered(e, value));
            assert(strongs_talk::<T>(field, value@, nullable, t0 + t1, strongs_view(r), k, found));
            return r;
        },
        Ok(v) => v,
    };
    let image = slots_bytes(&data_blocks(&value));
    let ghost bytes = image@;
    let wrote = a.set(field.block.start + field.at, image);
    let r = match wrote {
        Err(e) => Err(ReplaceError::recovered(e, value)),
        Ok(_) => Ok(was),
    };
    proof {
        let ev = Event::Write { off: (field.block.start + field.at) as u64, bytes, reply: wrote };
        let t = (t0 + t1).push(ev);
        assert(a.trace() =~= before + t);
        lemma_since(before, t);
        assert(t.subrange(1, k) =~= t1);
        assert(strongs_talk::<T>(field, value@, nullable, t, strongs_view(r), k, found));
    }
    r
}

proof fn lemma_looking_up_only_reads<T: BStackShared>(
    blocks: Seq<Option<BStackRange>>,
    t: Seq<Event>,
    r: Result<Seq<Option<Strong>>, Error>,
    i: int,
)
    requires
        each_talk::<T>(blocks, t, r),
        0 <= i < t.len(),
    ensures
        t[i] is Read,
    decreases blocks.len(),
{
    if blocks.len() > 0 {
        let (k, so_far) = choose|k: int, so_far: Result<Seq<Option<Strong>>, Error>|
            {
                &&& #[trigger] last_talk::<T>(blocks, t, r, k, so_far)
                &&& each_talk::<T>(blocks.drop_last(), t.take(k), so_far)
            };
        if i < k {
            lemma_looking_up_only_reads::<T>(blocks.drop_last(), t.take(k), so_far, i);
        } else {
            assert(t.skip(k)[i - k] == t[i]);
        }
    }
}

/// A replacement of a whole array of strong references that fails gives the new array back and
/// leaves the field as it was.
pub proof fn law_replace_strong_all_never_loses_the_new_array<T: BStackShared>(
    field: ArrayField,
    value: Seq<Option<Strong>>,
    nullable: bool,
    t: Seq<Event>,
    e: (Error, Option<Seq<Option<Strong>>>),
    k: int,
    found: Result<Seq<Option<Strong>>, Error>,
)
    requires
        strongs_talk::<T>(field, value, nullable, t, Err(e), k, found),
    ensures
        e.1 == Some(value),
        nothing_written(t),
{
    if t[0]->Read_reply is Ok {
        let b = t[0]->Read_reply->Ok_0;
        let blocks = targets_of(
            b.subrange(field.at as int, field.at + 8 * field.total),
            field.total as nat,
            T::spec_on_disk_size(),
            nullable,
        );
        assert forall|i: int| 1 <= i < k implies (#[trigger] t[i]) is Read by {
            lemma_looking_up_only_reads::<T>(blocks, t.subrange(1, k), found, i - 1);
            assert(t.subrange(1, k)[i - 1] == t[i]);
        }
    }
}

} // verus!
