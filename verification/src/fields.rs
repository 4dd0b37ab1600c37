//! What becomes of the fields of a block when it is released or taken apart.
use vstd::prelude::*;

use crate::allocator::{
    bytes_view, extends, lemma_extends, lemma_since, since, BStackRaiiAllocator, Event, Settings,
};
use crate::bytes::{get_u64_at, le_value};
use crate::error::Error;
use crate::foreign::{
    foreign_drop_owned, foreign_drop_strong, foreign_drop_weak, parts_talk, strong_drop_talk,
    strong_parts,
};
use crate::handle::{ctrl_talk, read_ctrl_ref, release_weak_talk, WeakRef};
use crate::range::BStackRange;
use crate::slot::{target, target_of, Strong};
use crate::strongs::found_view;
use crate::tagged::{
    decode, decode_talk, body_at, is_block, taken_view, Data, DataView, EnumLayout,
};
use crate::teardown::{dealloc_range, dealloc_talk, kept, owned_talk, Teardown, TeardownView};
use crate::traits::{BStackBlock, BStackShared, BStackWeakable};

verus! {

/// Release the block that a field holding `off` owns, and all that the block owns. A field that
/// can be empty and is owns nothing.
pub fn drop_owned_field<T: BStackBlock, A: BStackRaiiAllocator>(
    ctx: &mut Teardown,
    a: &mut A,
    off: u64,
    nullable: bool,
) -> (r: Result<(), Error>)
    ensures
        final(a).spec_settings() == old(a).spec_settings(),
        extends(old(a).trace(), final(a).trace()),
        kept(old(ctx)@, final(ctx)@),
        match target_of(off, T::spec_on_disk_size(), nullable) {
            None => r is Ok && final(a).trace() == old(a).trace() && final(ctx)@ == old(ctx)@,
            Some(range) => owned_talk::<T>(
                range,
                old(ctx)@,
                final(ctx)@,
                old(a).spec_settings(),
                since(old(a).trace(), final(a).trace()),
                r,
            ),
        },
{
    let ghost was = ctx@;
    assert(was.sink matches Some(k) ==> k.1.take(k.1.len() as int) =~= k.1);
    match target(off, T::on_disk_size(), nullable) {
        None => {
            proof {
                lemma_since(a.trace(), Seq::empty());
                assert(a.trace() + Seq::empty() =~= a.trace());
            }
            Ok(())
        },
        Some(_) => foreign_drop_owned::<T, A>(ctx, a, off),
    }
}

/// Release the strong reference in a field that holds `off`.
pub fn drop_strong_field<T: BStackShared, A: BStackRaiiAllocator>(
    ctx: &mut Teardown,
    a: &mut A,
    off: u64,
    nullable: bool,
) -> (r: Result<(), Error>)
    ensures
        final(a).spec_settings() == old(a).spec_settings(),
        extends(old(a).trace(), final(a).trace()),
        kept(old(ctx)@, final(ctx)@),
        match target_of(off, T::spec_on_disk_size(), nullable) {
            None => r is Ok && final(a).trace() == old(a).trace() && final(ctx)@ == old(ctx)@,
            Some(range) => strong_drop_talk::<T>(
                range,
                old(ctx)@,
                final(ctx)@,
                old(a).spec_settings(),
                since(old(a).trace(), final(a).trace()),
                r,
            ),
        },
{
    let ghost was = ctx@;
    assert(was.sink matches Some(k) ==> k.1.take(k.1.len() as int) =~= k.1);
    match target(off, T::on_disk_size(), nullable) {
        None => {
            proof {
                lemma_since(a.trace(), Seq::empty());
                assert(a.trace() + Seq::empty() =~= a.trace());
            }
            Ok(())
        },
        Some(_) => foreign_drop_strong::<T, A>(ctx, a, off),
    }
}

/// Release the weak reference in a field that holds `off`; `0` is none.
pub fn drop_weak_field<T: BStackWeakable, A: BStackRaiiAllocator>(
    ctx: &mut Teardown,
    a: &mut A,
    off: u64,
) -> (r: Result<(), Error>)
    ensures
        final(a).spec_settings() == old(a).spec_settings(),
        extends(old(a).trace(), final(a).trace()),
        kept(old(ctx)@, final(ctx)@),
        match target_of(off, T::spec_control_size(), true) {
            None => r is Ok && final(a).trace() == old(a).trace() && final(ctx)@ == old(ctx)@,
            Some(ctrl) => release_weak_talk(
                ctrl,
                old(ctx)@,
                final(ctx)@,
                old(a).spec_settings(),
                since(old(a).trace(), final(a).trace()),
                r,
            ),
        },
{
    let ghost was = ctx@;
    assert(was.sink matches Some(k) ==> k.1.take(k.1.len() as int) =~= k.1);
    if off == 0 {
        proof {
            lemma_since(a.trace(), Seq::empty());
            assert(a.trace() + Seq::empty() =~= a.trace());
        }
        return Ok(());
    }
    foreign_drop_weak::<T, A>(ctx, a, off)
}

/// Whether a field with the descriptor of a vector holds one, where its bytes are at `data_off`.
/// A field that can be empty and is holds none: there is nothing to release or to hand out.
pub fn has_list(data_off: u64, nullable: bool) -> (r: bool)
    ensures
        r == !(nullable && data_off == 0),
{
    !nullable || data_off != 0
}

/// The weak reference that comes out of a field that held `off`; `0` is none.
pub fn move_weak_field<T: BStackWeakable>(off: u64) -> (r: Option<WeakRef<T>>)
    ensures
        match target_of(off, T::spec_control_size(), true) {
            None => r is None,
            Some(ctrl) => r matches Some(w) && w@ == ctrl,
        },
{
    match target(off, T::control_size(), true) {
        None => None,
        Some(ctrl) => Some(WeakRef::new(ctrl)),
    }
}

/// The strong reference that comes out of a field that held `off`, once its control block is
/// found.
pub fn move_strong_field<T: BStackShared, A: BStackRaiiAllocator>(
    a: &mut A,
    off: u64,
    nullable: bool,
) -> (r: Result<Option<Strong>, Error>)
    ensures
        final(a).spec_settings() == old(a).spec_settings(),
        extends(old(a).trace(), final(a).trace()),
        match target_of(off, T::spec_on_disk_size(), nullable) {
            None => r matches Ok(x) && x is None && final(a).trace() == old(a).trace(),
            Some(data) => match r {
                Ok(Some(s)) => s.data == data && parts_talk::<T>(
                    data,
                    since(old(a).trace(), final(a).trace()),
                    Ok(s.ctrl),
                ),
                Ok(None) => false,
                Err(e) => parts_talk::<T>(
                    data,
                    since(old(a).trace(), final(a).trace()),
                    Err(e),
                ),
            },
        },
{
    match target(off, T::on_disk_size(), nullable) {
        None => {
            proof {
                lemma_since(a.trace(), Seq::empty());
                assert(a.trace() + Seq::empty() =~= a.trace());
            }
            Ok(None)
        },
        Some(data) => match strong_parts::<T, A>(a, data) {
            Ok(ctrl) => Ok(Some(Strong { data, ctrl })),
            Err(e) => Err(e),
        },
    }
}

/// The conversation that takes a struct apart: its bytes are read, and then the block itself is
/// freed. What it referred to stays.
pub open spec fn take_talk(
    block: BStackRange,
    before: TeardownView,
    new: TeardownView,
    s: Settings,
    t: Seq<Event>,
    r: Result<Seq<u8>, Error>,
) -> bool {
    &&& t.len() >= 1
    &&& t[0] matches Event::Read { off, len, reply }
    &&& off == block.start && len == block.len
    &&& match reply {
        Err(e) => t.len() == 1 && new == before && r == Err::<Seq<u8>, Error>(e),
        Ok(b) => match r {
            Ok(bytes) => bytes == b && dealloc_talk(before, new, s, block, t.skip(1), Ok(())),
            Err(e) => dealloc_talk(before, new, s, block, t.skip(1), Err(e)),
        },
    }
}

/// Take the block apart: hand out its bytes, and free the block itself, not what it refers to.
pub fn take_block<A: BStackRaiiAllocator>(ctx: &mut Teardown, a: &mut A, block: BStackRange) -> (r:
    Result<Vec<u8>, Error>)
    ensures
        final(a).spec_settings() == old(a).spec_settings(),
        extends(old(a).trace(), final(a).trace()),
        kept(old(ctx)@, final(ctx)@),
        take_talk(
            block,
            old(ctx)@,
            final(ctx)@,
            old(a).spec_settings(),
            since(old(a).trace(), final(a).trace()),
            bytes_view(r),
        ),
{
    let ghost before = a.trace();
    let ghost was = ctx@;
    assert(was.sink matches Some(k) ==> k.1.take(k.1.len() as int) =~= k.1);
    let got = a.get(block.start, block.len);
    let ghost mid = a.trace();
    let ghost t1 = seq![
        Event::Read { off: block.start, len: block.len, reply: bytes_view(got) },
    ];
    proof {
        assert(mid =~= before + t1);
        lemma_since(before, t1);
    }
    let buf = match got {
        Err(e) => {
            return Err(e);
        },
        Ok(b) => b,
    };
    let freed = dealloc_range(ctx, a, block);
    proof {
        lemma_extends(mid, a.trace());
        let t2 = since(mid, a.trace());
        assert(a.trace() =~= before + (t1 + t2));
        lemma_since(before, t1 + t2);
        assert((t1 + t2).skip(1) =~= t2);
    }
    match freed {
        Ok(u) => {
            assert(u == ());
            assert(freed == Ok::<(), Error>(u));
            Ok(buf)
        },
        Err(e) => Err(e),
    }
}

/// A strong reference in a block: where it lies in the block, the size of the data block that it
/// leads to, that of the control block if there is one, and whether it can be absent.
#[derive(Clone, Copy, Debug, PartialEq, Eq, Structural)]
pub struct StrongField {
    pub at: usize,
    pub size: u64,
    pub control: Option<u64>,
    pub nullable: bool,
}

/// The data block that a strong reference in a block with these bytes leads to.
pub open spec fn strong_data(f: StrongField, bytes: Seq<u8>) -> Option<BStackRange> {
    target_of(le_value(bytes.subrange(f.at as int, f.at + 8)) as u64, f.size, f.nullable)
}

/// The conversation that finds the control block of one strong reference; nothing is asked where
/// the reference is absent, or its type has no control block.
pub open spec fn find_talk(
    f: StrongField,
    bytes: Seq<u8>,
    t: Seq<Event>,
    r: Result<Option<Strong>, Error>,
) -> bool {
    match strong_data(f, bytes) {
        None => t.len() == 0 && r == Ok::<Option<Strong>, Error>(None),
        Some(data) => match f.control {
            None => t.len() == 0 && r == Ok::<Option<Strong>, Error>(
                Some(Strong { data, ctrl: None }),
            ),
            Some(size) => match r {
                Ok(found) => {
                    &&& found matches Some(s)
                    &&& s.data == data
                    &&& s.ctrl matches Some(ctrl)
                    &&& ctrl_talk(data, size, t, Ok(ctrl))
                },
                Err(e) => ctrl_talk(data, size, t, Err(e)),
            },
        },
    }
}

/// The conversation that finds the control blocks of strong references, one after another; the
/// first that cannot be read ends it.
pub open spec fn find_all_talk(
    fields: Seq<StrongField>,
    bytes: Seq<u8>,
    t: Seq<Event>,
    r: Result<Seq<Option<Strong>>, Error>,
) -> bool
    decreases fields.len(),
{
    if fields.len() == 0 {
        t.len() == 0 && r == Ok::<Seq<Option<Strong>>, Error>(Seq::empty())
    } else {
        exists|k: int, so_far: Result<Seq<Option<Strong>>, Error>|
            {
                &&& #[trigger] find_last_talk(fields, bytes, t, r, k, so_far)
                &&& find_all_talk(fields.drop_last(), bytes, t.take(k), so_far)
            }
    }
}

/// What comes after the first `k` events of [`find_all_talk`], which is about the last strong
/// reference; `so_far` is the outcome before.
pub open spec fn find_last_talk(
    fields: Seq<StrongField>,
    bytes: Seq<u8>,
    t: Seq<Event>,
    r: Result<Seq<Option<Strong>>, Error>,
    k: int,
    so_far: Result<Seq<Option<Strong>>, Error>,
) -> bool {
    &&& fields.len() > 0
    &&& 0 <= k <= t.len()
    &&& match so_far {
        Err(e) => k == t.len() && r == Err::<Seq<Option<Strong>>, Error>(e),
        Ok(v) => match r {
            Ok(w) => w.len() == v.len() + 1 && w.drop_last() == v && find_talk(
                fields.last(),
                bytes,
                t.skip(k),
                Ok(w.last()),
            ),
            Err(e) => find_talk(fields.last(), bytes, t.skip(k), Err(e)),
        },
    }
}

proof fn lemma_lookup_error_ends_it(
    fields: Seq<StrongField>,
    n: int,
    bytes: Seq<u8>,
    t: Seq<Event>,
    e: Error,
)
    requires
        0 <= n <= fields.len(),
        find_all_talk(fields.take(n), bytes, t, Err(e)),
    ensures
        find_all_talk(fields, bytes, t, Err(e)),
    decreases fields.len() - n,
{
    if n == fields.len() {
        assert(fields.take(n) =~= fields);
    } else {
        let more = fields.take(n + 1);
        assert(more.drop_last() =~= fields.take(n));
        assert(t.take(t.len() as int) =~= t);
        assert(find_last_talk(more, bytes, t, Err(e), t.len() as int, Err(e)));
        lemma_lookup_error_ends_it(fields, n + 1, bytes, t, e);
    }
}

fn find_one<A: BStackRaiiAllocator>(a: &mut A, f: &StrongField, bytes: &Vec<u8>) -> (r: Result<
    Option<Strong>,
    Error,
>)
    requires
        f.at + 8 <= bytes@.len(),
    ensures
        final(a).spec_settings() == old(a).spec_settings(),
        extends(old(a).trace(), final(a).trace()),
        find_talk(*f, bytes@, since(old(a).trace(), final(a).trace()), r),
{
    proof {
        lemma_since(a.trace(), Seq::empty());
        assert(a.trace() + Seq::empty() =~= a.trace());
    }
    let off: u64 = get_u64_at(bytes.as_slice(), f.at);
    match target(off, f.size, f.nullable) {
        None => Ok(None),
        Some(data) => match f.control {
            None => Ok(Some(Strong { data, ctrl: None })),
            Some(size) => match read_ctrl_ref(a, data, size) {
                Ok(ctrl) => Ok(Some(Strong { data, ctrl: Some(ctrl) })),
                Err(e) => Err(e),
            },
        },
    }
}

fn find_all<A: BStackRaiiAllocator>(a: &mut A, fields: &Vec<StrongField>, bytes: &Vec<u8>) -> (r:
    Result<Vec<Option<Strong>>, Error>)
    requires
        forall|i: int| 0 <= i < fields@.len() ==> (#[trigger] fields@[i]).at + 8 <= bytes@.len(),
    ensures
        final(a).spec_settings() == old(a).spec_settings(),
        extends(old(a).trace(), final(a).trace()),
        find_all_talk(
            fields@,
            bytes@,
            since(old(a).trace(), final(a).trace()),
            found_view(r),
        ),
{
    let ghost before = a.trace();
    let ghost s = a.spec_settings();
    let mut out: Vec<Option<Strong>> = Vec::new();
    let mut i: usize = 0;
    proof {
        lemma_since(before, Seq::empty());
        assert(before + Seq::empty() =~= before);
        assert(fields@.take(0) =~= Seq::empty());
        assert(out@ =~= Seq::empty());
    }
    while i < fields.len()
        invariant
            i <= fields@.len(),
            forall|i: int|
                0 <= i < fields@.len() ==> (#[trigger] fields@[i]).at + 8 <= bytes@.len(),
            a.spec_settings() == s,
            extends(before, a.trace()),
            find_all_talk(
                fields@.take(i as int),
                bytes@,
                since(before, a.trace()),
                Ok(out@),
            ),
            before == old(a).trace(),
            s == old(a).spec_settings(),
        decreases fields@.len() - i,
    {
        let ghost mid = a.trace();
        let ghost t1 = since(before, mid);
        let ghost k = t1.len() as int;
        let ghost v = out@;
        let ghost more = fields@.take(i + 1);
        let found = find_one(a, &fields[i], bytes);
        let ghost t2 = since(mid, a.trace());
        proof {
            lemma_extends(before, mid);
            lemma_extends(mid, a.trace());
            assert(more.drop_last() =~= fields@.take(i as int));
            assert(more.last() == fields@[i as int]);
            assert(a.trace() =~= before + (t1 + t2));
            lemma_since(before, t1 + t2);
            lemma_extends(before, a.trace());
            assert((t1 + t2).take(k) =~= t1);
            assert((t1 + t2).skip(k) =~= t2);
        }
        match found {
            Err(e) => {
                proof {
                    assert(find_last_talk(more, bytes@, t1 + t2, Err(e), k, Ok(v)));
                    lemma_lookup_error_ends_it(fields@, i + 1, bytes@, t1 + t2, e);
                }
                return Err(e);
            },
            Ok(x) => {
                out.push(x);
                assert(out@.drop_last() =~= v);
                assert(find_last_talk(more, bytes@, t1 + t2, Ok(out@), k, Ok(v)));
            },
        }
        i += 1;
    }
    assert(fields@.take(i as int) =~= fields@);
    Ok(out)
}

/// What comes out of a struct that is taken apart: its bytes, and its strong references.
pub open spec fn fields_view(r: Result<(Vec<u8>, Vec<Option<Strong>>), Error>) -> Result<
    (Seq<u8>, Seq<Option<Strong>>),
    Error,
> {
    match r {
        Ok(x) => Ok((x.0@, x.1@)),
        Err(e) => Err(e),
    }
}

/// The conversation that takes a struct with strong references apart: its bytes are read, in the
/// next `k` events the control blocks are found with the outcome `found`, and only then is the
/// block itself freed. What it referred to stays.
pub open spec fn take_fields_talk(
    fields: Seq<StrongField>,
    block: BStackRange,
    before: TeardownView,
    new: TeardownView,
    s: Settings,
    t: Seq<Event>,
    r: Result<(Seq<u8>, Seq<Option<Strong>>), Error>,
    k: int,
    found: Result<Seq<Option<Strong>>, Error>,
) -> bool {
    &&& t.len() >= 1
    &&& t[0] matches Event::Read { off, len, reply }
    &&& off == block.start && len == block.len
    &&& match reply {
        Err(e) => t.len() == 1 && new == before && r == Err::<
            (Seq<u8>, Seq<Option<Strong>>),
            Error,
        >(e),
        Ok(b) => {
            &&& 0 <= k <= t.len() - 1
            &&& find_all_talk(fields, b, t.subrange(1, k + 1), found)
            &&& match found {
                Err(e) => k == t.len() - 1 && new == before && r == Err::<
                    (Seq<u8>, Seq<Option<Strong>>),
                    Error,
                >(e),
                Ok(v) => match r {
                    Ok(x) => x == (b, v) && dealloc_talk(
                        before,
                        new,
                        s,
                        block,
                        t.skip(k + 1),
                        Ok(()),
                    ),
                    Err(e) => dealloc_talk(before, new, s, block, t.skip(k + 1), Err(e)),
                },
            }
        },
    }
}

/// Take the block apart: hand out its bytes and its strong references, and free the block
/// itself, not what it refers to. The control blocks are found first, and where one cannot be
/// the block stays.
pub fn take_fields<A: BStackRaiiAllocator>(
    ctx: &mut Teardown,
    a: &mut A,
    fields: &Vec<StrongField>,
    block: BStackRange,
) -> (r: Result<(Vec<u8>, Vec<Option<Strong>>), Error>)
    requires
        forall|i: int| 0 <= i < fields@.len() ==> (#[trigger] fields@[i]).at + 8 <= block.len,
    ensures
        final(a).spec_settings() == old(a).spec_settings(),
        extends(old(a).trace(), final(a).trace()),
        kept(old(ctx)@, final(ctx)@),
        exists|k: int, found: Result<Seq<Option<Strong>>, Error>| #[trigger]
            take_fields_talk(
                fields@,
                block,
                old(ctx)@,
                final(ctx)@,
                old(a).spec_settings(),
                since(old(a).trace(), final(a).trace()),
                fields_view(r),
                k,
                found,
            ),
{
    let ghost before = a.trace();
    let ghost was = ctx@;
    let ghost s = a.spec_settings();
    assert(was.sink matches Some(k) ==> k.1.take(k.1.len() as int) =~= k.1);
    let got = a.get(block.start, block.len);
    let ghost mid = a.trace();
    let ghost t1 = seq![
        Event::Read { off: block.start, len: block.len, reply: bytes_view(got) },
    ];
    proof {
        assert(mid =~= before + t1);
        lemma_since(before, t1);
    }
    let buf = match got {
        Err(e) => {
            let r: Result<(Vec<u8>, Vec<Option<Strong>>), Error> = Err(e);
            assert(take_fields_talk(
                fields@,
                block,
                was,
                ctx@,
                s,
                t1,
                fields_view(r),
                0,
                Err(e),
            ));
            return r;
        },
        Ok(b) => b,
    };
    let all = find_all(a, fields, &buf);
    let ghost found = found_view(all);
    let ghost mid2 = a.trace();
    let ghost t2 = since(mid, mid2);
    let ghost k = t2.len() as int;
    let ghost t12 = t1 + t2;
    proof {
        lemma_extends(mid, mid2);
        assert(mid2 =~= before + t12);
        lemma_since(before, t12);
        assert(t12.subrange(1, k + 1) =~= t2);
    }
    let strongs = match all {
        Err(e) => {
            let r: Result<(Vec<u8>, Vec<Option<Strong>>), Error> = Err(e);
            assert(take_fields_talk(
                fields@,
                block,
                was,
                ctx@,
                s,
                t12,
                fields_view(r),
                k,
                found,
            ));
            return r;
        },
        Ok(v) => v,
    };
    let freed = dealloc_range(ctx, a, block);
    let ghost t3 = since(mid2, a.trace());
    let ghost t = t12 + t3;
    proof {
        lemma_extends(mid2, a.trace());
        assert(a.trace() =~= before + t);
        lemma_since(before, t);
        assert(t.subrange(1, k + 1) =~= t2);
        assert(t.skip(k + 1) =~= t3);
        assert(t[0] == t1[0]);
    }
    let r: Result<(Vec<u8>, Vec<Option<Strong>>), Error> = match freed {
        Ok(u) => {
            assert(u == ());
            assert(freed == Ok::<(), Error>(u));
            Ok((buf, strongs))
        },
        Err(e) => Err(e),
    };
    assert(take_fields_talk(fields@, block, was, ctx@, s, t, fields_view(r), k, found));
    r
}

/// A block whose control blocks cannot all be found is not freed: it can be taken apart again.
pub proof fn law_unreadable_control_block_keeps_the_block(
    fields: Seq<StrongField>,
    block: BStackRange,
    before: TeardownView,
    new: TeardownView,
    s: Settings,
    t: Seq<Event>,
    r: Result<(Seq<u8>, Seq<Option<Strong>>), Error>,
    k: int,
    e: Error,
)
    requires
        take_fields_talk(fields, block, before, new, s, t, r, k, Err(e)),
    ensures
        r is Err,
        new == before,
        forall|i: int| 0 <= i < t.len() ==> (#[trigger] t[i]) is Read,
{
    match t[0]->Read_reply {
        Err(_) => {},
        Ok(b) => {
            let inner = t.subrange(1, k + 1);
            lemma_lookups_only_read(fields, b, inner, Err(e));
            assert forall|i: int| 0 <= i < t.len() implies (#[trigger] t[i]) is Read by {
                if i > 0 {
                    assert(t[i] == inner[i - 1]);
                }
            }
        },
    }
}

proof fn lemma_lookups_only_read(
    fields: Seq<StrongField>,
    bytes: Seq<u8>,
    t: Seq<Event>,
    r: Result<Seq<Option<Strong>>, Error>,
)
    requires
        find_all_talk(fields, bytes, t, r),
    ensures
        forall|i: int| 0 <= i < t.len() ==> (#[trigger] t[i]) is Read,
    decreases fields.len(),
{
    if fields.len() > 0 {
        let (k, so_far) = choose|k: int, so_far: Result<Seq<Option<Strong>>, Error>|
            {
                &&& #[trigger] find_last_talk(fields, bytes, t, r, k, so_far)
                &&& find_all_talk(fields.drop_last(), bytes, t.take(k), so_far)
            };
        lemma_lookups_only_read(fields.drop_last(), bytes, t.take(k), so_far);
        assert forall|i: int| 0 <= i < t.len() implies (#[trigger] t[i]) is Read by {
            if i < k {
                assert(t.take(k)[i] == t[i]);
            } else {
                assert(t.skip(k)[i - k] == t[i]);
            }
        }
    }
}

/// The conversation that takes an enum apart: its bytes are read, and in the next `k` events
/// taken apart with the outcome `out`; only then is the block itself freed.
pub open spec fn take_value_talk(
    layout: EnumLayout,
    block: BStackRange,
    before: TeardownView,
    new: TeardownView,
    s: Settings,
    t: Seq<Event>,
    r: Result<(int, DataView), Error>,
    k: int,
    out: Result<(int, DataView), Error>,
) -> bool {
    &&& t.len() >= 1
    &&& t[0] matches Event::Read { off, len, reply }
    &&& off == block.start && len == block.len
    &&& match reply {
        Err(e) => t.len() == 1 && new == before && r == Err::<(int, DataView), Error>(e),
        Ok(b) => {
            &&& 0 <= k <= t.len() - 1
            &&& decode_talk(layout, b.skip(body_at(layout.mode)), t.subrange(1, k + 1), out)
            &&& match out {
                Err(e) => k == t.len() - 1 && new == before && r == Err::<(int, DataView), Error>(
                    e,
                ),
                Ok(v) => match r {
                    Ok(w) => w == v && dealloc_talk(before, new, s, block, t.skip(k + 1), Ok(())),
                    Err(e) => dealloc_talk(before, new, s, block, t.skip(k + 1), Err(e)),
                },
            }
        },
    }
}

/// Take the enum apart: hand out its value, and free the block itself. Where the value cannot be
/// handed out the block stays.
pub fn take_value<A: BStackRaiiAllocator>(
    ctx: &mut Teardown,
    a: &mut A,
    layout: &EnumLayout,
    block: BStackRange,
) -> (r: Result<(usize, Data), Error>)
    requires
        layout.wf(),
        is_block(*layout, block),
    ensures
        final(a).spec_settings() == old(a).spec_settings(),
        extends(old(a).trace(), final(a).trace()),
        kept(old(ctx)@, final(ctx)@),
        exists|k: int, out: Result<(int, DataView), Error>| #[trigger]
            take_value_talk(
                *layout,
                block,
                old(ctx)@,
                final(ctx)@,
                old(a).spec_settings(),
                since(old(a).trace(), final(a).trace()),
                taken_view(r),
                k,
                out,
            ),
{
    let ghost before = a.trace();
    let ghost was = ctx@;
    let ghost s = a.spec_settings();
    assert(was.sink matches Some(k) ==> k.1.take(k.1.len() as int) =~= k.1);
    let got = a.get(block.start, block.len);
    let ghost mid = a.trace();
    let ghost t1 = seq![
        Event::Read { off: block.start, len: block.len, reply: bytes_view(got) },
    ];
    proof {
        assert(mid =~= before + t1);
        lemma_since(before, t1);
    }
    let buf = match got {
        Err(e) => {
            let r: Result<(usize, Data), Error> = Err(e);
            assert(take_value_talk(
                *layout,
                block,
                was,
                ctx@,
                s,
                t1,
                taken_view(r),
                0,
                Err(e),
            ));
            return r;
        },
        Ok(b) => b,
    };
    let at: usize = match layout.mode {
        crate::derive::kind::Mode::Plain => 16,
        _ => 24,
    };
    let body = vstd::slice::slice_subrange(buf.as_slice(), at, buf.len());
    assert(body@ =~= buf@.skip(body_at(layout.mode)));
    let taken = decode(a, layout, body);
    let ghost out = taken_view(taken);
    let ghost mid2 = a.trace();
    let ghost t2 = since(mid, mid2);
    let ghost k = t2.len() as int;
    let ghost t12 = t1 + t2;
    proof {
        lemma_extends(mid, mid2);
        assert(mid2 =~= before + t12);
        lemma_since(before, t12);
        assert(t12.subrange(1, k + 1) =~= t2);
    }
    let v = match taken {
        Err(e) => {
            let r: Result<(usize, Data), Error> = Err(e);
            assert(take_value_talk(
                *layout,
                block,
                was,
                ctx@,
                s,
                t12,
                taken_view(r),
                k,
                out,
            ));
            return r;
        },
        Ok(v) => v,
    };
    let freed = dealloc_range(ctx, a, block);
    let ghost t3 = since(mid2, a.trace());
    let ghost t = t12 + t3;
    proof {
        lemma_extends(mid2, a.trace());
        assert(a.trace() =~= before + t);
        lemma_since(before, t);
        assert(t.subrange(1, k + 1) =~= t2);
        assert(t.skip(k + 1) =~= t3);
        assert(t[0] == t1[0]);
    }
    let r: Result<(usize, Data), Error> = match freed {
        Ok(u) => {
            assert(u == ());
            assert(freed == Ok::<(), Error>(u));
            Ok(v)
        },
        Err(e) => Err(e),
    };
    assert(take_value_talk(*layout, block, was, ctx@, s, t, taken_view(r), k, out));
    r
}

/// A block that is taken apart is freed alone: nothing else is given back or written.
pub proof fn law_taking_apart_frees_only_the_shell(
    block: BStackRange,
    before: TeardownView,
    new: TeardownView,
    s: Settings,
    t: Seq<Event>,
    r: Result<Seq<u8>, Error>,
)
    requires
        take_talk(block, before, new, s, t, r),
    ensures
        forall|i: int|
            0 <= i < t.len() ==> match #[trigger] t[i] {
                Event::Read { off, len, reply } => true,
                Event::Dealloc { range, reply } => range == block,
                _ => false,
            },
        new.frees().len() > before.frees().len() ==> new.frees() == before.frees().push(
            (s.file, block),
        ),
{
    if t.len() > 1 {
        assert(t.skip(1)[0] == t[1]);
    }
}

} // verus!
