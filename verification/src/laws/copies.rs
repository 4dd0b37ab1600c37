//! Copies: what a copy owns is its own, and what it shares is counted. And what a block is known
//! to be by its header.
use vstd::prelude::*;

use crate::allocator::{lemma_extends, since, BStackRaiiAllocator, Event};
use crate::bytes::le_value;
use crate::cast::{BStackCastAs, BStackCastInto};
use crate::derive::kind::{Kind, Mode};
use crate::duplicate::{
    clone_field, clone_list, clone_owned_ptr, clone_route, clone_strong_ptr, clone_weak_ptr, copied,
    foreign_clone_owned, CloneRoute, HomeClone, ListClone, TryCloneIn,
};
use crate::error::Error;
use crate::foreign::{clone_strong_talk, WidePtr};
use crate::handback::CastError;
use crate::owned::{BStackOwned, BStackOwnedSlice};
use crate::range::BStackRange;
use crate::registry::FileRegistry;
use crate::tagged::{check_clone, clone_step, DataView, EnumLayout, Seen};
use crate::traits::{BStackBlock, BStackShared, BStackWeakable};

use super::counters::{counted_up, lemma_share_counted, lemma_up, share_counted};
use super::routes::{among_open, lemma_open, others_stay, the_file};
use super::slots::with_get;
use super::variants::{number_at, number_width};

verus! {

/// Duplicating a field copies what the field owns, and counts what it shares.
pub proof fn law_a_copied_field_owns_its_own<T: BStackBlock>(kind: Kind, off: u64, r: HomeClone)
    requires
        call_ensures(clone_field::<T>, (kind, off), r),
    ensures
        off == 0 ==> r == HomeClone::Nothing,
        off != 0 && kind == Kind::Owned ==> (r matches HomeClone::Deep(x) && x.start == off && x.len
            == T::spec_on_disk_size()),
        off != 0 && kind == Kind::Strong ==> (r matches HomeClone::Strong(x) && x.start == off
            && x.len == T::spec_on_disk_size()),
        off != 0 && kind == Kind::Weak ==> r == HomeClone::Weak(off),
        kind == Kind::Pod || kind == Kind::Ref || kind == Kind::Embed ==> r == HomeClone::Nothing,
{
}

/// Copying a vector copies the elements that it owns, counts those that it shares, and only of
/// borrowed ones lets the copy refer to the same blocks.
pub proof fn law_a_copied_vector_owns_its_own(kind: Kind, off: u64, r: ListClone)
    requires
        kind != Kind::Embed,
        call_ensures(clone_list, (kind, off), r),
    ensures
        r == ListClone::Keep <==> off == 0,
        off != 0 ==> {
            &&& r == ListClone::Bytes <==> kind == Kind::Pod
            &&& r == ListClone::Deep <==> kind == Kind::Owned
            &&& r == ListClone::Strong <==> kind == Kind::Strong
            &&& r == ListClone::Weak <==> kind == Kind::Weak
            &&& r == ListClone::Alias <==> kind == Kind::Ref
        },
{
}

/// Whether a pointer of this kind has something to copy or to count.
pub open spec fn is_charged(kind: Kind) -> bool {
    kind == Kind::Owned || kind == Kind::Strong || kind == Kind::Weak
}

/// A pointer that owns or shares is copied in the file that it leads to: in the file at hand, or in
/// an open one. It is never merely kept, but where only sizes are counted.
pub proof fn law_a_copy_is_made_in_the_file_of_the_block<H: BStackRaiiAllocator>(
    kind: Kind,
    file: u64,
    off: u64,
    measuring: bool,
    global: &Option<FileRegistry<H>>,
    r: Result<CloneRoute, Error>,
)
    requires
        call_ensures(clone_route::<H>, (kind, file, off, measuring, global), r),
    ensures
        (r matches Ok(x) && x is Keep) <==> !is_charged(kind) || off == 0 || (file != 0
            && measuring),
        (r matches Ok(x) && x is Home) <==> is_charged(kind) && off != 0 && file == 0,
        r matches Ok(CloneRoute::Host(id)) ==> id.0 == file && among_open(*global, id),
        r matches Err(e) ==> file != 0 && !measuring && (if file > u32::MAX {
            e == Error::CloneMalformedFile
        } else {
            !among_open(*global, crate::range::FileId(file as u32)) && e == match kind {
                Kind::Owned => Error::CloneOwnedNotAttached,
                Kind::Strong => Error::CloneStrongNotAttached,
                _ => Error::CloneWeakNotAttached,
            }
        }),
{
    if file <= u32::MAX {
        lemma_open(*global, crate::range::FileId(file as u32));
    }
}

/// Copying the block at an offset is copying that block, and tells where the copy is.
pub proof fn law_an_offset_is_copied_whole<T: TryCloneIn, A: BStackRaiiAllocator>(
    a: &mut A,
    off: u64,
    r: Result<u64, Error>,
)
    requires
        call_ensures(foreign_clone_owned::<T, A>, (a, off), r),
    ensures
        copy_told::<T>(off, final(a).trace().skip(old(a).trace().len() as int), r),
{
    let t = since(old(a).trace(), final(a).trace());
    let range = BStackRange { start: off, len: T::spec_on_disk_size() };
    let o = choose|o: Result<BStackRange, Error>| #[trigger] copied::<T>(range, t, r, o);
    assert(T::clone_talk(range, t, o));
}

/// Whether the block at `off` was copied, and `r` tells where the copy is.
pub open spec fn copy_told<T: TryCloneIn>(off: u64, t: Seq<Event>, r: Result<u64, Error>) -> bool {
    exists|o: Result<BStackRange, Error>|
        {
            &&& #[trigger] T::clone_talk(
                BStackRange { start: off, len: T::spec_on_disk_size() },
                t,
                o,
            )
            &&& match (o, r) {
                (Ok(x), Ok(at)) => at == x.start,
                (Err(e), Err(f)) => e == f,
                _ => false,
            }
        }
}

/// Whether a pointer leads to an open file other than the one it lies in, and is to be followed.
pub open spec fn leads_away<H: BStackRaiiAllocator>(
    p: WidePtr,
    measuring: bool,
    global: Option<FileRegistry<H>>,
) -> bool {
    p.offset != 0 && p.file.0 != 0 && !measuring && among_open(global, p.file)
}

/// Whether a pointer leads to a file that is not open, and would have to be followed.
pub open spec fn leads_nowhere<H: BStackRaiiAllocator>(
    p: WidePtr,
    measuring: bool,
    global: Option<FileRegistry<H>>,
) -> bool {
    p.offset != 0 && p.file.0 != 0 && !measuring && !among_open(global, p.file)
}

/// Whether it went well, and why not.
pub open spec fn well<X>(r: Result<X, Error>) -> Result<(), Error> {
    match r {
        Ok(_) => Ok(()),
        Err(e) => Err(e),
    }
}

/// A copied owner of a block of another file owns a copy of the block, in that file.
pub proof fn law_a_copied_far_owner_owns_a_copy<T: TryCloneIn, H: BStackRaiiAllocator>(
    p: WidePtr,
    measuring: bool,
    global: &mut Option<FileRegistry<H>>,
    r: Result<(WidePtr, HomeClone), Error>,
)
    requires
        call_ensures(clone_owned_ptr::<T, H>, (p, measuring, global), r),
    ensures
        if leads_away(p, measuring, *old(global)) {
            let was = the_file(*old(global), p.file).trace();
            let now = the_file(*final(global), p.file).trace();
            &&& others_stay(*old(global), *final(global), p.file)
            &&& copy_told::<T>(
                p.offset,
                now.skip(was.len() as int),
                match r {
                    Ok(x) => Ok(x.0.offset),
                    Err(e) => Err(e),
                },
            )
            &&& r matches Ok(x) ==> x.0.file == p.file && x.1 == HomeClone::Nothing
        } else {
            &&& *final(global) == *old(global)
            &&& r is Err <==> leads_nowhere(p, measuring, *old(global))
            &&& r matches Err(e) ==> e == Error::CloneOwnedNotAttached
            &&& r matches Ok(x) ==> x.0 == p && x.1 == (if p.offset != 0 && p.file.0 == 0 {
                HomeClone::Deep(BStackRange { start: p.offset, len: T::spec_on_disk_size() })
            } else {
                HomeClone::Nothing
            })
        },
{
    lemma_open(*old(global), p.file);
    if leads_away(p, measuring, *old(global)) {
        let t = crate::foreign::host_said(*old(global), *final(global), p.file);
        let range = BStackRange { start: p.offset, len: T::spec_on_disk_size() };
        let given: Result<u64, Error> = match r {
            Ok(x) => Ok(x.0.offset),
            Err(e) => Err(e),
        };
        let o = choose|o: Result<BStackRange, Error>| #[trigger] copied::<T>(range, t, given, o);
        assert(T::clone_talk(range, t, o));
    }
}

/// A copied strong reference to a block of another file is counted there, and leads to the same
/// block.
pub proof fn law_a_copied_far_share_is_counted<T: BStackShared, H: BStackRaiiAllocator>(
    p: WidePtr,
    measuring: bool,
    global: &mut Option<FileRegistry<H>>,
    r: Result<(WidePtr, HomeClone), Error>,
)
    requires
        p.offset + 24 <= u64::MAX,
        call_ensures(clone_strong_ptr::<T, H>, (p, measuring, global), r),
    ensures
        if leads_away(p, measuring, *old(global)) {
            &&& others_stay(*old(global), *final(global), p.file)
            &&& share_counted::<T>(
                p.offset,
                the_file(*old(global), p.file).trace(),
                the_file(*final(global), p.file).trace(),
                match r {
                    Ok(_) => Ok(()),
                    Err(e) => Err(e),
                },
            )
            &&& r matches Ok(x) ==> x.0 == p && x.1 == HomeClone::Nothing
        } else {
            &&& *final(global) == *old(global)
            &&& r is Err <==> leads_nowhere(p, measuring, *old(global))
            &&& r matches Err(e) ==> e == Error::CloneStrongNotAttached
            &&& r matches Ok(x) ==> x.0 == p && x.1 == (if p.offset != 0 && p.file.0 == 0 {
                HomeClone::Strong(BStackRange { start: p.offset, len: T::spec_on_disk_size() })
            } else {
                HomeClone::Nothing
            })
        },
{
    lemma_open(*old(global), p.file);
    if leads_away(p, measuring, *old(global)) {
        let was = the_file(*old(global), p.file);
        let now = the_file(*final(global), p.file);
        lemma_extends(was.trace(), now.trace());
        let t = since(was.trace(), now.trace());
        let done: Result<(), Error> = match r {
            Ok(_) => Ok(()),
            Err(e) => Err(e),
        };
        let data = BStackRange { start: p.offset, len: T::spec_on_disk_size() };
        let (got, k) = choose|got: Result<Option<BStackRange>, Error>, k: int| #[trigger]
            clone_strong_talk::<T>(data, t, done, got, k);
        lemma_share_counted::<T>(p.offset, was.trace(), t, done, got, k);
    }
}

/// A copied weak reference to a block of another file is counted there, and leads to the same
/// control block.
pub proof fn law_a_copied_far_count_is_counted<T: BStackWeakable, H: BStackRaiiAllocator>(
    p: WidePtr,
    measuring: bool,
    global: &mut Option<FileRegistry<H>>,
    r: Result<(WidePtr, HomeClone), Error>,
)
    requires
        p.offset + 32 <= u64::MAX,
        call_ensures(clone_weak_ptr::<T, H>, (p, measuring, global), r),
    ensures
        if leads_away(p, measuring, *old(global)) {
            &&& others_stay(*old(global), *final(global), p.file)
            &&& exists|reply: Result<u64, Error>| #[trigger]
                counted_up(
                    the_file(*old(global), p.file).trace(),
                    p.offset + 24,
                    the_file(*final(global), p.file).trace(),
                    well(r),
                    reply,
                )
            &&& r matches Ok(x) ==> x.0 == p && x.1 == HomeClone::Nothing
        } else {
            &&& *final(global) == *old(global)
            &&& r is Err <==> leads_nowhere(p, measuring, *old(global))
            &&& r matches Err(e) ==> e == Error::CloneWeakNotAttached
            &&& r matches Ok(x) ==> x.0 == p && x.1 == (if p.offset != 0 && p.file.0 == 0 {
                HomeClone::Weak(p.offset)
            } else {
                HomeClone::Nothing
            })
        },
{
    lemma_open(*old(global), p.file);
    if leads_away(p, measuring, *old(global)) {
        let was = the_file(*old(global), p.file);
        let now = the_file(*final(global), p.file);
        lemma_extends(was.trace(), now.trace());
        let t = since(was.trace(), now.trace());
        let done: Result<(), Error> = match r {
            Ok(_) => Ok(()),
            Err(e) => Err(e),
        };
        lemma_up(p.offset, 24, was.trace(), t, done);
    }
}

/// Only plain enums are copied; counted ones are shared instead.
pub proof fn law_counted_enums_are_not_copied(layout: &EnumLayout, r: Result<(), Error>)
    requires
        call_ensures(check_clone, (layout,), r),
    ensures
        r is Ok <==> layout.mode == Mode::Plain,
        r matches Err(e) ==> e == Error::CloneCountedEnum,
{
}

/// What copying a variant asks for goes by what the variant holds.
pub proof fn law_a_copied_variant_owns_its_own(layout: &EnumLayout, v: &Seen, r: HomeClone)
    requires
        call_ensures(clone_step, (layout, v), r),
    ensures
        match *v {
            Seen::Unknown => r == HomeClone::Nothing,
            Seen::Value(_, d) => match d@ {
                DataView::Owned(x) => x.start != 0 ==> r == HomeClone::Deep(x),
                DataView::Strong(x) => x.data.start != 0 ==> r == HomeClone::Strong(x.data),
                DataView::Weak(Some(x)) => r == HomeClone::Weak(x.start),
                DataView::Weak(None) => r == HomeClone::Nothing,
                DataView::Pod(_) => r == HomeClone::Nothing,
                DataView::Ref(_) => r == HomeClone::Nothing,
                DataView::Embed(_) => true,
            },
            Seen::Counted(_, data, _) => data.start != 0 ==> r == HomeClone::Strong(data),
            Seen::Embedded(_, n) => r == HomeClone::Inline(
                (number_at(*layout) + number_width(*layout)) as u64,
                n,
            ),
        },
{
}

/// A block of unknown type becomes one of type `T` exactly where its header says both the type
/// and the size, and is given back otherwise.
pub proof fn law_a_block_is_what_its_header_says<T: BStackBlock, A: BStackRaiiAllocator>(
    b: BStackOwnedSlice,
    a: &mut A,
    r: Result<BStackOwned<T>, CastError<BStackOwnedSlice>>,
)
    requires
        call_ensures(BStackOwnedSlice::cast_into::<T, A>, (b, a), r),
    ensures
        if b.range.len < 16 {
            final(a).trace() == old(a).trace() && (r matches Err(CastError::Io(e, back)) && e
                == Error::OutOfRange && back == b)
        } else {
            exists|got: Result<Seq<u8>, Error>|
                final(a).trace() == #[trigger] with_get(
                    old(a).trace(),
                    b.range.start as int,
                    16,
                    got,
                ) && match got {
                    Err(e) => r matches Err(CastError::Io(x, back)) && x == e && back == b,
                    Ok(h) => if h.subrange(8, 16) == T::spec_eightcc() && le_value(
                        h.subrange(0, 8),
                    ) == T::spec_on_disk_size() {
                        r matches Ok(o) && o.inner().spec_range() == b.range
                    } else {
                        r matches Err(CastError::Mismatch(back)) && back == b
                    },
                }
        },
{
    lemma_extends(old(a).trace(), final(a).trace());
    let t = since(old(a).trace(), final(a).trace());
    if b.range.len < 16 {
        assert(old(a).trace() + t =~= old(a).trace());
    } else {
        let got = t[0]->Read_reply;
        assert(old(a).trace() + t =~= with_get(old(a).trace(), b.range.start as int, 16, got));
    }
}

/// A borrowed block is shown as one of type `T` exactly where its tag says so.
pub proof fn law_a_borrowed_block_is_what_its_tag_says<T: BStackBlock, A: BStackRaiiAllocator>(
    b: &BStackRange,
    a: &mut A,
    r: Result<Option<T>, Error>,
)
    requires
        call_ensures(BStackRange::cast_as::<T, A>, (b, a), r),
    ensures
        if b.len < 16 || b.start + 8 > u64::MAX {
            final(a).trace() == old(a).trace() && (r matches Err(e) && e == Error::OutOfRange)
        } else {
            exists|got: Result<Seq<u8>, Error>|
                final(a).trace() == #[trigger] with_get(old(a).trace(), b.start + 8, 8, got)
                    && match got {
                    Err(e) => r matches Err(x) && x == e,
                    Ok(tag) => r matches Ok(x) && (x is Some <==> tag == T::spec_eightcc()) && (
                    x matches Some(h) ==> h.spec_range() == *b),
                }
        },
{
    lemma_extends(old(a).trace(), final(a).trace());
    let t = since(old(a).trace(), final(a).trace());
    if b.len < 16 || b.start + 8 > u64::MAX {
        assert(old(a).trace() + t =~= old(a).trace());
    } else {
        let got = t[0]->Read_reply;
        assert(old(a).trace() + t =~= with_get(old(a).trace(), b.start + 8, 8, got));
    }
}

} // verus!
