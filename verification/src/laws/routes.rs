//! Pointers to any file: what is behind one is worked on in its own file, and only there.
use vstd::prelude::*;

use crate::allocator::{lemma_extends, since, BStackRaiiAllocator, Settings};
use crate::error::Error;
use crate::foreign::{
    home_relative_repr, open_file, resolve_self_repr, route_drop, Foreign, ForeignOwned, ForeignRc,
    ForeignWeak, Place, Route, WidePtr,
};
use crate::handback::IntoLocalError;
use crate::handle::WeakRef;
use crate::owned::BStackOwned;
use crate::range::{BStackRange, FileId};
use crate::reference::BStackRef;
use crate::registry::{keys, FileRegistry};
use crate::teardown::Teardown;
use crate::traits::{BStackBlock, BStackShared, BStackWeakable};

use super::fields::{lemma_owned, lemma_strong_went, owned_went, strong_went};
use super::release::{gave_up_weak, lemma_weak};
use super::slots::{control_found, lemma_control_found};

verus! {

/// Whether the file with this number is among the open ones. The highest numbers are set aside,
/// and no open file has one of them.
pub open spec fn among_open<H: BStackRaiiAllocator>(
    global: Option<FileRegistry<H>>,
    id: FileId,
) -> bool {
    &&& global matches Some(reg)
    &&& 1 <= id.0 < 0xffff_ff00
    &&& id.0 <= reg.hosts().len()
    &&& reg.hosts()[id.0 - 1] is Some
}

pub(crate) proof fn lemma_open<H: BStackRaiiAllocator>(global: Option<FileRegistry<H>>, id: FileId)
    ensures
        open_file(global, id) == among_open(global, id),
{
    if let Some(reg) = global {
        reg.lemma_live_is_keys();
        let live = keys(reg.hosts());
        assert(live.len() == reg.hosts().len());
        let i = id.0 - 1;
        if 0 <= i < live.len() && id.0 < 0xffff_ff00 {
            assert((live[i] is Some) == (reg.hosts()[i] is Some));
            assert(reg@.host_of(id) == live[i]);
        }
    }
}

/// Whether a pointer leads to no block that can be worked on.
pub open spec fn is_out_of_reach<H: BStackRaiiAllocator>(
    p: WidePtr,
    global: Option<FileRegistry<H>>,
) -> bool {
    p.offset == 0 || (p.file.0 != 0 && !among_open(global, p.file))
}

/// What is true of an open file when it is worked on from another: it is one that frees block by
/// block, and its frees carry its number.
pub open spec fn seen_from_elsewhere(s: Settings, id: FileId) -> Settings {
    Settings { anchor: s.anchor, bulk: false, file: id, stack: s.stack }
}

/// The open file with this number.
pub open spec fn the_file<H: BStackRaiiAllocator>(
    global: Option<FileRegistry<H>>,
    id: FileId,
) -> H {
    global->0.hosts()[id.0 - 1]->0
}

/// Whether every open file but this one is as it was.
pub open spec fn others_stay<H: BStackRaiiAllocator>(
    before: Option<FileRegistry<H>>,
    new: Option<FileRegistry<H>>,
    id: FileId,
) -> bool {
    &&& before matches Some(b)
    &&& new matches Some(n)
    &&& n.hosts().len() == b.hosts().len()
    &&& forall|k: int|
        0 <= k < b.hosts().len() && k != id.0 - 1 ==> #[trigger] n.hosts()[k] == b.hosts()[k]
    &&& n.hosts()[id.0 - 1] is Some
}

/// An owner of a block of any file releases it, with all that it owns, in the file of the block.
/// Where that file is not open the block is left alone.
pub proof fn law_a_far_block_goes_in_its_file<
    T: BStackBlock,
    A: BStackRaiiAllocator,
    H: BStackRaiiAllocator,
>(
    f: ForeignOwned<T>,
    ctx: &mut Teardown,
    home: &mut A,
    global: &mut Option<FileRegistry<H>>,
    r: Result<(), Error>,
)
    requires
        old(ctx)@.depth < 500,
        call_ensures(ForeignOwned::<T>::bstack_drop::<A, H>, (f, ctx, home, global), r),
    ensures
        ({
            let range = BStackRange { start: f@.offset, len: T::spec_on_disk_size() };
            if is_out_of_reach(f@, *old(global)) {
                r is Ok && final(ctx)@ == old(ctx)@ && *final(home) == *old(home)
                    && *final(global) == *old(global)
            } else if f@.file.0 == 0 {
                *final(global) == *old(global) && owned_went::<T>(
                    range,
                    old(home).spec_settings(),
                    old(ctx)@,
                    old(home).trace(),
                    final(ctx)@,
                    final(home).trace(),
                    r,
                )
            } else {
                *final(home) == *old(home) && others_stay(*old(global), *final(global), f@.file)
                    && owned_went::<T>(
                    range,
                    seen_from_elsewhere(
                        the_file(*old(global), f@.file).spec_settings(),
                        f@.file,
                    ),
                    old(ctx)@,
                    the_file(*old(global), f@.file).trace(),
                    final(ctx)@,
                    the_file(*final(global), f@.file).trace(),
                    r,
                )
            }
        }),
{
    lemma_open(*old(global), f@.file);
    let range = BStackRange { start: f@.offset, len: T::spec_on_disk_size() };
    if is_out_of_reach(f@, *old(global)) {
    } else if f@.file.0 == 0 {
        lemma_extends(old(home).trace(), final(home).trace());
        lemma_owned::<T>(
            range,
            old(home).spec_settings(),
            old(ctx)@,
            old(home).trace(),
            final(ctx)@,
            since(old(home).trace(), final(home).trace()),
            r,
        );
    } else {
        let was = the_file(*old(global), f@.file);
        let now = the_file(*final(global), f@.file);
        lemma_extends(was.trace(), now.trace());
        lemma_owned::<T>(
            range,
            seen_from_elsewhere(was.spec_settings(), f@.file),
            old(ctx)@,
            was.trace(),
            final(ctx)@,
            since(was.trace(), now.trace()),
            r,
        );
    }
}

/// A strong reference to a block of any file is given up in the file of the block.
pub proof fn law_a_far_share_is_given_up_in_its_file<
    T: BStackShared,
    A: BStackRaiiAllocator,
    H: BStackRaiiAllocator,
>(
    f: ForeignRc<T>,
    ctx: &mut Teardown,
    home: &mut A,
    global: &mut Option<FileRegistry<H>>,
    r: Result<(), Error>,
)
    requires
        old(ctx)@.depth < 500,
        f@.offset + 24 <= u64::MAX,
        call_ensures(ForeignRc::<T>::bstack_drop::<A, H>, (f, ctx, home, global), r),
    ensures
        ({
            let data = BStackRange { start: f@.offset, len: T::spec_on_disk_size() };
            if is_out_of_reach(f@, *old(global)) {
                r is Ok && final(ctx)@ == old(ctx)@ && *final(home) == *old(home)
                    && *final(global) == *old(global)
            } else if f@.file.0 == 0 {
                *final(global) == *old(global) && exists|found: Result<Seq<u8>, Error>| #[trigger]
                    strong_went::<T>(
                        data,
                        old(home).spec_settings(),
                        old(ctx)@,
                        old(home).trace(),
                        final(ctx)@,
                        final(home).trace(),
                        r,
                        found,
                    )
            } else {
                *final(home) == *old(home) && others_stay(*old(global), *final(global), f@.file)
                    && exists|found: Result<Seq<u8>, Error>| #[trigger]
                    strong_went::<T>(
                        data,
                        seen_from_elsewhere(
                            the_file(*old(global), f@.file).spec_settings(),
                            f@.file,
                        ),
                        old(ctx)@,
                        the_file(*old(global), f@.file).trace(),
                        final(ctx)@,
                        the_file(*final(global), f@.file).trace(),
                        r,
                        found,
                    )
            }
        }),
{
    lemma_open(*old(global), f@.file);
    let data = BStackRange { start: f@.offset, len: T::spec_on_disk_size() };
    if is_out_of_reach(f@, *old(global)) {
    } else if f@.file.0 == 0 {
        lemma_extends(old(home).trace(), final(home).trace());
        lemma_strong_went::<T>(
            data,
            old(home).spec_settings(),
            old(ctx)@,
            old(home).trace(),
            final(ctx)@,
            since(old(home).trace(), final(home).trace()),
            r,
        );
    } else {
        let was = the_file(*old(global), f@.file);
        let now = the_file(*final(global), f@.file);
        lemma_extends(was.trace(), now.trace());
        lemma_strong_went::<T>(
            data,
            seen_from_elsewhere(was.spec_settings(), f@.file),
            old(ctx)@,
            was.trace(),
            final(ctx)@,
            since(was.trace(), now.trace()),
            r,
        );
    }
}

/// A weak reference to a block of any file is given up in the file of the control block.
pub proof fn law_a_far_count_is_given_up_in_its_file<
    T: BStackWeakable,
    A: BStackRaiiAllocator,
    H: BStackRaiiAllocator,
>(
    f: ForeignWeak<T>,
    ctx: &mut Teardown,
    home: &mut A,
    global: &mut Option<FileRegistry<H>>,
    r: Result<(), Error>,
)
    requires
        f@.offset + 32 <= u64::MAX,
        call_ensures(ForeignWeak::<T>::bstack_drop::<A, H>, (f, ctx, home, global), r),
    ensures
        ({
            let ctrl = BStackRange { start: f@.offset, len: T::spec_control_size() };
            if is_out_of_reach(f@, *old(global)) {
                r is Ok && final(ctx)@ == old(ctx)@ && *final(home) == *old(home)
                    && *final(global) == *old(global)
            } else if f@.file.0 == 0 {
                *final(global) == *old(global) && exists|reply: Result<u64, Error>| #[trigger]
                    gave_up_weak(
                        ctrl,
                        old(home).spec_settings(),
                        old(ctx)@,
                        old(home).trace(),
                        final(ctx)@,
                        final(home).trace(),
                        r,
                        reply,
                    )
            } else {
                *final(home) == *old(home) && others_stay(*old(global), *final(global), f@.file)
                    && exists|reply: Result<u64, Error>| #[trigger]
                    gave_up_weak(
                        ctrl,
                        seen_from_elsewhere(
                            the_file(*old(global), f@.file).spec_settings(),
                            f@.file,
                        ),
                        old(ctx)@,
                        the_file(*old(global), f@.file).trace(),
                        final(ctx)@,
                        the_file(*final(global), f@.file).trace(),
                        r,
                        reply,
                    )
            }
        }),
{
    lemma_open(*old(global), f@.file);
    let ctrl = BStackRange { start: f@.offset, len: T::spec_control_size() };
    if is_out_of_reach(f@, *old(global)) {
    } else if f@.file.0 == 0 {
        lemma_extends(old(home).trace(), final(home).trace());
        lemma_weak(
            ctrl,
            old(home).spec_settings(),
            old(ctx)@,
            old(home).trace(),
            final(ctx)@,
            since(old(home).trace(), final(home).trace()),
            r,
        );
    } else {
        let was = the_file(*old(global), f@.file);
        let now = the_file(*final(global), f@.file);
        lemma_extends(was.trace(), now.trace());
        lemma_weak(
            ctrl,
            seen_from_elsewhere(was.spec_settings(), f@.file),
            old(ctx)@,
            was.trace(),
            final(ctx)@,
            since(was.trace(), now.trace()),
            r,
        );
    }
}

/// The way to a block is the way to its file.
pub proof fn law_the_way_leads_to_the_file<H: BStackRaiiAllocator>(
    p: WidePtr,
    global: &Option<FileRegistry<H>>,
    r: Route,
)
    requires
        call_ensures(route_drop::<H>, (p, global), r),
    ensures
        r is Skip <==> is_out_of_reach(p, *global),
        r is Home <==> p.offset != 0 && p.file.0 == 0,
        r matches Route::Host(id) ==> id == p.file && among_open(*global, id),
{
    lemma_open(*global, p.file);
}

/// Looking behind a pointer gives the block, and the file it is in; nothing where there is no
/// block; and fails where the file is not open.
pub open spec fn looked_behind<H: BStackRaiiAllocator>(
    p: WidePtr,
    size: u64,
    global: Option<FileRegistry<H>>,
    r: Result<Option<(BStackRange, Place)>, Error>,
) -> bool {
    match r {
        Ok(None) => p.offset == 0,
        Ok(Some(x)) => {
            &&& p.offset != 0
            &&& x.0.start == p.offset && x.0.len == size
            &&& match x.1 {
                Place::Home => p.file.0 == 0,
                Place::File(id) => id == p.file && id.0 != 0 && among_open(global, id),
            }
        },
        Err(e) => p.offset != 0 && p.file.0 != 0 && !among_open(global, p.file) && e
            == Error::ForeignNotAttached,
    }
}

/// See [`looked_behind`], of a pointer.
pub proof fn law_a_pointer_shows_its_block<T: BStackBlock, H: BStackRaiiAllocator>(
    f: &Foreign<T>,
    global: &Option<FileRegistry<H>>,
    r: Result<Option<(BStackRange, Place)>, Error>,
)
    requires
        call_ensures(Foreign::<T>::with::<H>, (f, global), r),
    ensures
        looked_behind(f@, T::spec_on_disk_size(), *global, r),
{
    lemma_open(*global, f@.file);
}

/// See [`looked_behind`], of an owner.
pub proof fn law_a_far_owner_shows_its_block<T: BStackBlock, H: BStackRaiiAllocator>(
    f: &ForeignOwned<T>,
    global: &Option<FileRegistry<H>>,
    r: Result<Option<(BStackRange, Place)>, Error>,
)
    requires
        call_ensures(ForeignOwned::<T>::with::<H>, (f, global), r),
    ensures
        looked_behind(f@, T::spec_on_disk_size(), *global, r),
{
    lemma_open(*global, f@.file);
}

/// See [`looked_behind`], of a strong reference.
pub proof fn law_a_far_share_shows_its_block<T: BStackShared, H: BStackRaiiAllocator>(
    f: &ForeignRc<T>,
    global: &Option<FileRegistry<H>>,
    r: Result<Option<(BStackRange, Place)>, Error>,
)
    requires
        call_ensures(ForeignRc::<T>::with::<H>, (f, global), r),
    ensures
        looked_behind(f@, T::spec_on_disk_size(), *global, r),
{
    lemma_open(*global, f@.file);
}

/// A pointer becomes a plain reference exactly where its file can be worked on.
pub proof fn law_a_near_pointer_is_a_reference<T: BStackBlock, H: BStackRaiiAllocator>(
    f: Foreign<T>,
    global: &Option<FileRegistry<H>>,
    r: Option<BStackRef<T>>,
)
    requires
        call_ensures(Foreign::<T>::into_local::<H>, (f, global), r),
    ensures
        r is Some <==> f@.file.0 == 0 || among_open(*global, f@.file),
        r matches Some(x) ==> x@.start == f@.offset && x@.len == T::spec_on_disk_size(),
{
    lemma_open(*global, f@.file);
}

/// A pointer to a block of an open file names that file and the place in it.
pub proof fn law_a_block_of_an_open_file_can_be_pointed_to<T: BStackBlock, H: BStackRaiiAllocator>(
    slice: BStackRange,
    stack: u64,
    global: &Option<FileRegistry<H>>,
    r: Option<Foreign<T>>,
)
    requires
        call_ensures(Foreign::<T>::from_local::<H>, (slice, stack, global), r),
    ensures
        r is Some <==> (*global matches Some(reg) && reg@.by_stack.contains_key(stack)),
        r matches Some(f) ==> f@.file == (*global)->0@.by_stack[stack] && f@.offset == slice.start
            && f@.type_id == 0,
{
}

/// A pointer that is free of its file is one that names it.
pub proof fn law_a_free_pointer_names_its_file<T>(f: Foreign<T>, r: Option<Foreign<T>>)
    requires
        call_ensures(Foreign::<T>::detach, (f,), r),
    ensures
        r is Some <==> f@.file.0 != 0,
        r matches Some(x) ==> x@ == f@,
{
}

/// A pointer out of a file leads elsewhere to the same block: only a pointer into its own file
/// gets that file's number, and only where there is a block and the file has a number.
pub proof fn law_a_pointer_keeps_its_block<H: BStackRaiiAllocator>(
    p: WidePtr,
    global: &Option<FileRegistry<H>>,
    home: u64,
    outside: WidePtr,
    inside: WidePtr,
)
    requires
        call_ensures(resolve_self_repr::<H>, (p, global, home), outside),
        call_ensures(home_relative_repr::<H>, (p, global, home), inside),
    ensures
        ({
            let numbered = *global matches Some(reg) && reg@.by_stack.contains_key(home);
            let number = (*global)->0@.by_stack[home];
            &&& outside.offset == p.offset && outside.type_id == p.type_id
            &&& inside.offset == p.offset && inside.type_id == p.type_id
            &&& outside.file == (if p.file.0 == 0 && p.offset != 0 && numbered {
                number
            } else {
                p.file
            })
            &&& inside.file == (if p.file.0 != 0 && numbered && number == p.file {
                FileId(0)
            } else {
                p.file
            })
        }),
{
}

/// An owner of a block of any file becomes a plain owner in the file of the block and in no
/// other, or is handed back.
pub proof fn law_a_far_owner_comes_home<
    T: BStackBlock,
    A: BStackRaiiAllocator,
    H: BStackRaiiAllocator,
>(
    f: ForeignOwned<T>,
    target: &A,
    global: &Option<FileRegistry<H>>,
    r: Result<BStackOwned<T>, IntoLocalError<ForeignOwned<T>>>,
)
    requires
        call_ensures(ForeignOwned::<T>::into_local::<A, H>, (f, target, global), r),
    ensures
        ({
            let s = target.spec_settings();
            let fits = f@.file.0 == 0 || (if s.file.0 != 0 {
                s.file == f@.file
            } else {
                *global matches Some(reg) && reg@.by_stack.contains_key(s.stack)
                    && reg@.by_stack[s.stack] == f@.file
            });
            &&& r is Ok <==> fits
            &&& r matches Ok(o) ==> o.inner().spec_range().start == f@.offset
                && o.inner().spec_range().len == T::spec_on_disk_size()
            &&& r matches Err(x) ==> x.handle == f && x.source == Error::ForeignHomeMismatch
        }),
{
}

/// A strong reference to a block of any file comes home with its control block, or is handed
/// back.
pub proof fn law_a_far_share_comes_home<T: BStackShared, A: BStackRaiiAllocator>(
    f: ForeignRc<T>,
    target: &mut A,
    r: Result<(BStackRange, Option<BStackRange>), IntoLocalError<ForeignRc<T>>>,
)
    requires
        call_ensures(ForeignRc::<T>::into_local::<A>, (f, target), r),
    ensures
        ({
            let data = BStackRange { start: f@.offset, len: T::spec_on_disk_size() };
            match r {
                Ok(x) => x.0 == data && control_found::<T>(
                    data,
                    old(target).trace(),
                    final(target).trace(),
                    Ok(x.1),
                ),
                Err(x) => x.handle == f && control_found::<T>(
                    data,
                    old(target).trace(),
                    final(target).trace(),
                    Err(x.source),
                ),
            }
        }),
{
    let data = BStackRange { start: f@.offset, len: T::spec_on_disk_size() };
    lemma_extends(old(target).trace(), final(target).trace());
    let found: Result<Option<BStackRange>, Error> = match r {
        Ok(x) => Ok(x.1),
        Err(x) => Err(x.source),
    };
    lemma_control_found::<T>(
        data,
        old(target).trace(),
        since(old(target).trace(), final(target).trace()),
        found,
    );
}

/// A weak reference to a block of any file comes home as one to the same control block.
pub proof fn law_a_far_count_comes_home<T: BStackWeakable>(f: ForeignWeak<T>, r: WeakRef<T>)
    requires
        call_ensures(ForeignWeak::<T>::into_local, (f,), r),
    ensures
        r@.start == f@.offset,
        r@.len == T::spec_control_size(),
{
}

} // verus!
