//! Duplicating what a field refers to: a block of its own is copied, a counted one counted once
//! more.
use vstd::pervasive::arbitrary;
use vstd::prelude::*;

use crate::allocator::{extends, lemma_since, since, BStackRaiiAllocator, Event};
use crate::derive::kind::Kind;
use crate::error::Error;
use crate::foreign::{
    add_one_talk, clone_strong_talk, done_with, foreign_clone_strong, foreign_clone_weak,
    host_said, is_open, only_host, open_file, ForeignHostAllocator, WidePtr,
};
use crate::owned::BStackOwned;
use crate::range::{BStackRange, FileId};
use crate::registry::FileRegistry;
use crate::traits::{BStackBlock, BStackShared, BStackWeakable};

verus! {

/// A type of block that can be copied with all that it owns.
pub trait TryCloneIn: BStackBlock {
    /// Whether this conversation copies the block at `range`, with this outcome: where the copy
    /// is.
    open spec fn clone_talk(
        range: BStackRange,
        t: Seq<Event>,
        r: Result<BStackRange, Error>,
    ) -> bool {
        arbitrary()
    }

    /// Copy the block with all that it owns, in the file of `a`.
    fn try_clone_in<A: BStackRaiiAllocator>(&self, a: &mut A) -> (r: Result<
        BStackOwned<Self>,
        Error,
    >)
        ensures
            final(a).spec_settings() == old(a).spec_settings(),
            extends(old(a).trace(), final(a).trace()),
            Self::clone_talk(
                self.spec_range(),
                since(old(a).trace(), final(a).trace()),
                match r {
                    Ok(owned) => Ok(owned.inner().spec_range()),
                    Err(e) => Err(e),
                },
            ),
    ;
}

/// Whether copying `range` said `t` and gave the offset `r`.
pub open spec fn copied<T: TryCloneIn>(
    range: BStackRange,
    t: Seq<Event>,
    r: Result<u64, Error>,
    outcome: Result<BStackRange, Error>,
) -> bool {
    &&& T::clone_talk(range, t, outcome)
    &&& r == match outcome {
        Ok(new) => Ok::<u64, Error>(new.start),
        Err(e) => Err(e),
    }
}

/// The conversation that copies the block at `range` and tells where the copy is.
pub open spec fn copy_talk<T: TryCloneIn>(
    range: BStackRange,
    t: Seq<Event>,
    r: Result<u64, Error>,
) -> bool {
    exists|outcome: Result<BStackRange, Error>| #[trigger] copied::<T>(range, t, r, outcome)
}

/// The conversation that counts one more strong reference to the block at `range`.
pub open spec fn count_talk<T: BStackShared>(
    range: BStackRange,
    t: Seq<Event>,
    r: Result<(), Error>,
) -> bool {
    exists|found: Result<Option<BStackRange>, Error>, k: int| #[trigger]
        clone_strong_talk::<T>(range, t, r, found, k)
}

/// Copy the block at `offset`, with all that it owns, in the file of `a`: where the copy is.
pub fn foreign_clone_owned<T: TryCloneIn, A: BStackRaiiAllocator>(a: &mut A, offset: u64) -> (r:
    Result<u64, Error>)
    ensures
        final(a).spec_settings() == old(a).spec_settings(),
        extends(old(a).trace(), final(a).trace()),
        copy_talk::<T>(
            BStackRange { start: offset, len: T::spec_on_disk_size() },
            since(old(a).trace(), final(a).trace()),
            r,
        ),
{
    let range = BStackRange::new(offset, T::on_disk_size());
    let src = T::from_range(range);
    let ghost before = a.trace();
    match src.try_clone_in(a) {
        Ok(new) => {
            let at = new.handle().range();
            let r: Result<u64, Error> = Ok(at.start());
            assert(copied::<T>(range, since(before, a.trace()), r, Ok(at)));
            r
        },
        Err(e) => {
            let r: Result<u64, Error> = Err(e);
            assert(copied::<T>(range, since(before, a.trace()), r, Err(e)));
            r
        },
    }
}

/// The conversation that stores the bytes of a copy in a block of its own: take the block, write
/// it, and give it back where that fails.
pub open spec fn store_talk(bytes: Seq<u8>, t: Seq<Event>, r: Result<BStackRange, Error>) -> bool {
    &&& t.len() >= 1
    &&& t[0] matches Event::Alloc { len, reply: taken }
    &&& len == bytes.len()
    &&& match taken {
        Err(e) => t.len() == 1 && r == Err::<BStackRange, Error>(e),
        Ok(copy) => {
            &&& copy.len == bytes.len()
            &&& t.len() >= 2
            &&& t[1] matches Event::Write { off, bytes: b, reply: wrote }
            &&& off == copy.start
            &&& b == bytes
            &&& match wrote {
                Ok(_) => t.len() == 2 && r == Ok::<BStackRange, Error>(copy),
                Err(e) => {
                    &&& t.len() == 3
                    &&& t[2] matches Event::Dealloc { range, reply: _ }
                    &&& range == copy
                    &&& r == Err::<BStackRange, Error>(e)
                },
            }
        },
    }
}

/// Store the bytes of a copy in a block of its own. Where that fails no block is left behind.
pub fn store_copy<A: BStackRaiiAllocator>(a: &mut A, bytes: Vec<u8>) -> (r: Result<
    BStackRange,
    Error,
>)
    ensures
        final(a).spec_settings() == old(a).spec_settings(),
        extends(old(a).trace(), final(a).trace()),
        store_talk(bytes@, since(old(a).trace(), final(a).trace()), r),
{
    let ghost before = a.trace();
    let ghost view = bytes@;
    let len: u64 = bytes.len() as u64;
    let taken = a.alloc_range(len);
    let ghost mut t: Seq<Event> = seq![Event::Alloc { len, reply: taken }];
    proof {
        assert(a.trace() =~= before + t);
        lemma_since(before, t);
    }
    let copy = match taken {
        Err(e) => {
            return Err(e);
        },
        Ok(copy) => copy,
    };
    let wrote = a.set(copy.start, bytes);
    proof {
        t = t.push(Event::Write { off: copy.start, bytes: view, reply: wrote });
        assert(a.trace() =~= before + t);
        lemma_since(before, t);
    }
    if let Err(e) = wrote {
        let back = a.dealloc(copy);
        proof {
            t = t.push(Event::Dealloc { range: copy, reply: back });
            assert(a.trace() =~= before + t);
            lemma_since(before, t);
        }
        return Err(e);
    }
    Ok(copy)
}

/// A copy that cannot be stored leaves no block behind: every block that was taken is given back.
pub proof fn law_failed_copy_leaves_no_block(bytes: Seq<u8>, t: Seq<Event>, e: Error)
    requires
        store_talk(bytes, t, Err(e)),
    ensures
        t[0] matches Event::Alloc { len: _, reply: Ok(copy) } ==> (t.last() matches Event::Dealloc {
            range,
            reply: _,
        } && range == copy),
{
}

/// What duplicating a field asks for in the file of the field.
#[derive(Clone, Copy, Debug, PartialEq, Eq, Structural)]
pub enum HomeClone {
    /// Nothing: the bytes of the field are all there is to it.
    Nothing,
    /// Copy the block at this place, and let the field lead to the copy.
    Deep(BStackRange),
    /// Count one more strong reference to the block at this place.
    Strong(BStackRange),
    /// Count one more weak reference in the control block at this offset.
    Weak(u64),
    /// Copy the block that lies at this offset in the block being copied and is this long, and
    /// put the copy at the same place.
    Inline(u64, u64),
}

/// What duplicating a field of this kind asks for, where it holds `off` and a block of its
/// target takes `size` bytes.
pub open spec fn home_clone(kind: Kind, off: u64, size: u64) -> HomeClone {
    if off == 0 {
        HomeClone::Nothing
    } else {
        match kind {
            Kind::Owned => HomeClone::Deep(BStackRange { start: off, len: size }),
            Kind::Strong => HomeClone::Strong(BStackRange { start: off, len: size }),
            Kind::Weak => HomeClone::Weak(off),
            _ => HomeClone::Nothing,
        }
    }
}

/// What duplicating a field of this kind asks for, where it holds `off`.
pub fn clone_field<T: BStackBlock>(kind: Kind, off: u64) -> (r: HomeClone)
    ensures
        r == home_clone(kind, off, T::spec_on_disk_size()),
{
    if off == 0 {
        return HomeClone::Nothing;
    }
    match kind {
        Kind::Owned => HomeClone::Deep(BStackRange::new(off, T::on_disk_size())),
        Kind::Strong => HomeClone::Strong(BStackRange::new(off, T::on_disk_size())),
        Kind::Weak => HomeClone::Weak(off),
        _ => HomeClone::Nothing,
    }
}

/// Where a pointer to another file is duplicated.
#[derive(Clone, Copy, Debug, PartialEq, Eq, Structural)]
pub enum CloneRoute {
    /// Nowhere: the pointer is all there is to it.
    Keep,
    /// In the file at hand.
    Home,
    /// In this open file.
    Host(FileId),
}

/// The error for a pointer of this kind whose file is not open.
pub open spec fn not_attached(kind: Kind) -> Error {
    match kind {
        Kind::Owned => Error::CloneOwnedNotAttached,
        Kind::Strong => Error::CloneStrongNotAttached,
        _ => Error::CloneWeakNotAttached,
    }
}

/// Where a pointer of this kind to `off` in the file numbered `file` is duplicated. `measuring`
/// is set where only the sizes in the file at hand are counted; `live` says whether the file is
/// open. A pointer that owns something in a file that is not open cannot be duplicated: a second
/// owner would release the block a second time.
pub open spec fn clone_routed(
    kind: Kind,
    file: u64,
    off: u64,
    measuring: bool,
    live: bool,
) -> Result<CloneRoute, Error> {
    if !(kind == Kind::Owned || kind == Kind::Strong || kind == Kind::Weak) || off == 0 {
        Ok(CloneRoute::Keep)
    } else if file == 0 {
        Ok(CloneRoute::Home)
    } else if measuring {
        Ok(CloneRoute::Keep)
    } else {
        match FileId::spec_from_u64(file) {
            None => Err(Error::CloneMalformedFile),
            Some(id) => if live {
                Ok(CloneRoute::Host(id))
            } else {
                Err(not_attached(kind))
            },
        }
    }
}

/// Where a pointer of this kind to `off` in the file numbered `file` is duplicated.
pub fn clone_route<H: BStackRaiiAllocator>(
    kind: Kind,
    file: u64,
    off: u64,
    measuring: bool,
    global: &Option<FileRegistry<H>>,
) -> (r: Result<CloneRoute, Error>)
    ensures
        r == clone_routed(
            kind,
            file,
            off,
            measuring,
            FileId::spec_from_u64(file) matches Some(id) && open_file(*global, id),
        ),
{
    let absent: Error = match kind {
        Kind::Owned => Error::CloneOwnedNotAttached,
        Kind::Strong => Error::CloneStrongNotAttached,
        Kind::Weak => Error::CloneWeakNotAttached,
        _ => {
            return Ok(CloneRoute::Keep);
        },
    };
    if off == 0 {
        return Ok(CloneRoute::Keep);
    }
    if file == 0 {
        return Ok(CloneRoute::Home);
    }
    if measuring {
        return Ok(CloneRoute::Keep);
    }
    match FileId::from_u64(file) {
        None => Err(Error::CloneMalformedFile),
        Some(id) => if is_open(global, id) {
            Ok(CloneRoute::Host(id))
        } else {
            Err(absent)
        },
    }
}

/// The route of the pointer `p`.
pub open spec fn route_of<H: BStackRaiiAllocator>(
    kind: Kind,
    p: WidePtr,
    measuring: bool,
    global: Option<FileRegistry<H>>,
) -> Result<CloneRoute, Error> {
    clone_routed(kind, p.file.0 as u64, p.offset, measuring, open_file(global, p.file))
}

/// What duplicating a pointer gives where no other file takes part: the pointer as it is, and
/// what is asked for in the file at hand; or why it cannot be done.
pub open spec fn stays_home(
    kind: Kind,
    p: WidePtr,
    size: u64,
    route: Result<CloneRoute, Error>,
) -> Result<(WidePtr, HomeClone), Error> {
    match route {
        Err(e) => Err(e),
        Ok(CloneRoute::Home) => Ok((p, home_clone(kind, p.offset, size))),
        Ok(_) => Ok((p, HomeClone::Nothing)),
    }
}

/// The offset of the pointer that was given.
pub open spec fn offset_given(r: Result<(WidePtr, HomeClone), Error>) -> Result<u64, Error> {
    match r {
        Ok(x) => Ok(x.0.offset),
        Err(e) => Err(e),
    }
}

/// Whether it went well.
pub open spec fn went(r: Result<(WidePtr, HomeClone), Error>) -> Result<(), Error> {
    match r {
        Ok(_) => Ok(()),
        Err(e) => Err(e),
    }
}

/// Duplicate a pointer that owns its block. In another file the block is copied at once, and
/// the new pointer leads to the copy; in the file at hand the copy is asked for.
pub fn clone_owned_ptr<T: TryCloneIn, H: BStackRaiiAllocator>(
    p: WidePtr,
    measuring: bool,
    global: &mut Option<FileRegistry<H>>,
) -> (r: Result<(WidePtr, HomeClone), Error>)
    ensures
        match route_of(Kind::Owned, p, measuring, *old(global)) {
            Ok(CloneRoute::Host(id)) => {
                &&& id == p.file
                &&& only_host(*old(global), *final(global), id)
                &&& copy_talk::<T>(
                    BStackRange { start: p.offset, len: T::spec_on_disk_size() },
                    host_said(*old(global), *final(global), id),
                    offset_given(r),
                )
                &&& r matches Ok(x) ==> x.0 == (WidePtr {
                    file: id,
                    type_id: 0,
                    offset: x.0.offset,
                }) && x.1 == HomeClone::Nothing
            },
            route => *final(global) == *old(global) && r == stays_home(
                Kind::Owned,
                p,
                T::spec_on_disk_size(),
                route,
            ),
        },
{
    match clone_route(Kind::Owned, p.file.as_u64(), p.offset, measuring, global) {
        Err(e) => Err(e),
        Ok(CloneRoute::Keep) => Ok((p, HomeClone::Nothing)),
        Ok(CloneRoute::Home) => Ok((p, clone_field::<T>(Kind::Owned, p.offset))),
        Ok(CloneRoute::Host(id)) => match global {
            None => Ok((p, HomeClone::Nothing)),
            Some(reg) => {
                let ghost before = *reg;
                match reg.lend(id) {
                    None => Ok((p, HomeClone::Nothing)),
                    Some(host) => {
                        let ghost h = host;
                        let mut adapter = ForeignHostAllocator::new(host, id);
                        proof {
                            adapter.lemma_forwards();
                        }
                        let r = foreign_clone_owned::<T, ForeignHostAllocator<H>>(
                            &mut adapter,
                            p.offset,
                        );
                        done_with(reg, id, adapter, Ghost(before), Ghost(h));
                        let given = match r {
                            Ok(off) => Ok((WidePtr::new(id, off), HomeClone::Nothing)),
                            Err(e) => Err(e),
                        };
                        assert(offset_given(given) == r);
                        given
                    },
                }
            },
        },
    }
}

/// Duplicate a pointer that is one of the owners of its block: the block is counted once more,
/// and the pointer stays as it is.
pub fn clone_strong_ptr<T: BStackShared, H: BStackRaiiAllocator>(
    p: WidePtr,
    measuring: bool,
    global: &mut Option<FileRegistry<H>>,
) -> (r: Result<(WidePtr, HomeClone), Error>)
    ensures
        match route_of(Kind::Strong, p, measuring, *old(global)) {
            Ok(CloneRoute::Host(id)) => {
                &&& id == p.file
                &&& only_host(*old(global), *final(global), id)
                &&& count_talk::<T>(
                    BStackRange { start: p.offset, len: T::spec_on_disk_size() },
                    host_said(*old(global), *final(global), id),
                    went(r),
                )
                &&& r matches Ok(x) ==> x == (p, HomeClone::Nothing)
            },
            route => *final(global) == *old(global) && r == stays_home(
                Kind::Strong,
                p,
                T::spec_on_disk_size(),
                route,
            ),
        },
{
    match clone_route(Kind::Strong, p.file.as_u64(), p.offset, measuring, global) {
        Err(e) => Err(e),
        Ok(CloneRoute::Keep) => Ok((p, HomeClone::Nothing)),
        Ok(CloneRoute::Home) => Ok((p, clone_field::<T>(Kind::Strong, p.offset))),
        Ok(CloneRoute::Host(id)) => match global {
            None => Ok((p, HomeClone::Nothing)),
            Some(reg) => {
                let ghost before = *reg;
                match reg.lend(id) {
                    None => Ok((p, HomeClone::Nothing)),
                    Some(host) => {
                        let ghost h = host;
                        let mut adapter = ForeignHostAllocator::new(host, id);
                        proof {
                            adapter.lemma_forwards();
                        }
                        let r = foreign_clone_strong::<T, ForeignHostAllocator<H>>(
                            &mut adapter,
                            p.offset,
                        );
                        done_with(reg, id, adapter, Ghost(before), Ghost(h));
                        let given = match r {
                            Ok(_) => Ok((p, HomeClone::Nothing)),
                            Err(e) => Err(e),
                        };
                        assert(went(given) == r);
                        given
                    },
                }
            },
        },
    }
}

/// Duplicate a pointer that is a weak reference: it is counted once more, and the pointer stays
/// as it is.
pub fn clone_weak_ptr<T: BStackWeakable, H: BStackRaiiAllocator>(
    p: WidePtr,
    measuring: bool,
    global: &mut Option<FileRegistry<H>>,
) -> (r: Result<(WidePtr, HomeClone), Error>)
    ensures
        match route_of(Kind::Weak, p, measuring, *old(global)) {
            Ok(CloneRoute::Host(id)) => {
                &&& id == p.file
                &&& only_host(*old(global), *final(global), id)
                &&& add_one_talk(
                    p.offset,
                    24,
                    host_said(*old(global), *final(global), id),
                    went(r),
                )
                &&& r matches Ok(x) ==> x == (p, HomeClone::Nothing)
            },
            route => *final(global) == *old(global) && r == stays_home(
                Kind::Weak,
                p,
                T::spec_on_disk_size(),
                route,
            ),
        },
{
    match clone_route(Kind::Weak, p.file.as_u64(), p.offset, measuring, global) {
        Err(e) => Err(e),
        Ok(CloneRoute::Keep) => Ok((p, HomeClone::Nothing)),
        Ok(CloneRoute::Home) => Ok((p, clone_field::<T>(Kind::Weak, p.offset))),
        Ok(CloneRoute::Host(id)) => match global {
            None => Ok((p, HomeClone::Nothing)),
            Some(reg) => {
                let ghost before = *reg;
                match reg.lend(id) {
                    None => Ok((p, HomeClone::Nothing)),
                    Some(host) => {
                        let ghost h = host;
                        let mut adapter = ForeignHostAllocator::new(host, id);
                        proof {
                            adapter.lemma_forwards();
                        }
                        let r = foreign_clone_weak(&mut adapter, p.offset);
                        done_with(reg, id, adapter, Ghost(before), Ghost(h));
                        match r {
                            Ok(_) => Ok((p, HomeClone::Nothing)),
                            Err(e) => Err(e),
                        }
                    },
                }
            },
        },
    }
}

/// Outside a measuring pass a pointer that owns something in another file is either duplicated
/// there or refused: it is never merely copied, which would give the block a second owner that
/// nobody counted.
pub proof fn law_owning_pointer_is_never_aliased(kind: Kind, file: u64, off: u64, live: bool)
    requires
        kind == Kind::Owned || kind == Kind::Strong || kind == Kind::Weak,
        off != 0,
    ensures
        clone_routed(kind, file, off, false, live) != Ok::<CloneRoute, Error>(CloneRoute::Keep),
{
}

/// What copying a vector asks for.
#[derive(Clone, Copy, Debug, PartialEq, Eq, Structural)]
pub enum ListClone {
    /// Nothing: there is no vector.
    Keep,
    /// Copy its bytes.
    Bytes,
    /// Copy each block that it owns.
    Deep,
    /// Count each strong reference once more.
    Strong,
    /// Count each weak reference once more.
    Weak,
    /// Let the copy refer to the same blocks.
    Alias,
}

/// What copying a vector of elements of this kind asks for, where its bytes are at `data_off`.
pub open spec fn list_clone(kind: Kind, data_off: u64) -> ListClone {
    if data_off == 0 {
        ListClone::Keep
    } else {
        match kind {
            Kind::Pod => ListClone::Bytes,
            Kind::Owned => ListClone::Deep,
            Kind::Strong => ListClone::Strong,
            Kind::Weak => ListClone::Weak,
            _ => ListClone::Alias,
        }
    }
}

/// What copying a vector of elements of this kind asks for. There are no vectors of blocks that
/// lie in one another.
pub fn clone_list(kind: Kind, data_off: u64) -> (r: ListClone)
    requires
        kind != Kind::Embed,
    ensures
        r == list_clone(kind, data_off),
{
    if data_off == 0 {
        return ListClone::Keep;
    }
    match kind {
        Kind::Pod => ListClone::Bytes,
        Kind::Owned => ListClone::Deep,
        Kind::Strong => ListClone::Strong,
        Kind::Weak => ListClone::Weak,
        _ => ListClone::Alias,
    }
}

/// A copy never shares what it owns with the original: of a vector that owns its elements every
/// element is copied or counted.
pub proof fn law_owned_elements_are_not_shared(kind: Kind, data_off: u64)
    requires
        data_off != 0,
        kind == Kind::Owned || kind == Kind::Strong || kind == Kind::Weak,
    ensures
        list_clone(kind, data_off) != ListClone::Alias,
        list_clone(kind, data_off) != ListClone::Bytes,
        list_clone(kind, data_off) != ListClone::Keep,
{
}

} // verus!
