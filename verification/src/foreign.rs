//! Pointers to blocks of other files, and the owners behind them.
use vstd::prelude::*;

use crate::allocator::{
    extends, lemma_extends, lemma_since, since, BStackRaiiAllocator, CounterOp, Event, Settings,
};
use crate::bytes::{
    get_u32_at, get_u64_at, le_bytes, le_value, lemma_le_bytes_len, lemma_le_value_of_bytes,
    lemma_pow256_4_8, u32_le, u64_le,
};
use crate::error::Error;
use crate::handback::IntoLocalError;
use crate::handle::{
    counted_talk, ctrl_talk, read_ctrl_ref, release_strong_talk, release_weak_talk,
    strong_release_ctrl, OwnedRef, StrongRef, WeakRef,
};
use crate::layout::{checked_off, CTRL_WEAK_OFFSET, RC_REFCOUNT_OFFSET};
use crate::owned::BStackOwned;
use crate::range::{BStackRange, FileId};
use crate::refcount::{add_result, fetch_add, step_reply};
use crate::reference::BStackRef;
use crate::registry::{host_id, id_of_host, FileRegistry};
use crate::teardown::{kept, owned_talk, Teardown, TeardownView};
use crate::traits::{BStackBlock, BStackDrop, BStackShared, BStackWeakable};

verus! {

/// A pointer to a block of any file, as it lies on disk.
#[derive(Clone, Copy, Debug, PartialEq, Eq, Structural)]
pub struct WidePtr {
    /// The file; `0` is the file that the pointer lies in.
    pub file: FileId,
    /// The type of the block, if the pointer says it; `0` otherwise.
    pub type_id: u32,
    /// Where the block is in that file; `0` is nowhere.
    pub offset: u64,
}

impl WidePtr {
    /// A pointer that does not say the type.
    pub fn new(file: FileId, offset: u64) -> (r: WidePtr)
        ensures
            r == (WidePtr { file, type_id: 0, offset }),
    {
        WidePtr { file, type_id: 0, offset }
    }

    pub fn with_parts(file: FileId, type_id: u32, offset: u64) -> (r: WidePtr)
        ensures
            r == (WidePtr { file, type_id, offset }),
    {
        WidePtr { file, type_id, offset }
    }

    pub open spec fn spec_is_self(self) -> bool {
        self.file.0 == 0
    }

    /// Whether the pointer leads into the file that it lies in.
    pub fn is_self(&self) -> (r: bool)
        ensures
            r == self.spec_is_self(),
    {
        self.file.0 == 0
    }

    /// Whether the pointer leads nowhere.
    pub fn is_null(&self) -> (r: bool)
        ensures
            r == (self.offset == 0),
    {
        self.offset == 0
    }

    /// The bytes of the pointer on disk.
    pub open spec fn image(self) -> Seq<u8> {
        le_bytes(self.file.0 as nat, 4) + le_bytes(self.type_id as nat, 4) + le_bytes(
            self.offset as nat,
            8,
        )
    }

    /// The bytes of the pointer on disk.
    pub fn to_bytes(&self) -> (r: Vec<u8>)
        ensures
            r@ == self.image(),
            r@.len() == 16,
    {
        let mut out = u32_le(self.file.0);
        out.extend_from_slice(u32_le(self.type_id).as_slice());
        out.extend_from_slice(u64_le(self.offset).as_slice());
        proof {
            lemma_le_bytes_len(self.file.0 as nat, 4);
            lemma_le_bytes_len(self.type_id as nat, 4);
            lemma_le_bytes_len(self.offset as nat, 8);
            assert(out@ =~= self.image());
        }
        out
    }

    /// The pointer that the first 16 bytes of `bytes` hold.
    pub open spec fn parse(bytes: Seq<u8>) -> WidePtr {
        WidePtr {
            file: FileId(le_value(bytes.subrange(0, 4)) as u32),
            type_id: le_value(bytes.subrange(4, 8)) as u32,
            offset: le_value(bytes.subrange(8, 16)) as u64,
        }
    }

    /// The pointer that the first 16 bytes of `bytes` hold.
    pub fn from_bytes(bytes: &[u8]) -> (r: WidePtr)
        requires
            bytes@.len() >= 16,
        ensures
            r == WidePtr::parse(bytes@),
    {
        WidePtr {
            file: FileId(get_u32_at(bytes, 0)),
            type_id: get_u32_at(bytes, 4),
            offset: get_u64_at(bytes, 8),
        }
    }
}

/// A pointer is read back as it was written.
pub proof fn law_wide_pointer_round_trip(p: WidePtr)
    ensures
        p.image().len() == 16,
        WidePtr::parse(p.image()) == p,
{
    let b = p.image();
    lemma_pow256_4_8();
    lemma_le_bytes_len(p.file.0 as nat, 4);
    lemma_le_bytes_len(p.type_id as nat, 4);
    lemma_le_bytes_len(p.offset as nat, 8);
    lemma_le_value_of_bytes(p.file.0 as nat, 4);
    lemma_le_value_of_bytes(p.type_id as nat, 4);
    lemma_le_value_of_bytes(p.offset as nat, 8);
    assert(b.subrange(0, 4) =~= le_bytes(p.file.0 as nat, 4));
    assert(b.subrange(4, 8) =~= le_bytes(p.type_id as nat, 4));
    assert(b.subrange(8, 16) =~= le_bytes(p.offset as nat, 8));
}

/// What a pointer read from the file with the number `home` means elsewhere: a pointer into
/// its own file gets the number of that file, if it has one.
pub open spec fn resolved(p: WidePtr, home: Option<FileId>) -> WidePtr {
    if !p.spec_is_self() || p.offset == 0 {
        p
    } else {
        match home {
            Some(id) => WidePtr { file: id, type_id: p.type_id, offset: p.offset },
            None => p,
        }
    }
}

/// How a pointer is written into the file with the number `home`: without the number, where it
/// leads into that file.
pub open spec fn home_relative(p: WidePtr, home: Option<FileId>) -> WidePtr {
    if p.spec_is_self() {
        p
    } else if home == Some(p.file) {
        WidePtr { file: FileId(0), type_id: p.type_id, offset: p.offset }
    } else {
        p
    }
}

/// What a pointer read from the open file `home` means elsewhere.
pub fn resolve_self_repr<H: BStackRaiiAllocator>(
    repr: WidePtr,
    global: &Option<FileRegistry<H>>,
    home: u64,
) -> (r: WidePtr)
    ensures
        r == resolved(repr, host_id(*global, home)),
{
    if !repr.is_self() || repr.is_null() {
        return repr;
    }
    match id_of_host(global, home) {
        Some(id) => WidePtr::with_parts(id, repr.type_id, repr.offset),
        None => repr,
    }
}

/// How a pointer is written into the open file `home`.
pub fn home_relative_repr<H: BStackRaiiAllocator>(
    repr: WidePtr,
    global: &Option<FileRegistry<H>>,
    home: u64,
) -> (r: WidePtr)
    ensures
        r == home_relative(repr, host_id(*global, home)),
{
    if repr.is_self() {
        return repr;
    }
    if let Some(id) = id_of_host(global, home) {
        if repr.file == id {
            return WidePtr::with_parts(FileId::self_file(), repr.type_id, repr.offset);
        }
    }
    repr
}

/// Writing a pointer where it was read, and reading it where it was written, give it back: for
/// the pointers that are stored in a file, and for the pointers that lead somewhere and name
/// their file. (One that leads nowhere keeps its bytes when it is read.)
pub proof fn law_writing_undoes_reading(p: WidePtr, home: Option<FileId>)
    requires
        home matches Some(id) ==> id.0 != 0,
    ensures
        p.spec_is_self() || home != Some(p.file) ==> home_relative(resolved(p, home), home) == p,
        !p.spec_is_self() && p.offset != 0 ==> resolved(home_relative(p, home), home) == p,
{
}

/// A pointer to a block of type `T` in any file.
pub struct Foreign<T> {
    ptr: WidePtr,
    marker: std::marker::PhantomData<T>,
}

impl<T> View for Foreign<T> {
    type V = WidePtr;

    closed spec fn view(&self) -> WidePtr {
        self.ptr
    }
}

/// Where the block behind a pointer is, once the pointer is resolved.
#[derive(Clone, Copy, Debug, PartialEq, Eq, Structural)]
pub enum Place {
    /// In the file at hand.
    Home,
    /// In this open file.
    File(FileId),
}

/// Where a pointer leads, given which files are open: `None` is nowhere.
pub open spec fn placed(p: WidePtr, live: bool) -> Result<Option<Place>, Error> {
    if p.offset == 0 {
        Ok(None)
    } else if p.spec_is_self() {
        Ok(Some(Place::Home))
    } else if live {
        Ok(Some(Place::File(p.file)))
    } else {
        Err(Error::ForeignNotAttached)
    }
}

/// Whether the file with the number `id` is open.
pub open spec fn open_file<H: BStackRaiiAllocator>(global: Option<FileRegistry<H>>, id: FileId) ->
    bool {
    global matches Some(reg) && reg@.is_live(id)
}

pub(crate) fn is_open<H: BStackRaiiAllocator>(
    global: &Option<FileRegistry<H>>,
    id: FileId,
) -> (r: bool)
    ensures
        r == open_file(*global, id),
{
    match global {
        Some(reg) => reg.is_live(id),
        None => false,
    }
}

impl<T> Foreign<T> {
    /// The pointer that is stored as `repr`.
    pub fn from_repr(repr: WidePtr) -> (r: Foreign<T>)
        ensures
            r@ == repr,
    {
        Foreign { ptr: repr, marker: std::marker::PhantomData }
    }

    /// The pointer to `offset` in `file`; it does not say the type.
    pub fn new(file: FileId, offset: u64) -> (r: Foreign<T>)
        ensures
            r@ == (WidePtr { file, type_id: 0, offset }),
    {
        Foreign { ptr: WidePtr::new(file, offset), marker: std::marker::PhantomData }
    }

    /// The pointer, to be stored.
    pub fn repr(&self) -> (r: WidePtr)
        ensures
            r == self@,
    {
        self.ptr
    }

    /// Where the block is in its file.
    pub fn offset(&self) -> (r: u64)
        ensures
            r == self@.offset,
    {
        self.ptr.offset
    }

    /// Whether the block is in the file at hand.
    pub fn is_self(&self) -> (r: bool)
        ensures
            r == self@.spec_is_self(),
    {
        self.ptr.is_self()
    }

    /// The file of the block.
    pub fn file_id(&self) -> (r: FileId)
        ensures
            r == self@.file,
    {
        self.ptr.file
    }

    /// The pointer free of the file that it was read from: only if it names its file.
    pub fn detach(self) -> (r: Option<Foreign<T>>)
        ensures
            match r {
                Some(f) => !self@.spec_is_self() && f@ == self@,
                None => self@.spec_is_self(),
            },
    {
        if self.ptr.is_self() {
            None
        } else {
            Some(Foreign { ptr: self.ptr, marker: std::marker::PhantomData })
        }
    }
}

impl<T: BStackBlock> Foreign<T> {
    /// The range of the block in its file.
    pub fn range(&self) -> (r: BStackRange)
        ensures
            r == (BStackRange { start: self@.offset, len: T::spec_on_disk_size() }),
    {
        BStackRange::new(self.ptr.offset, T::on_disk_size())
    }

    /// Where the pointer leads: nowhere, to a block of the file at hand, or to a block of an
    /// open file. It fails where it leads to a file that is not open.
    pub fn with<H: BStackRaiiAllocator>(&self, global: &Option<FileRegistry<H>>) -> (r: Result<
        Option<(BStackRange, Place)>,
        Error,
    >)
        ensures
            r == (match placed(self@, open_file(*global, self@.file)) {
                Err(e) => Err::<Option<(BStackRange, Place)>, Error>(e),
                Ok(None) => Ok(None),
                Ok(Some(place)) => Ok(
                    Some(
                        (
                            BStackRange { start: self@.offset, len: T::spec_on_disk_size() },
                            place,
                        ),
                    ),
                ),
            }),
    {
        if self.ptr.offset == 0 {
            return Ok(None);
        }
        let range = self.range();
        if self.ptr.is_self() {
            Ok(Some((range, Place::Home)))
        } else if is_open(global, self.ptr.file) {
            Ok(Some((range, Place::File(self.ptr.file))))
        } else {
            Err(Error::ForeignNotAttached)
        }
    }

    /// The plain reference, valid in the file of the block: only if that is the file at hand,
    /// or open.
    pub fn into_local<H: BStackRaiiAllocator>(self, global: &Option<FileRegistry<H>>) -> (r: Option<
        BStackRef<T>,
    >)
        ensures
            match r {
                Some(x) => (self@.spec_is_self() || open_file(*global, self@.file)) && x@
                    == (BStackRange { start: self@.offset, len: T::spec_on_disk_size() }),
                None => !self@.spec_is_self() && !open_file(*global, self@.file),
            },
    {
        if self.ptr.is_self() || is_open(global, self.ptr.file) {
            Some(BStackRef::from_range(self.range()))
        } else {
            None
        }
    }

    /// The pointer to a block of the file at hand.
    pub fn at(target: &T) -> (r: Foreign<T>)
        ensures
            r@ == (WidePtr {
                file: FileId(0),
                type_id: 0,
                offset: target.spec_range().start,
            }),
    {
        Foreign::new(FileId::self_file(), target.range().start)
    }

    /// The pointer to the block at `slice` of the open file `stack`: only if that file has a
    /// number.
    pub fn from_local<H: BStackRaiiAllocator>(
        slice: BStackRange,
        stack: u64,
        global: &Option<FileRegistry<H>>,
    ) -> (r: Option<Foreign<T>>)
        ensures
            match r {
                Some(f) => host_id(*global, stack) == Some(f@.file) && f@ == (WidePtr {
                    file: f@.file,
                    type_id: 0,
                    offset: slice.start,
                }),
                None => host_id(*global, stack) is None,
            },
    {
        match id_of_host(global, stack) {
            Some(id) => Some(Foreign::new(id, slice.start)),
            None => None,
        }
    }
}

/// An open file, seen as an allocator whose frees are marked with the number of the file.
pub struct ForeignHostAllocator<H: BStackRaiiAllocator> {
    host: H,
    file_id: FileId,
}

impl<H: BStackRaiiAllocator> ForeignHostAllocator<H> {
    /// The settings of an open file, seen from elsewhere.
    pub open spec fn seen(s: Settings, file: FileId) -> Settings {
        Settings { anchor: s.anchor, bulk: false, file, stack: s.stack }
    }

    /// The open file.
    pub closed spec fn host(&self) -> H {
        self.host
    }

    /// The number of the open file.
    pub closed spec fn file(&self) -> FileId {
        self.file_id
    }

    pub fn new(host: H, file_id: FileId) -> (r: ForeignHostAllocator<H>)
        ensures
            r.host() == host,
            r.file() == file_id,
    {
        ForeignHostAllocator { host, file_id }
    }

    /// The open file, once the work is done.
    pub fn into_host(self) -> (r: H)
        ensures
            r == self.host(),
    {
        self.host
    }

    pub proof fn lemma_forwards(&self)
        ensures
            self.trace() == self.host().trace(),
            self.spec_settings() == Self::seen(self.host().spec_settings(), self.file()),
    {
    }
}

impl<H: BStackRaiiAllocator> BStackRaiiAllocator for ForeignHostAllocator<H> {
    closed spec fn trace(&self) -> Seq<Event> {
        self.host.trace()
    }

    closed spec fn spec_settings(&self) -> Settings {
        Self::seen(self.host.spec_settings(), self.file_id)
    }

    fn settings(&self) -> (r: Settings) {
        let s = self.host.settings();
        Settings { anchor: s.anchor, bulk: false, file: self.file_id, stack: s.stack }
    }

    fn get(&mut self, off: u64, len: u64) -> (r: Result<Vec<u8>, Error>)
        ensures
            final(self).file() == old(self).file(),
            final(self).host().spec_settings() == old(self).host().spec_settings(),
    {
        self.host.get(off, len)
    }

    fn set(&mut self, off: u64, bytes: Vec<u8>) -> (r: Result<(), Error>)
        ensures
            final(self).file() == old(self).file(),
            final(self).host().spec_settings() == old(self).host().spec_settings(),
    {
        self.host.set(off, bytes)
    }

    fn set_batched(&mut self, writes: Vec<(u64, Vec<u8>)>) -> (r: Result<(), Error>)
        ensures
            final(self).file() == old(self).file(),
            final(self).host().spec_settings() == old(self).host().spec_settings(),
    {
        self.host.set_batched(writes)
    }

    fn swap(&mut self, off: u64, bytes: Vec<u8>) -> (r: Result<Vec<u8>, Error>)
        ensures
            final(self).file() == old(self).file(),
            final(self).host().spec_settings() == old(self).host().spec_settings(),
    {
        self.host.swap(off, bytes)
    }

    fn copy(&mut self, from: u64, to: u64, len: u64) -> (r: Result<(), Error>)
        ensures
            final(self).file() == old(self).file(),
            final(self).host().spec_settings() == old(self).host().spec_settings(),
    {
        self.host.copy(from, to, len)
    }

    fn process(&mut self, off: u64, op: CounterOp) -> (r: Result<u64, Error>)
        ensures
            final(self).file() == old(self).file(),
            final(self).host().spec_settings() == old(self).host().spec_settings(),
    {
        self.host.process(off, op)
    }

    fn cas(&mut self, off: u64, expected: u64, new: u64) -> (r: Result<bool, Error>)
        ensures
            final(self).file() == old(self).file(),
            final(self).host().spec_settings() == old(self).host().spec_settings(),
    {
        self.host.cas(off, expected, new)
    }

    fn alloc_range(&mut self, len: u64) -> (r: Result<BStackRange, Error>)
        ensures
            final(self).file() == old(self).file(),
            final(self).host().spec_settings() == old(self).host().spec_settings(),
    {
        self.host.alloc_range(len)
    }

    fn dealloc(&mut self, range: BStackRange) -> (r: Result<(), Error>)
        ensures
            final(self).file() == old(self).file(),
            final(self).host().spec_settings() == old(self).host().spec_settings(),
    {
        self.host.dealloc(range)
    }

    fn alloc_bulk(&mut self, lens: Vec<u64>) -> (r: Result<Vec<BStackRange>, Error>)
        ensures
            final(self).file() == old(self).file(),
            final(self).host().spec_settings() == old(self).host().spec_settings(),
    {
        self.host.alloc_bulk(lens)
    }

    fn dealloc_bulk(&mut self, ranges: Vec<BStackRange>) -> (r: Result<(), Error>)
        ensures
            final(self).file() == old(self).file(),
            final(self).host().spec_settings() == old(self).host().spec_settings(),
    {
        self.host.dealloc_bulk(ranges)
    }

    fn host_dealloc(&mut self, file: FileId, range: BStackRange) -> (r: Option<Result<(), Error>>)
        ensures
            final(self).file() == old(self).file(),
            final(self).host().spec_settings() == old(self).host().spec_settings(),
    {
        self.host.host_dealloc(file, range)
    }
}

/// Where the work on the block behind a pointer is done.
#[derive(Clone, Copy, Debug, PartialEq, Eq, Structural)]
pub enum Route {
    /// Nowhere: there is no block, or its file is not open. What it holds is left alone.
    Skip,
    /// In the file at hand.
    Home,
    /// In this open file.
    Host(FileId),
}

/// Where the block behind `p` is released, where `live` says whether its file is open.
pub open spec fn drop_route(p: WidePtr, live: bool) -> Route {
    if p.offset == 0 {
        Route::Skip
    } else if p.spec_is_self() {
        Route::Home
    } else if live {
        Route::Host(p.file)
    } else {
        Route::Skip
    }
}

/// Where the block behind `p` is released.
pub fn route_drop<H: BStackRaiiAllocator>(p: WidePtr, global: &Option<FileRegistry<H>>) -> (r: Route)
    ensures
        r == drop_route(p, open_file(*global, p.file)),
{
    if p.offset == 0 {
        Route::Skip
    } else if p.is_self() {
        Route::Home
    } else if is_open(global, p.file) {
        Route::Host(p.file)
    } else {
        Route::Skip
    }
}

/// Whether of two states of the registry only the open file with the number `id` differs, and
/// that only by what was asked of it.
pub open spec fn only_host<H: BStackRaiiAllocator>(
    before: Option<FileRegistry<H>>,
    new: Option<FileRegistry<H>>,
    id: FileId,
) -> bool {
    match (before, new) {
        (Some(b), Some(n)) => {
            let i = id.0 - 1;
            &&& n@ == b@
            &&& n.hosts().len() == b.hosts().len()
            &&& forall|k: int|
                0 <= k < b.hosts().len() && k != i ==> #[trigger] n.hosts()[k] == b.hosts()[k]
            &&& b.hosts()[i] matches Some(h)
            &&& n.hosts()[i] matches Some(g)
            &&& extends(h.trace(), g.trace())
        },
        _ => false,
    }
}

/// What was asked of the open file with the number `id`.
pub open spec fn host_said<H: BStackRaiiAllocator>(
    before: Option<FileRegistry<H>>,
    new: Option<FileRegistry<H>>,
    id: FileId,
) -> Seq<Event> {
    since(before->0.hosts()[id.0 - 1]->0.trace(), new->0.hosts()[id.0 - 1]->0.trace())
}

/// Release the block at `offset`, and all that it owns, in the file of `a`.
pub fn foreign_drop_owned<T: BStackBlock, A: BStackRaiiAllocator>(
    ctx: &mut Teardown,
    a: &mut A,
    offset: u64,
) -> (r: Result<(), Error>)
    ensures
        final(a).spec_settings() == old(a).spec_settings(),
        extends(old(a).trace(), final(a).trace()),
        kept(old(ctx)@, final(ctx)@),
        owned_talk::<T>(
            BStackRange { start: offset, len: T::spec_on_disk_size() },
            old(ctx)@,
            final(ctx)@,
            old(a).spec_settings(),
            since(old(a).trace(), final(a).trace()),
            r,
        ),
{
    let child: BStackRef<T> = BStackRef::from_range(BStackRange::new(offset, T::on_disk_size()));
    OwnedRef::new(child).bstack_drop(ctx, a)
}

/// The conversation that finds the counter of a counted block: the control block, if there is
/// one.
pub open spec fn parts_talk<T: BStackShared>(
    data: BStackRange,
    t: Seq<Event>,
    r: Result<Option<BStackRange>, Error>,
) -> bool {
    match T::spec_control() {
        None => t.len() == 0 && r == Ok::<Option<BStackRange>, Error>(None),
        Some(size) => match r {
            Ok(Some(c)) => ctrl_talk(data, size, t, Ok(c)),
            Ok(None) => false,
            Err(e) => ctrl_talk(data, size, t, Err(e)),
        },
    }
}

/// Where the control block of the counted block at `data` is, if it has one.
pub fn strong_parts<T: BStackShared, A: BStackRaiiAllocator>(a: &mut A, data: BStackRange) -> (r:
    Result<Option<BStackRange>, Error>)
    ensures
        final(a).spec_settings() == old(a).spec_settings(),
        extends(old(a).trace(), final(a).trace()),
        parts_talk::<T>(data, since(old(a).trace(), final(a).trace()), r),
{
    proof {
        lemma_since(a.trace(), Seq::empty());
        assert(a.trace() + Seq::empty() =~= a.trace());
    }
    match T::control() {
        None => Ok(None),
        Some(size) => match read_ctrl_ref(a, data, size) {
            Ok(c) => Ok(Some(c)),
            Err(e) => Err(e),
        },
    }
}

/// The conversation that releases one strong reference to the counted block at `data`.
pub open spec fn strong_drop_talk<T: BStackShared>(
    data: BStackRange,
    before: TeardownView,
    new: TeardownView,
    s: Settings,
    t: Seq<Event>,
    r: Result<(), Error>,
) -> bool {
    match T::spec_control() {
        None => counted_talk::<T>(data, before, new, s, t, r),
        Some(_) => exists|found: Result<Option<BStackRange>, Error>, k: int| #[trigger]
            counted_drop_talk::<T>(data, before, new, s, t, r, found, k),
    }
}

/// Release one strong reference to the block at `offset` in the file of `a`; the last takes
/// the block with it.
pub fn foreign_drop_strong<T: BStackShared, A: BStackRaiiAllocator>(
    ctx: &mut Teardown,
    a: &mut A,
    offset: u64,
) -> (r: Result<(), Error>)
    ensures
        final(a).spec_settings() == old(a).spec_settings(),
        extends(old(a).trace(), final(a).trace()),
        kept(old(ctx)@, final(ctx)@),
        strong_drop_talk::<T>(
            BStackRange { start: offset, len: T::spec_on_disk_size() },
            old(ctx)@,
            final(ctx)@,
            old(a).spec_settings(),
            since(old(a).trace(), final(a).trace()),
            r,
        ),
{
    let data = BStackRange::new(offset, T::on_disk_size());
    let ghost before = a.trace();
    let ghost was = ctx@;
    let ghost s = a.spec_settings();
    assert(was.sink matches Some(k) ==> k.1.take(k.1.len() as int) =~= k.1);
    let found = strong_parts::<T, A>(a, data);
    let ghost mid = a.trace();
    let ghost t1 = since(before, mid);
    proof {
        lemma_extends(before, mid);
        assert(t1.take(t1.len() as int) =~= t1);
    }
    match found {
        Err(e) => {
            assert(counted_drop_talk::<T>(
                data,
                was,
                ctx@,
                s,
                t1,
                Err(e),
                found,
                t1.len() as int,
            ));
            Err(e)
        },
        Ok(None) => {
            let one: BStackRef<T> = BStackRef::from_range(data);
            assert(mid =~= before);
            proof {
                lemma_since(before, Seq::empty());
                assert(before + Seq::empty() =~= before);
            }
            StrongRef::new(one).bstack_drop(ctx, a)
        },
        Ok(Some(ctrl)) => {
            let r = strong_release_ctrl::<T, A>(ctx, a, data, ctrl);
            proof {
                lemma_extends(mid, a.trace());
                let t2 = since(mid, a.trace());
                assert(a.trace() =~= before + (t1 + t2));
                lemma_since(before, t1 + t2);
                assert((t1 + t2).take(t1.len() as int) =~= t1);
                assert((t1 + t2).skip(t1.len() as int) =~= t2);
                assert(counted_drop_talk::<T>(
                    data,
                    was,
                    ctx@,
                    s,
                    t1 + t2,
                    r,
                    found,
                    t1.len() as int,
                ));
            }
            r
        },
    }
}

/// The conversation that releases a strong reference to a block with a control block: find
/// the control block, then release.
pub open spec fn counted_drop_talk<T: BStackShared>(
    data: BStackRange,
    before: TeardownView,
    new: TeardownView,
    s: Settings,
    t: Seq<Event>,
    r: Result<(), Error>,
    found: Result<Option<BStackRange>, Error>,
    k: int,
) -> bool {
    &&& 0 <= k <= t.len()
    &&& parts_talk::<T>(data, t.take(k), found)
    &&& match found {
        Err(e) => k == t.len() && new == before && r == Err::<(), Error>(e),
        Ok(None) => true,
        Ok(Some(ctrl)) => release_strong_talk::<T>(data, ctrl, before, new, s, t.skip(k), r),
    }
}

/// Release one weak reference in the control block at `ctrl_offset` in the file of `a`.
pub fn foreign_drop_weak<T: BStackWeakable, A: BStackRaiiAllocator>(
    ctx: &mut Teardown,
    a: &mut A,
    ctrl_offset: u64,
) -> (r: Result<(), Error>)
    ensures
        final(a).spec_settings() == old(a).spec_settings(),
        extends(old(a).trace(), final(a).trace()),
        kept(old(ctx)@, final(ctx)@),
        release_weak_talk(
            BStackRange { start: ctrl_offset, len: T::spec_control_size() },
            old(ctx)@,
            final(ctx)@,
            old(a).spec_settings(),
            since(old(a).trace(), final(a).trace()),
            r,
        ),
{
    let weak: WeakRef<T> = WeakRef::new(BStackRange::new(ctrl_offset, T::control_size()));
    weak.bstack_drop(ctx, a)
}

/// The sole owner of a block of any file.
pub struct ForeignOwned<T> {
    ptr: Foreign<T>,
}

/// One of the owners of a counted block of any file.
pub struct ForeignRc<T> {
    ptr: Foreign<T>,
}

/// A weak reference to a block of any file; the pointer leads to the control block.
pub struct ForeignWeak<T> {
    ptr: Foreign<T>,
}

impl<T> View for ForeignOwned<T> {
    type V = WidePtr;

    closed spec fn view(&self) -> WidePtr {
        self.ptr@
    }
}

impl<T> View for ForeignRc<T> {
    type V = WidePtr;

    closed spec fn view(&self) -> WidePtr {
        self.ptr@
    }
}

impl<T> View for ForeignWeak<T> {
    type V = WidePtr;

    closed spec fn view(&self) -> WidePtr {
        self.ptr@
    }
}

impl<T> ForeignOwned<T> {
    /// The owner behind `ptr`, which the caller says it is.
    pub fn from_foreign(ptr: Foreign<T>) -> (r: ForeignOwned<T>)
        ensures
            r@ == ptr@,
    {
        ForeignOwned { ptr }
    }

    /// The pointer, on loan.
    pub fn as_foreign(&self) -> (r: &Foreign<T>)
        ensures
            r@ == self@,
    {
        &self.ptr
    }

    /// The pointer; the ownership goes to wherever it is stored next.
    pub fn into_foreign(self) -> (r: Foreign<T>)
        ensures
            r@ == self@,
    {
        self.ptr
    }

    /// Whether the block is in the file at hand.
    pub fn is_self(&self) -> (r: bool)
        ensures
            r == self@.spec_is_self(),
    {
        self.ptr.is_self()
    }
}

impl<T> ForeignRc<T> {
    /// The strong reference behind `ptr`, which the caller says it is.
    pub fn from_foreign(ptr: Foreign<T>) -> (r: ForeignRc<T>)
        ensures
            r@ == ptr@,
    {
        ForeignRc { ptr }
    }

    /// The pointer, on loan.
    pub fn as_foreign(&self) -> (r: &Foreign<T>)
        ensures
            r@ == self@,
    {
        &self.ptr
    }

    /// The pointer; the reference goes to wherever it is stored next.
    pub fn into_foreign(self) -> (r: Foreign<T>)
        ensures
            r@ == self@,
    {
        self.ptr
    }

    /// Whether the block is in the file at hand.
    pub fn is_self(&self) -> (r: bool)
        ensures
            r == self@.spec_is_self(),
    {
        self.ptr.is_self()
    }
}

impl<T> ForeignWeak<T> {
    /// The weak reference behind `ptr`, which the caller says it is.
    pub fn from_foreign(ptr: Foreign<T>) -> (r: ForeignWeak<T>)
        ensures
            r@ == ptr@,
    {
        ForeignWeak { ptr }
    }

    /// The pointer, on loan.
    pub fn as_foreign(&self) -> (r: &Foreign<T>)
        ensures
            r@ == self@,
    {
        &self.ptr
    }

    /// The pointer; the reference goes to wherever it is stored next.
    pub fn into_foreign(self) -> (r: Foreign<T>)
        ensures
            r@ == self@,
    {
        self.ptr
    }

    /// Whether the block is in the file at hand.
    pub fn is_self(&self) -> (r: bool)
        ensures
            r == self@.spec_is_self(),
    {
        self.ptr.is_self()
    }
}

/// What a release by route leaves alone: with no block, everything; in the file at hand, the
/// other open files; in an open file, the file at hand and all others.
pub open spec fn routed<A: BStackRaiiAllocator, H: BStackRaiiAllocator>(
    route: Route,
    before: TeardownView,
    new: TeardownView,
    home: A,
    new_home: A,
    global: Option<FileRegistry<H>>,
    new_global: Option<FileRegistry<H>>,
    r: Result<(), Error>,
) -> bool {
    match route {
        Route::Skip => new == before && new_home == home && new_global == global && r == Ok::<
            (),
            Error,
        >(()),
        Route::Home => new_home.spec_settings() == home.spec_settings() && extends(
            home.trace(),
            new_home.trace(),
        ) && new_global == global,
        Route::Host(id) => new_home == home && only_host(global, new_global, id),
    }
}

/// Put the open file with the number `id` back, after work that only asked things of it.
pub(crate) fn done_with<H: BStackRaiiAllocator>(
    reg: &mut FileRegistry<H>,
    id: FileId,
    adapter: ForeignHostAllocator<H>,
    Ghost(before): Ghost<FileRegistry<H>>,
    Ghost(host): Ghost<H>,
)
    requires
        1 <= id.0 <= before.hosts().len(),
        before.hosts()[id.0 - 1] == Some(host),
        old(reg).hosts() == before.hosts().update(id.0 - 1, None),
        old(reg)@.seps == before@.seps,
        old(reg)@.paths == before@.paths,
        old(reg)@.by_stack == before@.by_stack,
        adapter.spec_settings() == ForeignHostAllocator::<H>::seen(host.spec_settings(), id),
        extends(host.trace(), adapter.trace()),
    ensures
        only_host(Some(before), Some(*final(reg)), id),
        final(reg).hosts()[id.0 - 1]->0.trace() == adapter.trace(),
{
    proof {
        adapter.lemma_forwards();
    }
    let ghost trace = adapter.trace();
    let g = adapter.into_host();
    reg.give_back(id, g);
    proof {
        before.lemma_live_is_keys();
        reg.lemma_live_is_keys();
        assert(reg@.live =~= before@.live);
        assert(reg@ == before@);
    }
}

impl<T: BStackBlock> ForeignOwned<T> {
    /// Where the block is: see [`Foreign::with`].
    pub fn with<H: BStackRaiiAllocator>(&self, global: &Option<FileRegistry<H>>) -> (r: Result<
        Option<(BStackRange, Place)>,
        Error,
    >)
        ensures
            r == (match placed(self@, open_file(*global, self@.file)) {
                Err(e) => Err::<Option<(BStackRange, Place)>, Error>(e),
                Ok(None) => Ok(None),
                Ok(Some(place)) => Ok(
                    Some(
                        (
                            BStackRange { start: self@.offset, len: T::spec_on_disk_size() },
                            place,
                        ),
                    ),
                ),
            }),
    {
        self.ptr.with(global)
    }

    /// Release the block, and all that it owns, in its own file.
    pub fn bstack_drop<A: BStackRaiiAllocator, H: BStackRaiiAllocator>(
        self,
        ctx: &mut Teardown,
        home: &mut A,
        global: &mut Option<FileRegistry<H>>,
    ) -> (r: Result<(), Error>)
        ensures
            kept(old(ctx)@, final(ctx)@),
            routed(
                drop_route(self@, open_file(*old(global), self@.file)),
                old(ctx)@,
                final(ctx)@,
                *old(home),
                *final(home),
                *old(global),
                *final(global),
                r,
            ),
            drop_route(self@, open_file(*old(global), self@.file)) is Home ==> owned_talk::<T>(
                BStackRange { start: self@.offset, len: T::spec_on_disk_size() },
                old(ctx)@,
                final(ctx)@,
                old(home).spec_settings(),
                since(old(home).trace(), final(home).trace()),
                r,
            ),
            drop_route(self@, open_file(*old(global), self@.file)) matches Route::Host(id)
                ==> owned_talk::<T>(
                BStackRange { start: self@.offset, len: T::spec_on_disk_size() },
                old(ctx)@,
                final(ctx)@,
                ForeignHostAllocator::<H>::seen(
                    old(global)->0.hosts()[id.0 - 1]->0.spec_settings(),
                    id,
                ),
                host_said(*old(global), *final(global), id),
                r,
            ),
    {
        let p = self.ptr.repr();
        let ghost was = ctx@;
        assert(was.sink matches Some(k) ==> k.1.take(k.1.len() as int) =~= k.1);
        match route_drop(p, global) {
            Route::Skip => Ok(()),
            Route::Home => foreign_drop_owned::<T, A>(ctx, home, p.offset),
            Route::Host(id) => match global {
                None => Ok(()),
                Some(reg) => {
                    let ghost before = *reg;
                    match reg.lend(id) {
                        None => Ok(()),
                        Some(host) => {
                            let ghost h = host;
                            let mut adapter = ForeignHostAllocator::new(host, id);
                            proof {
                                adapter.lemma_forwards();
                            }
                            let r = foreign_drop_owned::<T, ForeignHostAllocator<H>>(
                                ctx,
                                &mut adapter,
                                p.offset,
                            );
                            done_with(reg, id, adapter, Ghost(before), Ghost(h));
                            r
                        },
                    }
                },
            },
        }
    }
}

impl<T: BStackShared> ForeignRc<T> {
    /// Where the block is: see [`Foreign::with`].
    pub fn with<H: BStackRaiiAllocator>(&self, global: &Option<FileRegistry<H>>) -> (r: Result<
        Option<(BStackRange, Place)>,
        Error,
    >)
        ensures
            r == (match placed(self@, open_file(*global, self@.file)) {
                Err(e) => Err::<Option<(BStackRange, Place)>, Error>(e),
                Ok(None) => Ok(None),
                Ok(Some(place)) => Ok(
                    Some(
                        (
                            BStackRange { start: self@.offset, len: T::spec_on_disk_size() },
                            place,
                        ),
                    ),
                ),
            }),
    {
        self.ptr.with(global)
    }

    /// Release the strong reference in the file of the block; the last takes the block with
    /// it.
    pub fn bstack_drop<A: BStackRaiiAllocator, H: BStackRaiiAllocator>(
        self,
        ctx: &mut Teardown,
        home: &mut A,
        global: &mut Option<FileRegistry<H>>,
    ) -> (r: Result<(), Error>)
        ensures
            kept(old(ctx)@, final(ctx)@),
            routed(
                drop_route(self@, open_file(*old(global), self@.file)),
                old(ctx)@,
                final(ctx)@,
                *old(home),
                *final(home),
                *old(global),
                *final(global),
                r,
            ),
            drop_route(self@, open_file(*old(global), self@.file)) is Home ==> strong_drop_talk::<
                T,
            >(
                BStackRange { start: self@.offset, len: T::spec_on_disk_size() },
                old(ctx)@,
                final(ctx)@,
                old(home).spec_settings(),
                since(old(home).trace(), final(home).trace()),
                r,
            ),
            drop_route(self@, open_file(*old(global), self@.file)) matches Route::Host(id)
                ==> strong_drop_talk::<T>(
                BStackRange { start: self@.offset, len: T::spec_on_disk_size() },
                old(ctx)@,
                final(ctx)@,
                ForeignHostAllocator::<H>::seen(
                    old(global)->0.hosts()[id.0 - 1]->0.spec_settings(),
                    id,
                ),
                host_said(*old(global), *final(global), id),
                r,
            ),
    {
        let p = self.ptr.repr();
        let ghost was = ctx@;
        assert(was.sink matches Some(k) ==> k.1.take(k.1.len() as int) =~= k.1);
        match route_drop(p, global) {
            Route::Skip => Ok(()),
            Route::Home => foreign_drop_strong::<T, A>(ctx, home, p.offset),
            Route::Host(id) => match global {
                None => Ok(()),
                Some(reg) => {
                    let ghost before = *reg;
                    match reg.lend(id) {
                        None => Ok(()),
                        Some(host) => {
                            let ghost h = host;
                            let mut adapter = ForeignHostAllocator::new(host, id);
                            proof {
                                adapter.lemma_forwards();
                            }
                            let r = foreign_drop_strong::<T, ForeignHostAllocator<H>>(
                                ctx,
                                &mut adapter,
                                p.offset,
                            );
                            done_with(reg, id, adapter, Ghost(before), Ghost(h));
                            r
                        },
                    }
                },
            },
        }
    }

    /// The strong reference as one in the file of `target`: where the data block and the
    /// control block, if there is one, are. The handle is given back where the control block
    /// cannot be read.
    pub fn into_local<A: BStackRaiiAllocator>(self, target: &mut A) -> (r: Result<
        (BStackRange, Option<BStackRange>),
        IntoLocalError<ForeignRc<T>>,
    >)
        ensures
            final(target).spec_settings() == old(target).spec_settings(),
            extends(old(target).trace(), final(target).trace()),
            parts_talk::<T>(
                BStackRange { start: self@.offset, len: T::spec_on_disk_size() },
                since(old(target).trace(), final(target).trace()),
                match r {
                    Ok(x) => Ok(x.1),
                    Err(e) => Err(e.source),
                },
            ),
            match r {
                Ok(x) => x.0 == (BStackRange {
                    start: self@.offset,
                    len: T::spec_on_disk_size(),
                }),
                Err(e) => e.handle == self,
            },
    {
        let data = self.ptr.range();
        match strong_parts::<T, A>(target, data) {
            Ok(ctrl) => Ok((data, ctrl)),
            Err(e) => Err(IntoLocalError::recovered(e, self)),
        }
    }
}

impl<T: BStackWeakable> ForeignWeak<T> {
    /// Release the weak reference in the file of the control block.
    pub fn bstack_drop<A: BStackRaiiAllocator, H: BStackRaiiAllocator>(
        self,
        ctx: &mut Teardown,
        home: &mut A,
        global: &mut Option<FileRegistry<H>>,
    ) -> (r: Result<(), Error>)
        ensures
            kept(old(ctx)@, final(ctx)@),
            routed(
                drop_route(self@, open_file(*old(global), self@.file)),
                old(ctx)@,
                final(ctx)@,
                *old(home),
                *final(home),
                *old(global),
                *final(global),
                r,
            ),
            drop_route(self@, open_file(*old(global), self@.file)) is Home ==> release_weak_talk(
                BStackRange { start: self@.offset, len: T::spec_control_size() },
                old(ctx)@,
                final(ctx)@,
                old(home).spec_settings(),
                since(old(home).trace(), final(home).trace()),
                r,
            ),
            drop_route(self@, open_file(*old(global), self@.file)) matches Route::Host(id)
                ==> release_weak_talk(
                BStackRange { start: self@.offset, len: T::spec_control_size() },
                old(ctx)@,
                final(ctx)@,
                ForeignHostAllocator::<H>::seen(
                    old(global)->0.hosts()[id.0 - 1]->0.spec_settings(),
                    id,
                ),
                host_said(*old(global), *final(global), id),
                r,
            ),
    {
        let p = self.ptr.repr();
        let ghost was = ctx@;
        assert(was.sink matches Some(k) ==> k.1.take(k.1.len() as int) =~= k.1);
        match route_drop(p, global) {
            Route::Skip => Ok(()),
            Route::Home => foreign_drop_weak::<T, A>(ctx, home, p.offset),
            Route::Host(id) => match global {
                None => Ok(()),
                Some(reg) => {
                    let ghost before = *reg;
                    match reg.lend(id) {
                        None => Ok(()),
                        Some(host) => {
                            let ghost h = host;
                            let mut adapter = ForeignHostAllocator::new(host, id);
                            proof {
                                adapter.lemma_forwards();
                            }
                            let r = foreign_drop_weak::<T, ForeignHostAllocator<H>>(
                                ctx,
                                &mut adapter,
                                p.offset,
                            );
                            done_with(reg, id, adapter, Ghost(before), Ghost(h));
                            r
                        },
                    }
                },
            },
        }
    }

    /// The weak reference as one in the file of the control block.
    pub fn into_local(self) -> (r: WeakRef<T>)
        ensures
            r@ == (BStackRange { start: self@.offset, len: T::spec_control_size() }),
    {
        WeakRef::new(BStackRange::new(self.ptr.offset(), T::control_size()))
    }
}

/// The number of the file of an allocator: the one it marks frees with, or else the one that
/// its stack has in the registry.
pub open spec fn target_id<H: BStackRaiiAllocator>(
    s: Settings,
    global: Option<FileRegistry<H>>,
) -> Option<FileId> {
    if s.file.spec_is_self() {
        host_id(global, s.stack)
    } else {
        Some(s.file)
    }
}

impl<T: BStackBlock> ForeignOwned<T> {
    /// The owner as one in the file of `target`. Where the pointer names its file that has to
    /// be the file of `target`; the handle is given back otherwise.
    pub fn into_local<A: BStackRaiiAllocator, H: BStackRaiiAllocator>(
        self,
        target: &A,
        global: &Option<FileRegistry<H>>,
    ) -> (r: Result<BStackOwned<T>, IntoLocalError<ForeignOwned<T>>>)
        ensures
            match r {
                Ok(owned) => {
                    &&& self@.spec_is_self() || target_id(target.spec_settings(), *global) == Some(
                        self@.file,
                    )
                    &&& owned.inner().spec_range() == (BStackRange {
                        start: self@.offset,
                        len: T::spec_on_disk_size(),
                    })
                },
                Err(e) => {
                    &&& !self@.spec_is_self()
                    &&& target_id(target.spec_settings(), *global) != Some(self@.file)
                    &&& e.source == Error::ForeignHomeMismatch
                    &&& e.handle == self
                },
            },
    {
        let p = self.ptr.repr();
        if !p.is_self() {
            let s = target.settings();
            let id: Option<FileId> = if s.file.is_self() {
                id_of_host(global, s.stack)
            } else {
                Some(s.file)
            };
            let mine: bool = match id {
                Some(x) => x == p.file,
                None => false,
            };
            if !mine {
                return Err(IntoLocalError::recovered(Error::ForeignHomeMismatch, self));
            }
        }
        Ok(BStackOwned::from_raw(T::from_range(self.ptr.range())))
    }
}

/// The conversation that counts one more strong reference to the counted block at `data`.
pub open spec fn clone_strong_talk<T: BStackShared>(
    data: BStackRange,
    t: Seq<Event>,
    r: Result<(), Error>,
    found: Result<Option<BStackRange>, Error>,
    k: int,
) -> bool {
    &&& 0 <= k <= t.len()
    &&& parts_talk::<T>(data, t.take(k), found)
    &&& match found {
        Err(e) => k == t.len() && r == Err::<(), Error>(e),
        Ok(ctrl) => add_one_talk(
            match ctrl {
                Some(c) => c.start,
                None => data.start,
            },
            16,
            t.skip(k),
            r,
        ),
    }
}

/// The conversation that adds one to the counter at `base + delta`.
pub open spec fn add_one_talk(base: u64, delta: u64, t: Seq<Event>, r: Result<(), Error>) -> bool {
    match crate::handle::counter_offset(base, delta) {
        Err(e) => t.len() == 0 && r == Err::<(), Error>(e),
        Ok(off) => {
            &&& t.len() == 1
            &&& t[0] == (Event::Process { off, op: CounterOp::Add(1), reply: step_reply(t) })
            &&& r == match add_result(step_reply(t), 1) {
                Ok(_) => Ok::<(), Error>(()),
                Err(e) => Err(e),
            }
        },
    }
}

/// Add one to the counter at `base + delta`.
fn add_one<A: BStackRaiiAllocator>(a: &mut A, base: u64, delta: u64) -> (r: Result<(), Error>)
    ensures
        final(a).spec_settings() == old(a).spec_settings(),
        extends(old(a).trace(), final(a).trace()),
        add_one_talk(base, delta, since(old(a).trace(), final(a).trace()), r),
{
    let ghost before = a.trace();
    proof {
        lemma_since(before, Seq::empty());
        assert(before + Seq::empty() =~= before);
    }
    let off: u64 = match checked_off(base, delta) {
        Err(e) => {
            return Err(e);
        },
        Ok(off) => off,
    };
    let added = fetch_add(a, off, 1);
    proof {
        if off + 8 <= u64::MAX {
            let t = seq![a.trace().last()];
            assert(a.trace() =~= before + t);
            lemma_since(before, t);
        }
    }
    match added {
        Ok(_) => Ok(()),
        Err(e) => Err(e),
    }
}

/// Count one more strong reference to the block at `offset` in the file of `a`.
pub fn foreign_clone_strong<T: BStackShared, A: BStackRaiiAllocator>(a: &mut A, offset: u64) -> (r:
    Result<(), Error>)
    ensures
        final(a).spec_settings() == old(a).spec_settings(),
        extends(old(a).trace(), final(a).trace()),
        exists|found: Result<Option<BStackRange>, Error>, k: int| #[trigger]
            clone_strong_talk::<T>(
                BStackRange { start: offset, len: T::spec_on_disk_size() },
                since(old(a).trace(), final(a).trace()),
                r,
                found,
                k,
            ),
{
    let data = BStackRange::new(offset, T::on_disk_size());
    let ghost before = a.trace();
    let found = strong_parts::<T, A>(a, data);
    let ghost mid = a.trace();
    let ghost t1 = since(before, mid);
    proof {
        lemma_extends(before, mid);
        assert(t1.take(t1.len() as int) =~= t1);
    }
    let base: u64 = match found {
        Err(e) => {
            assert(clone_strong_talk::<T>(data, t1, Err(e), found, t1.len() as int));
            return Err(e);
        },
        Ok(None) => data.start,
        Ok(Some(c)) => c.start,
    };
    let r = add_one(a, base, RC_REFCOUNT_OFFSET);
    proof {
        lemma_extends(mid, a.trace());
        let t2 = since(mid, a.trace());
        assert(a.trace() =~= before + (t1 + t2));
        lemma_since(before, t1 + t2);
        assert((t1 + t2).take(t1.len() as int) =~= t1);
        assert((t1 + t2).skip(t1.len() as int) =~= t2);
        assert(clone_strong_talk::<T>(data, t1 + t2, r, found, t1.len() as int));
    }
    r
}

/// Count one more weak reference in the control block at `ctrl_offset` in the file of `a`.
pub fn foreign_clone_weak<A: BStackRaiiAllocator>(a: &mut A, ctrl_offset: u64) -> (r: Result<
    (),
    Error,
>)
    ensures
        final(a).spec_settings() == old(a).spec_settings(),
        extends(old(a).trace(), final(a).trace()),
        add_one_talk(ctrl_offset, 24, since(old(a).trace(), final(a).trace()), r),
{
    add_one(a, ctrl_offset, CTRL_WEAK_OFFSET)
}

} // verus!
