use bstack_raii::allocator::{BStackRaiiAllocator, CounterOp, Settings};
use bstack_raii::bulk::{
    alloc_many, bulk_alloc_many, bulk_free_many, free_many, seq_alloc_many, seq_free_many,
    FreeManyError,
};
use bstack_raii::bytes::{get_u32_at, get_u64, get_u64_at, u32_le};
use bstack_raii::cast::{BStackCastAs, BStackCastInto};
use bstack_raii::construct::{
    build_block, build_pair, conclude_construction, set_weak_field, upgrade_weak_field, Built,
};
use bstack_raii::derive::kind::{Kind, Mode};
use bstack_raii::duplicate::{
    clone_field, clone_list, clone_owned_ptr, clone_route, clone_strong_ptr, clone_weak_ptr,
    foreign_clone_owned, store_copy, CloneRoute, HomeClone, ListClone, TryCloneIn,
};
use bstack_raii::embed::{embed_children, Move};
use bstack_raii::error::{Error, ErrorKind};
use bstack_raii::fields::{
    drop_owned_field, drop_strong_field, drop_weak_field, has_list, move_strong_field,
    move_weak_field, take_block, take_fields, StrongField,
};
use bstack_raii::foreign::{
    home_relative_repr, resolve_self_repr, route_drop, Foreign, ForeignHostAllocator, ForeignOwned,
    ForeignRc, ForeignWeak, Place, Route, WidePtr,
};
use bstack_raii::handback::{CastError, ConstructError, HandBack, IntoLocalError, ReplaceError};
use bstack_raii::handle::{OwnedRef, StrongRef, StrongWeakRef, WeakRef};
use bstack_raii::layout::{alloc_block, build_control_payload, checked_off, BlockHeader, EightCC};
use bstack_raii::mem::MemAllocator;
use bstack_raii::nested::{dims_prod, nested_build, nested_consume, Nest};
use bstack_raii::owned::{BStackOwned, BStackOwnedSlice};
use bstack_raii::path::Separators;
use bstack_raii::range::{BStackRange, FileId};
use bstack_raii::refcount::{cas, fetch_add, fetch_sub, increment_if_nonzero, load};
use bstack_raii::reference::BStackRef;
use bstack_raii::registry::{self, FileRegistry};
use bstack_raii::slot::{
    get_field, get_pod, replace_all, replace_at, replace_field, replace_foreign, replace_strong,
    replace_strong_at, set_all, set_at, set_foreign, set_pod, set_ref, ArrayField, Strong,
};
use bstack_raii::strongs::replace_strong_all;
use bstack_raii::teardown::{commit_frees, dealloc_range, drop_block, wal_teardown, Teardown};
use bstack_raii::traits::{BStackBlock, BStackCast, BStackDrop, BStackShared, BStackWeakable};

fn settings(stack: u64) -> Settings {
    Settings { anchor: Some(8), bulk: false, file: FileId::self_file(), stack }
}

fn file() -> MemAllocator {
    MemAllocator::new(settings(1), 64, 1 << 20)
}

/// A plain block with one number.
struct Leaf(BStackRange);

/// A plain block that owns a leaf.
struct Node(BStackRange);

/// A counted block.
struct Shared(BStackRange);

/// A counted block with weak references.
struct Watched(BStackRange);

struct WatchedControl;

impl BStackCast for Leaf {
    fn eightcc() -> EightCC {
        EightCC::new(*b"LEAFLEAF")
    }
}

impl BStackCast for Node {
    fn eightcc() -> EightCC {
        EightCC::new(*b"NODENODE")
    }
}

impl BStackCast for Shared {
    fn eightcc() -> EightCC {
        EightCC::new(*b"SHARSHAR")
    }
}

impl BStackCast for Watched {
    fn eightcc() -> EightCC {
        EightCC::new(*b"WATCWATC")
    }
}

impl BStackBlock for Leaf {
    fn on_disk_size() -> u64 {
        24
    }
    fn range(&self) -> BStackRange {
        self.0
    }
    fn from_range(range: BStackRange) -> Self {
        Leaf(range)
    }
    fn bstack_drop_children<A: BStackRaiiAllocator>(
        _range: BStackRange,
        _ctx: &mut Teardown,
        _a: &mut A,
    ) -> Result<(), Error> {
        Ok(())
    }
}

impl BStackBlock for Node {
    fn on_disk_size() -> u64 {
        24
    }
    fn range(&self) -> BStackRange {
        self.0
    }
    fn from_range(range: BStackRange) -> Self {
        Node(range)
    }
    fn bstack_drop_children<A: BStackRaiiAllocator>(
        range: BStackRange,
        ctx: &mut Teardown,
        a: &mut A,
    ) -> Result<(), Error> {
        let bytes = a.get(range.start, range.len)?;
        drop_owned_field::<Leaf, A>(ctx, a, get_u64_at(&bytes, 16), true)
    }
}

impl BStackBlock for Shared {
    fn on_disk_size() -> u64 {
        32
    }
    fn range(&self) -> BStackRange {
        self.0
    }
    fn from_range(range: BStackRange) -> Self {
        Shared(range)
    }
    fn bstack_drop_children<A: BStackRaiiAllocator>(
        _range: BStackRange,
        _ctx: &mut Teardown,
        _a: &mut A,
    ) -> Result<(), Error> {
        Ok(())
    }
}

impl BStackBlock for Watched {
    fn on_disk_size() -> u64 {
        32
    }
    fn range(&self) -> BStackRange {
        self.0
    }
    fn from_range(range: BStackRange) -> Self {
        Watched(range)
    }
    fn bstack_drop_children<A: BStackRaiiAllocator>(
        _range: BStackRange,
        _ctx: &mut Teardown,
        _a: &mut A,
    ) -> Result<(), Error> {
        Ok(())
    }
}

impl BStackShared for Shared {
    fn control() -> Option<u64> {
        None
    }
}

impl BStackShared for Watched {
    fn control() -> Option<u64> {
        Some(40)
    }
}

impl BStackWeakable for Watched {
    type Control = WatchedControl;
    fn control_size() -> u64 {
        40
    }
}

impl TryCloneIn for Leaf {
    fn try_clone_in<A: BStackRaiiAllocator>(&self, a: &mut A) -> Result<BStackOwned<Self>, Error> {
        let bytes = a.get(self.0.start, self.0.len)?;
        let copy = a.alloc_range(self.0.len)?;
        a.set(copy.start, bytes)?;
        Ok(BStackOwned::from_raw(Leaf(copy)))
    }
}

fn leaf<A: BStackRaiiAllocator>(a: &mut A, value: u64) -> BStackRange {
    build_block(a, Mode::Plain, &Leaf::eightcc(), &value.to_le_bytes().to_vec()).unwrap().data
}

fn node<A: BStackRaiiAllocator>(a: &mut A, child: u64) -> BStackRange {
    build_block(a, Mode::Plain, &Node::eightcc(), &child.to_le_bytes().to_vec()).unwrap().data
}

fn shared<A: BStackRaiiAllocator>(a: &mut A) -> BStackRange {
    build_block(a, Mode::Rc, &Shared::eightcc(), &7u64.to_le_bytes().to_vec()).unwrap().data
}

fn watched<A: BStackRaiiAllocator>(a: &mut A) -> (BStackRange, BStackRange) {
    let built = build_pair(
        &mut Teardown::new(),
        a,
        &Watched::eightcc(),
        EightCC::new(*b"watcwatc"),
        40,
        &7u64.to_le_bytes().to_vec(),
    )
    .unwrap();
    (built.data, built.ctrl.unwrap())
}

#[test]
fn numbers_are_little_endian() {
    assert_eq!(get_u64(&[1, 2, 0, 0, 0, 0, 0, 0, 9]), 0x0201);
    assert_eq!(get_u64_at(&[9, 1, 0, 0, 0, 0, 0, 0, 0], 1), 1);
    assert_eq!(get_u32_at(&[0, 4, 3, 2, 1], 1), 0x0102_0304);
    assert_eq!(u32_le(0x0102_0304), vec![4, 3, 2, 1]);
}

#[test]
fn counter_steps() {
    assert_eq!(CounterOp::Add(2).apply(3), 5);
    assert_eq!(CounterOp::Add(1).apply(u64::MAX), u64::MAX);
    assert_eq!(CounterOp::Sub(2).apply(3), 1);
    assert_eq!(CounterOp::Sub(4).apply(3), 3);
    assert_eq!(CounterOp::IncrementIfNonzero.apply(0), 0);
    assert_eq!(CounterOp::IncrementIfNonzero.apply(1), 2);
}

#[test]
fn counters_refuse_to_wrap() {
    let mut a = file();
    assert_eq!(load(&mut a, 16), Ok(0));
    assert_eq!(fetch_add(&mut a, 16, 5), Ok(0));
    assert_eq!(fetch_add(&mut a, 16, 1), Ok(5));
    assert_eq!(load(&mut a, 16), Ok(6));
    assert_eq!(fetch_sub(&mut a, 16, 7), Err(Error::RefcountUnderflow));
    assert_eq!(fetch_sub(&mut a, 16, 6), Ok(6));
    assert_eq!(increment_if_nonzero(&mut a, 16), Ok(None));
    assert_eq!(cas(&mut a, 16, 0, u64::MAX), Ok(true));
    assert_eq!(cas(&mut a, 16, 0, 1), Ok(false));
    assert_eq!(fetch_add(&mut a, 16, 1), Err(Error::RefcountOverflow));
    assert_eq!(load(&mut a, 16), Ok(u64::MAX));
    assert_eq!(fetch_add(&mut a, u64::MAX - 3, 1), Err(Error::RefcountOffsetOverflow));
}

#[test]
fn offsets_are_checked() {
    assert_eq!(checked_off(10, 6), Ok(16));
    assert_eq!(checked_off(u64::MAX, 1), Err(Error::BlockOffsetOverflow));
    assert_eq!(Error::BlockOffsetOverflow.kind(), Some(ErrorKind::InvalidData));
    assert_eq!(Error::BlockOffsetOverflow.message(), "block offset overflow");
}

#[test]
fn header_is_size_and_tag() {
    let h = BlockHeader { size: 0x0102, tag: EightCC::new(*b"ABCDEFGH") };
    let b = h.to_bytes();
    assert_eq!(&b[..8], &[2, 1, 0, 0, 0, 0, 0, 0]);
    assert_eq!(&b[8..], b"ABCDEFGH");
    let back = BlockHeader::from_bytes(&b);
    assert_eq!(back.size, 0x0102);
    assert!(back.tag.same(&h.tag));
    assert!(!back.tag.same(&EightCC::new(*b"ABCDEFGX")));
}

#[test]
fn control_block_starts_at_one_and_one() {
    let b = build_control_payload(EightCC::new(*b"ctrlctrl"), 0x55, 40);
    assert_eq!(b.len(), 40);
    assert_eq!(get_u64_at(&b, 0), 40);
    assert_eq!(get_u64_at(&b, 16), 1);
    assert_eq!(get_u64_at(&b, 24), 1);
    assert_eq!(get_u64_at(&b, 32), 0x55);
}

#[test]
fn fresh_block_is_zero_behind_its_header() {
    let mut a = file();
    let r = alloc_block(&mut a, Leaf::eightcc(), 24).unwrap();
    let b = a.get(r.start, 24).unwrap();
    assert_eq!(get_u64_at(&b, 0), 24);
    assert_eq!(&b[8..16], b"LEAFLEAF");
    assert_eq!(get_u64_at(&b, 16), 0);
}

#[test]
fn owner_takes_its_children_with_it() {
    let mut a = file();
    let child = leaf(&mut a, 5);
    let parent = node(&mut a, child.start);
    assert_eq!(a.live().len(), 2);
    let mut ctx = Teardown::new();
    OwnedRef::<Node>::new(BStackRef::from_range(parent)).bstack_drop(&mut ctx, &mut a).unwrap();
    assert!(a.live().is_empty());
}

#[test]
fn block_stays_where_a_child_cannot_be_released() {
    let mut a = file();
    let parent = node(&mut a, 1 << 19);
    let mut ctx = Teardown::new();
    assert!(drop_block::<Node, MemAllocator>(parent, &mut ctx, &mut a).is_err());
    assert_eq!(a.live().len(), 1);
}

#[test]
fn teardown_is_one_transaction() {
    let mut a = file();
    let child = leaf(&mut a, 5);
    let parent = node(&mut a, child.start);
    let mut ctx = Teardown::new();
    let owner = OwnedRef::<Node>::new(BStackRef::from_range(parent));
    wal_teardown(owner, &mut ctx, &mut a).unwrap();
    assert!(!a.live().contains(&child));
    assert!(!a.live().contains(&parent));
    assert!(!ctx.is_active());
}

#[test]
fn collected_frees_wait_for_the_commit() {
    let mut a = file();
    let x = leaf(&mut a, 1);
    let mut ctx = Teardown::new();
    ctx.install(1);
    assert!(ctx.is_active());
    dealloc_range(&mut ctx, &mut a, x).unwrap();
    assert!(a.live().contains(&x));
    let frees = ctx.take();
    assert_eq!(frees, vec![(FileId::self_file(), x)]);
    commit_frees(&mut Teardown::new(), &mut a, &frees).unwrap();
    assert!(!a.live().contains(&x));
}

#[test]
fn teardown_depth_is_bounded() {
    let mut ctx = Teardown::new();
    let mut n = 0;
    while ctx.enter().is_ok() {
        n += 1;
    }
    assert_eq!(ctx.enter(), Err(Error::TeardownTooDeep));
    ctx.leave();
    assert_eq!(ctx.enter(), Ok(()));
    assert!(n > 100);
}

#[test]
fn counted_block_lives_as_long_as_its_owners() {
    let mut a = file();
    let s = shared(&mut a);
    fetch_add(&mut a, s.start + 16, 1).unwrap();
    let mut ctx = Teardown::new();
    StrongRef::<Shared>::new(BStackRef::from_range(s)).bstack_drop(&mut ctx, &mut a).unwrap();
    assert_eq!(a.live().len(), 1);
    StrongRef::<Shared>::new(BStackRef::from_range(s)).bstack_drop(&mut ctx, &mut a).unwrap();
    assert!(a.live().is_empty());
}

#[test]
fn control_block_outlives_the_data() {
    let mut a = file();
    let (data, ctrl) = watched(&mut a);
    fetch_add(&mut a, ctrl.start + 24, 1).unwrap();
    let strong = StrongWeakRef::<Watched>::from_disk(BStackRef::from_range(data), &mut a).unwrap();
    assert_eq!(strong.data_ref(), data);
    assert_eq!(strong.ctrl_ref(), ctrl);
    let weak = WeakRef::<Watched>::from_disk(BStackRef::from_range(data), &mut a).unwrap();
    assert_eq!(weak.ctrl_ref(), ctrl);
    let mut ctx = Teardown::new();
    strong.bstack_drop(&mut ctx, &mut a).unwrap();
    assert_eq!(a.live(), &[ctrl]);
    weak.bstack_drop(&mut ctx, &mut a).unwrap();
    assert!(a.live().is_empty());
}

#[test]
fn weak_field_upgrades_while_the_target_lives() {
    let mut a = file();
    let (data, ctrl) = watched(&mut a);
    let holder = leaf(&mut a, 0);
    let field = holder.start + 16;
    assert!(upgrade_weak_field::<Watched, MemAllocator>(&mut a, field).unwrap().is_none());
    fetch_add(&mut a, ctrl.start + 24, 1).unwrap();
    let mut ctx = Teardown::new();
    assert!(set_weak_field(&mut ctx, &mut a, field, WeakRef::<Watched>::new(ctrl)).is_ok());
    let up = upgrade_weak_field::<Watched, MemAllocator>(&mut a, field).unwrap().unwrap();
    assert_eq!(up.data, data);
    assert_eq!(up.ctrl, ctrl);
    assert_eq!(load(&mut a, ctrl.start + 16), Ok(2));
    fetch_sub(&mut a, ctrl.start + 16, 2).unwrap();
    assert!(upgrade_weak_field::<Watched, MemAllocator>(&mut a, field).unwrap().is_none());
}

#[test]
fn weak_field_gives_the_reference_back_on_failure() {
    let mut a = file();
    let (_, ctrl) = watched(&mut a);
    let holder = leaf(&mut a, 0);
    let mut ctx = Teardown::new();
    a.fail_after(0);
    let e = set_weak_field(&mut ctx, &mut a, holder.start + 16, WeakRef::<Watched>::new(ctrl))
        .err()
        .unwrap();
    assert_eq!(e.value.unwrap().ctrl_ref(), ctrl);
}

#[test]
fn construction_gives_everything_back_on_failure() {
    let mut a = file();
    a.fail_after(1);
    let r = build_block(&mut a, Mode::Plain, &Leaf::eightcc(), &vec![0; 8]);
    assert_eq!(r, Err(Error::Outside { ticket: 0 }));
    let e = conclude_construction(r, 42).err().unwrap();
    assert_eq!(e.fields, Some(42));
    assert_eq!(*e.io(), Error::Outside { ticket: 0 });
    a.repair();
    let b = leaf(&mut a, 3);
    let done: Result<Built, ConstructError<i32>> =
        conclude_construction(Ok(Built { data: b, ctrl: None }), 1);
    assert_eq!(done.ok().unwrap().data, b);
}

#[test]
fn fresh_counts() {
    let mut a = file();
    let s = shared(&mut a);
    assert_eq!(load(&mut a, s.start + 16), Ok(1));
    let (data, ctrl) = watched(&mut a);
    assert_eq!(load(&mut a, data.start + 16), Ok(ctrl.start));
    assert_eq!(load(&mut a, ctrl.start + 32), Ok(data.start));
}

#[test]
fn several_blocks_or_none() {
    let mut a = MemAllocator::new(settings(1), 64, 255);
    assert!(seq_alloc_many(&mut Teardown::new(), &mut a, &[64, 64, 64]).is_err());
    assert!(a.live().is_empty());
    let got = alloc_many(&mut Teardown::new(), &mut a, vec![8, 16]).unwrap();
    assert_eq!(got[0].len, 8);
    assert_eq!(got[1].len, 16);
    let mut ctx = Teardown::new();
    assert!(seq_free_many(&mut ctx, &mut a, &got).is_ok());
    assert!(a.live().is_empty());
}

#[test]
fn blocks_that_could_not_be_freed_are_named() {
    let mut a = file();
    let x = leaf(&mut a, 1);
    let bad = BStackRange::new(4000, 8);
    let mut ctx = Teardown::new();
    let e = seq_free_many(&mut ctx, &mut a, &vec![bad, x]).err().unwrap();
    assert_eq!(e.unfreed(), &[bad]);
    assert_eq!(*e.io(), Error::NotAllocated);
    assert!(a.live().is_empty());
    let own = FreeManyError::from_parts(Error::NoSpace, vec![x]);
    assert_eq!(own.unfreed(), &[x]);
}

#[test]
fn bulk_is_one_step() {
    let mut s = settings(1);
    s.bulk = true;
    let mut a = MemAllocator::new(s, 64, 1 << 16);
    let got = bulk_alloc_many(&mut a, vec![8, 8, 8]).unwrap();
    assert_eq!(got.len(), 3);
    assert!(bulk_free_many(&mut a, got).is_ok());
    assert!(a.live().is_empty());
}

#[test]
fn bulk_is_all_or_nothing() {
    let mut s = settings(1);
    s.bulk = true;
    let mut a = MemAllocator::new(s, 64, 128);
    assert_eq!(alloc_many(&mut Teardown::new(), &mut a, vec![32, 40]), Err(Error::NoSpace));
    assert_eq!(a.data().len(), 64);
    let got = alloc_many(&mut Teardown::new(), &mut a, vec![32, 24]).unwrap();
    assert_eq!(got, vec![BStackRange::new(64, 32), BStackRange::new(96, 24)]);
    let bad = BStackRange::new(4000, 8);
    let mut ctx = Teardown::new();
    let e = free_many(&mut ctx, &mut a, vec![got[0], bad]).err().unwrap();
    assert_eq!(e.unfreed(), &[got[0], bad]);
    assert_eq!(*e.io(), Error::NotAllocated);
    assert_eq!(a.live(), &[got[0], got[1]]);
    assert!(free_many(&mut ctx, &mut a, got).is_ok());
    assert!(a.live().is_empty());
}

#[test]
fn free_many_goes_one_by_one_without_bulk() {
    let mut a = file();
    let x = leaf(&mut a, 1);
    let y = leaf(&mut a, 2);
    let bad = BStackRange::new(4000, 8);
    let mut ctx = Teardown::new();
    let e = free_many(&mut ctx, &mut a, vec![x, bad, y]).err().unwrap();
    assert_eq!(e.unfreed(), &[bad]);
    assert!(a.live().is_empty());
}

#[test]
fn memory_reads_back_what_was_written() {
    let mut a = file();
    assert_eq!(a.set(8, vec![1, 2, 3]), Ok(()));
    assert_eq!(a.get(7, 5), Ok(vec![0, 1, 2, 3, 0]));
    assert_eq!(a.swap(9, vec![9, 9]), Ok(vec![2, 3]));
    assert_eq!(a.copy(8, 20, 3), Ok(()));
    assert_eq!(a.get(20, 3), Ok(vec![1, 9, 9]));
    assert_eq!(a.set_batched(vec![(0, vec![7]), (63, vec![5, 5])]), Err(Error::OutOfRange));
    assert_eq!(a.get(0, 1), Ok(vec![0]));
    assert_eq!(a.set_batched(vec![(0, vec![7, 7]), (1, vec![5])]), Ok(()));
    assert_eq!(a.get(0, 2), Ok(vec![7, 5]));
    assert_eq!(a.get(60, 5), Err(Error::OutOfRange));
    assert_eq!(a.set(32, vec![4, 0, 0, 0, 0, 0, 0, 0]), Ok(()));
    assert_eq!(a.cas(32, 3, 9), Ok(false));
    assert_eq!(a.cas(32, 4, 9), Ok(true));
    assert_eq!(a.get(32, 1), Ok(vec![9]));
    a.fail_after(0);
    assert!(matches!(a.get(0, 1), Err(Error::Outside { .. })));
}

#[test]
fn control_name_is_another_name() {
    let name = EightCC::new(*b"sessions");
    assert!(name.with_ctrl_bit().same(&EightCC::new(*b"sessionr")));
    assert!(!name.with_ctrl_bit().same(&name));
    assert!(name.with_ctrl_bit().with_ctrl_bit().same(&name));
}

#[test]
fn cast_goes_by_the_header() {
    let mut a = file();
    let r = leaf(&mut a, 9);
    let owned = BStackOwned::from_raw(Leaf(r));
    assert_eq!(owned.handle().range(), r);
    let slice = owned.into_slice();
    let back: BStackOwned<Leaf> = match slice.cast_into(&mut a) {
        Ok(o) => o,
        Err(_) => panic!("the header is that of a leaf"),
    };
    let slice = back.into_slice();
    let wrong: Result<BStackOwned<Node>, CastError<BStackOwnedSlice>> = slice.cast_into(&mut a);
    match wrong {
        Err(CastError::Mismatch(_)) => {}
        _ => panic!("a leaf is no node"),
    }
    assert!(r.cast_as::<Leaf, MemAllocator>(&mut a).unwrap().is_some());
    assert!(r.cast_as::<Node, MemAllocator>(&mut a).unwrap().is_none());
    // A look at the tag does not mind the size; a cast does.
    a.set(r.start, vec![99]).unwrap();
    assert!(r.cast_as::<Leaf, MemAllocator>(&mut a).unwrap().is_some());
    let slice = BStackOwned::from_raw(Leaf(r)).into_slice();
    let wrong: Result<BStackOwned<Leaf>, CastError<BStackOwnedSlice>> = slice.cast_into(&mut a);
    assert!(wrong.is_err());
    let short = BStackRange::new(r.start, 15);
    assert_eq!(short.cast_as::<Leaf, MemAllocator>(&mut a).err(), Some(Error::OutOfRange));
}

#[test]
fn cast_error_keeps_the_block() {
    let e: CastError<u8> = CastError::Io(Error::NoSpace, 3);
    assert_eq!(e.io(), Some(Error::NoSpace));
    assert_eq!(e.message(), "the stack is full");
    assert_eq!(e.into_slice(), 3);
    let m: CastError<u8> = CastError::Mismatch(4);
    assert_eq!(m.io(), None);
    assert_eq!(m.message(), "bstack_cast!: block tag/size is not the target type");
}

#[test]
fn field_round_trip() {
    let mut a = file();
    let child = leaf(&mut a, 5);
    let parent = node(&mut a, 0);
    assert_eq!(get_field(&mut a, parent, 16, 24, true), Ok(None));
    set_ref(&mut a, parent.start + 16, Some(child)).unwrap();
    assert_eq!(get_field(&mut a, parent, 16, 24, true), Ok(Some(child)));
    set_pod(&mut a, child.start + 16, vec![1, 2, 3]).unwrap();
    assert_eq!(get_pod(&mut a, child, 16, 3), Ok(vec![1, 2, 3]));
}

#[test]
fn replace_hands_the_old_value_out() {
    let mut a = file();
    let x = leaf(&mut a, 1);
    let y = leaf(&mut a, 2);
    let parent = node(&mut a, x.start);
    let old = replace_field(&mut a, parent.start + 16, Some(y), 24, true).ok().unwrap();
    assert_eq!(old, Some(x));
    a.fail_after(1);
    let e = replace_field(&mut a, parent.start + 16, Some(x), 24, true).err().unwrap();
    assert_eq!(e.value, Some(Some(x)));
    a.repair();
    assert_eq!(get_field(&mut a, parent, 16, 24, true), Ok(Some(y)));
}

#[test]
fn strong_replace_finds_the_control_block() {
    let mut a = file();
    let (d1, c1) = watched(&mut a);
    let (d2, c2) = watched(&mut a);
    let parent = node(&mut a, d1.start);
    let new = Strong { data: d2, ctrl: Some(c2) };
    let old =
        replace_strong::<Watched, MemAllocator>(&mut a, parent.start + 16, Some(new), false)
            .ok()
            .unwrap();
    assert_eq!(old, Some(Strong { data: d1, ctrl: Some(c1) }));
    let back = Strong { data: d1, ctrl: Some(c1) };
    for steps in 0..3 {
        a.fail_after(steps);
        let e =
            replace_strong::<Watched, MemAllocator>(&mut a, parent.start + 16, Some(back), false)
                .err()
                .unwrap();
        assert_eq!(e.value, Some(Some(back)));
        a.repair();
        assert_eq!(get_field(&mut a, parent, 16, 32, false), Ok(Some(d2)));
    }
    a.fail_after(3);
    let old = replace_strong::<Watched, MemAllocator>(&mut a, parent.start + 16, Some(back), false)
        .ok()
        .unwrap();
    assert_eq!(old, Some(new));
}

fn array_block(a: &mut MemAllocator, n: u64) -> ArrayField {
    let block = alloc_block(a, Node::eightcc(), 16 + 8 * n).unwrap();
    ArrayField { block, at: 16, total: n }
}

#[test]
fn array_elements_are_replaced() {
    let mut a = file();
    let x = leaf(&mut a, 1);
    let y = leaf(&mut a, 2);
    let f = array_block(&mut a, 2);
    assert_eq!(replace_at(&mut a, f, 1, Some(x), 24, true).ok().unwrap(), None);
    assert_eq!(replace_at(&mut a, f, 1, Some(y), 24, true).ok().unwrap(), Some(x));
    let e = replace_at(&mut a, f, 2, Some(x), 24, true).err().unwrap();
    assert_eq!(e.source, Error::ArrayIndexOutOfBounds);
    assert_eq!(e.value, Some(Some(x)));
    assert_eq!(set_at(&mut a, f, 0, Some(x)), Ok(()));
    assert_eq!(set_at(&mut a, f, 2, None), Err(Error::ArrayIndexOutOfBounds));
    let all = replace_all(&mut a, f, vec![None, None], 24, true).ok().unwrap();
    assert_eq!(all, vec![Some(x), Some(y)]);
    assert_eq!(set_all(&mut a, f, &vec![Some(y), Some(x)]), Ok(()));
    let all = replace_all(&mut a, f, vec![None, None], 24, true).ok().unwrap();
    assert_eq!(all, vec![Some(y), Some(x)]);
}

#[test]
fn strong_array_is_replaced_as_a_whole() {
    let mut a = file();
    let (d1, c1) = watched(&mut a);
    let (d2, c2) = watched(&mut a);
    let one = Strong { data: d1, ctrl: Some(c1) };
    let two = Strong { data: d2, ctrl: Some(c2) };
    let f = array_block(&mut a, 2);
    let old = replace_strong_all::<Watched, MemAllocator>(
        &mut a,
        f,
        vec![Some(one), Some(two)],
        true,
    );
    assert_eq!(old.ok().unwrap(), vec![None, None]);
    assert_eq!(
        replace_strong_at::<Watched, MemAllocator>(&mut a, f, 0, None, true).ok().unwrap(),
        Some(one)
    );
    let old = replace_strong_all::<Watched, MemAllocator>(&mut a, f, vec![None, None], true);
    assert_eq!(old.ok().unwrap(), vec![None, Some(two)]);
    assert_eq!(set_all(&mut a, f, &vec![Some(d1), Some(d2)]), Ok(()));
    for steps in 0..4 {
        a.fail_after(steps);
        let e =
            replace_strong_all::<Watched, MemAllocator>(&mut a, f, vec![Some(two), None], true)
                .err()
                .unwrap();
        assert_eq!(e.value, Some(vec![Some(two), None]));
        a.repair();
        assert_eq!(get_field(&mut a, f.block, 16, 32, true), Ok(Some(d1)));
        assert_eq!(get_field(&mut a, f.block, 24, 32, true), Ok(Some(d2)));
    }
    a.fail_after(4);
    let old = replace_strong_all::<Watched, MemAllocator>(&mut a, f, vec![Some(two), None], true);
    assert_eq!(old.ok().unwrap(), vec![Some(one), Some(two)]);
}

#[test]
fn freed_blocks_of_a_failed_pair_are_collected() {
    let mut a = file();
    let mut ctx = Teardown::new();
    ctx.install(1);
    a.fail_after(2);
    let body = 7u64.to_le_bytes().to_vec();
    let made =
        build_pair(&mut ctx, &mut a, &Watched::eightcc(), EightCC::new(*b"watcwatc"), 40, &body);
    assert!(made.is_err());
    a.repair();
    let live = a.live().to_vec();
    assert_eq!(live.len(), 2);
    let own = FileId::self_file();
    assert_eq!(ctx.take(), vec![(own, live[0]), (own, live[1])]);
}

#[test]
fn blocks_of_a_failed_request_are_collected() {
    let mut a = MemAllocator::new(settings(1), 64, 255);
    let mut ctx = Teardown::new();
    ctx.install(1);
    assert_eq!(alloc_many(&mut ctx, &mut a, vec![64, 64, 640]), Err(Error::NoSpace));
    let live = a.live().to_vec();
    let own = FileId::self_file();
    assert_eq!(ctx.take(), vec![(own, live[1]), (own, live[0])]);
}

#[test]
fn wide_pointer_is_sixteen_bytes() {
    let p = WidePtr::with_parts(FileId(3), 9, 0x55);
    let b = p.to_bytes();
    assert_eq!(b.len(), 16);
    assert_eq!(WidePtr::from_bytes(&b), p);
    assert!(!p.is_self());
    assert!(WidePtr::new(FileId(3), 0).is_null());
}

#[test]
fn foreign_field_is_replaced_locally() {
    let mut a = file();
    let block = alloc_block(&mut a, Node::eightcc(), 32).unwrap();
    let p = WidePtr::new(FileId(2), 100);
    let q = WidePtr::new(FileId(3), 200);
    assert_eq!(set_foreign(&mut a, block.start + 16, Some(p)), Ok(()));
    let old = replace_foreign(&mut a, block.start + 16, Some(q), true).ok().unwrap();
    assert_eq!(old, Some(p));
    a.fail_after(1);
    let e = replace_foreign(&mut a, block.start + 16, None, true).err().unwrap();
    assert_eq!(e.value, Some(None));
}

fn world() -> (Option<FileRegistry<MemAllocator>>, FileId) {
    let mut global: Option<FileRegistry<MemAllocator>> = None;
    registry::init(&mut global, Separators::Slash, vec![]).unwrap();
    let host = MemAllocator::new(settings(2), 64, 1 << 16);
    let id = registry::attach(&mut global, &b"/there".to_vec(), Ok(()), host).unwrap();
    (global, id)
}

#[test]
fn foreign_owner_is_released_in_its_file() {
    let (mut global, id) = world();
    let there = registry::host_mut(&mut global, id).unwrap();
    let block = leaf(there, 4);
    let mut home = file();
    let mut ctx = Teardown::new();
    let ptr: Foreign<Leaf> = Foreign::new(id, block.start);
    assert_eq!(ptr.with(&global), Ok(Some((block, Place::File(id)))));
    let owner = ForeignOwned::from_foreign(ptr);
    assert_eq!(owner.with(&global), Ok(Some((block, Place::File(id)))));
    owner.bstack_drop(&mut ctx, &mut home, &mut global).unwrap();
    assert!(registry::with_host(&global, id).unwrap().live().is_empty());
    let here = leaf(&mut home, 1);
    let owner: ForeignOwned<Leaf> =
        ForeignOwned::from_foreign(Foreign::new(FileId::self_file(), here.start));
    assert!(owner.is_self());
    owner.bstack_drop(&mut ctx, &mut home, &mut global).unwrap();
    assert!(home.live().is_empty());
}

#[test]
fn foreign_counts_go_down() {
    let (mut global, id) = world();
    let there = registry::host_mut(&mut global, id).unwrap();
    let (data, ctrl) = watched(there);
    fetch_add(there, ctrl.start + 24, 1).unwrap();
    let mut home = file();
    let mut ctx = Teardown::new();
    let rc: ForeignRc<Watched> = ForeignRc::from_foreign(Foreign::new(id, data.start));
    rc.bstack_drop(&mut ctx, &mut home, &mut global).unwrap();
    assert_eq!(registry::with_host(&global, id).unwrap().live(), &[ctrl]);
    let weak: ForeignWeak<Watched> = ForeignWeak::from_foreign(Foreign::new(id, ctrl.start));
    weak.bstack_drop(&mut ctx, &mut home, &mut global).unwrap();
    assert!(registry::with_host(&global, id).unwrap().live().is_empty());
}

#[test]
fn closed_file_is_skipped_on_release() {
    let (mut global, id) = world();
    registry::detach(&mut global, id);
    assert_eq!(route_drop(WidePtr::new(id, 8), &global), Route::Skip);
    assert_eq!(route_drop(WidePtr::new(FileId::self_file(), 8), &global), Route::Home);
    let mut home = file();
    let mut ctx = Teardown::new();
    let owner: ForeignOwned<Leaf> = ForeignOwned::from_foreign(Foreign::new(id, 64));
    assert_eq!(owner.bstack_drop(&mut ctx, &mut home, &mut global), Ok(()));
    // Under a collection, too, nothing is queued.
    let mut under = Teardown::new();
    under.install(home.settings().stack);
    let owner: ForeignOwned<Leaf> = ForeignOwned::from_foreign(Foreign::new(id, 64));
    assert_eq!(owner.bstack_drop(&mut under, &mut home, &mut global), Ok(()));
    let null: ForeignRc<Watched> = ForeignRc::from_foreign(Foreign::new(id, 0));
    assert_eq!(null.bstack_drop(&mut under, &mut home, &mut global), Ok(()));
    assert!(under.take().is_empty());
    let ptr: Foreign<Leaf> = Foreign::new(id, 64);
    assert_eq!(ptr.with(&global), Err(Error::ForeignNotAttached));
    assert!(ptr.into_local(&global).is_none());
    let null: Foreign<Leaf> = Foreign::new(id, 0);
    assert_eq!(null.with(&global), Ok(None));
}

#[test]
fn foreign_to_local_and_back() {
    let (mut global, id) = world();
    let there = registry::host_mut(&mut global, id).unwrap();
    let block = leaf(there, 4);
    let ptr: Foreign<Leaf> = Foreign::new(id, block.start);
    assert_eq!(ptr.into_local(&global).unwrap().range(), block);
    let owner: ForeignOwned<Leaf> = ForeignOwned::from_foreign(Foreign::new(id, block.start));
    let home = file();
    let e: IntoLocalError<ForeignOwned<Leaf>> = owner.into_local(&home, &global).err().unwrap();
    assert_eq!(*e.io(), Error::ForeignHomeMismatch);
    let owner = e.into_handle();
    let there = registry::with_host(&global, id).unwrap();
    assert_eq!(owner.into_local(there, &global).ok().unwrap().handle().range(), block);
    let here: Foreign<Leaf> = Foreign::at(&Leaf(block));
    assert!(here.is_self());
    assert!(here.detach().is_none());
}

#[test]
fn pointers_are_home_relative() {
    let (global, id) = world();
    let own = WidePtr::new(FileId::self_file(), 40);
    let seen = resolve_self_repr(own, &global, 2);
    assert_eq!(seen, WidePtr::new(id, 40));
    assert_eq!(home_relative_repr(seen, &global, 2), own);
}

#[test]
fn foreign_host_forwards() {
    let mut host = ForeignHostAllocator::new(file(), FileId(4));
    assert_eq!(host.settings().file, FileId(4));
    let b = leaf(&mut host, 1);
    assert_eq!(host.into_host().live(), &[b]);
}

#[test]
fn duplicating_follows_the_kind() {
    let r = BStackRange::new(80, 24);
    assert_eq!(clone_field::<Leaf>(Kind::Owned, 80), HomeClone::Deep(r));
    assert_eq!(clone_field::<Leaf>(Kind::Strong, 80), HomeClone::Strong(r));
    assert_eq!(clone_field::<Leaf>(Kind::Weak, 80), HomeClone::Weak(80));
    assert_eq!(clone_field::<Leaf>(Kind::Ref, 80), HomeClone::Nothing);
    assert_eq!(clone_field::<Leaf>(Kind::Owned, 0), HomeClone::Nothing);
    assert_eq!(clone_list(Kind::Pod, 8), ListClone::Bytes);
    assert_eq!(clone_list(Kind::Owned, 8), ListClone::Deep);
    assert_eq!(clone_list(Kind::Strong, 8), ListClone::Strong);
    assert_eq!(clone_list(Kind::Weak, 8), ListClone::Weak);
    assert_eq!(clone_list(Kind::Ref, 8), ListClone::Alias);
    assert_eq!(clone_list(Kind::Owned, 0), ListClone::Keep);
}

#[test]
fn duplicating_an_owner_needs_its_file() {
    let (mut global, id) = world();
    let there = registry::host_mut(&mut global, id).unwrap();
    let block = leaf(there, 4);
    let p = WidePtr::new(id, block.start);
    let (q, home) = clone_owned_ptr::<Leaf, MemAllocator>(p, false, &mut global).unwrap();
    assert_eq!(home, HomeClone::Nothing);
    assert_eq!(q.file, id);
    assert_ne!(q.offset, p.offset);
    let there = registry::with_host(&global, id).unwrap();
    assert_eq!(there.live().len(), 2);
    assert_eq!(clone_owned_ptr::<Leaf, MemAllocator>(p, true, &mut global), Ok((p, home)));
    registry::detach(&mut global, id);
    assert_eq!(
        clone_owned_ptr::<Leaf, MemAllocator>(p, false, &mut global),
        Err(Error::CloneOwnedNotAttached)
    );
    assert_eq!(
        clone_strong_ptr::<Shared, MemAllocator>(p, false, &mut global),
        Err(Error::CloneStrongNotAttached)
    );
    assert_eq!(
        clone_weak_ptr::<Watched, MemAllocator>(p, false, &mut global),
        Err(Error::CloneWeakNotAttached)
    );
    assert_eq!(
        clone_route(Kind::Owned, 1 << 40, 8, false, &global),
        Err(Error::CloneMalformedFile)
    );
    assert_eq!(clone_route(Kind::Ref, 1 << 40, 8, false, &global), Ok(CloneRoute::Keep));
}

#[test]
fn duplicating_a_counted_pointer_counts() {
    let (mut global, id) = world();
    let there = registry::host_mut(&mut global, id).unwrap();
    let (data, ctrl) = watched(there);
    let s = shared(there);
    let p = WidePtr::new(id, data.start);
    assert!(clone_strong_ptr::<Watched, MemAllocator>(p, false, &mut global).is_ok());
    let q = WidePtr::new(id, s.start);
    assert!(clone_strong_ptr::<Shared, MemAllocator>(q, false, &mut global).is_ok());
    let w = WidePtr::new(id, ctrl.start);
    assert!(clone_weak_ptr::<Watched, MemAllocator>(w, false, &mut global).is_ok());
    let there = registry::host_mut(&mut global, id).unwrap();
    assert_eq!(load(there, ctrl.start + 16), Ok(2));
    assert_eq!(load(there, s.start + 16), Ok(2));
    assert_eq!(load(there, ctrl.start + 24), Ok(2));
    let copy = foreign_clone_owned::<Leaf, MemAllocator>(there, s.start).unwrap();
    assert_ne!(copy, s.start);
}

#[test]
fn fields_are_released_by_kind() {
    let mut a = file();
    let mut ctx = Teardown::new();
    assert_eq!(drop_owned_field::<Leaf, MemAllocator>(&mut ctx, &mut a, 0, true), Ok(()));
    let l = leaf(&mut a, 1);
    drop_owned_field::<Leaf, MemAllocator>(&mut ctx, &mut a, l.start, true).unwrap();
    let s = shared(&mut a);
    drop_strong_field::<Shared, MemAllocator>(&mut ctx, &mut a, s.start, false).unwrap();
    let (data, ctrl) = watched(&mut a);
    assert_eq!(drop_weak_field::<Watched, MemAllocator>(&mut ctx, &mut a, 0), Ok(()));
    fetch_add(&mut a, ctrl.start + 24, 1).unwrap();
    drop_weak_field::<Watched, MemAllocator>(&mut ctx, &mut a, ctrl.start).unwrap();
    assert_eq!(a.live(), &[data, ctrl]);
    drop_strong_field::<Watched, MemAllocator>(&mut ctx, &mut a, data.start, false).unwrap();
    assert!(a.live().is_empty());
}

#[test]
fn taking_apart_leaves_the_children() {
    let mut a = file();
    let (data, ctrl) = watched(&mut a);
    let parent = node(&mut a, data.start);
    let mut ctx = Teardown::new();
    let bytes = take_block(&mut ctx, &mut a, parent).unwrap();
    let off = get_u64_at(&bytes, 16);
    assert_eq!(
        move_strong_field::<Watched, MemAllocator>(&mut a, off, false),
        Ok(Some(Strong { data, ctrl: Some(ctrl) }))
    );
    assert_eq!(move_strong_field::<Watched, MemAllocator>(&mut a, 0, true), Ok(None));
    assert!(move_weak_field::<Watched>(0).is_none());
    assert_eq!(move_weak_field::<Watched>(ctrl.start).unwrap().ctrl_ref(), ctrl);
    assert_eq!(a.live(), &[data, ctrl]);
    assert!(!has_list(0, true));
    assert!(has_list(0, false));
    assert!(has_list(8, true));
}

#[test]
fn control_blocks_are_found_before_the_block_goes() {
    let mut a = file();
    let (data, ctrl) = watched(&mut a);
    let parent = node(&mut a, data.start);
    let fields = vec![
        StrongField { at: 16, size: data.len, control: Some(40), nullable: false },
        StrongField { at: 16, size: data.len, control: None, nullable: false },
    ];
    let mut ctx = Teardown::new();
    a.fail_after(1);
    assert!(take_fields(&mut ctx, &mut a, &fields, parent).is_err());
    a.fail_after(100);
    assert_eq!(a.live(), &[data, ctrl, parent]);
    let image = a.get(parent.start, parent.len).unwrap();
    let (bytes, strongs) = take_fields(&mut ctx, &mut a, &fields, parent).unwrap();
    assert_eq!(bytes, image);
    assert_eq!(
        strongs,
        vec![
            Some(Strong { data, ctrl: Some(ctrl) }),
            Some(Strong { data, ctrl: None }),
        ]
    );
    assert_eq!(a.live(), &[data, ctrl]);
}

#[test]
fn copy_is_stored_or_leaves_nothing() {
    let mut a = file();
    let copy = store_copy(&mut a, vec![1, 2, 3]).unwrap();
    assert_eq!(a.get(copy.start, 3), Ok(vec![1, 2, 3]));
    assert_eq!(a.live(), &[copy]);
    a.fail_after(0);
    assert!(store_copy(&mut a, vec![4]).is_err());
    a.fail_after(100);
    assert_eq!(a.live(), &[copy]);
}

#[test]
fn embedded_child_moves_in() {
    let mut a = file();
    let child = leaf(&mut a, 0x77);
    let parent = alloc_block(&mut a, Node::eightcc(), 64).unwrap();
    let mut ctx = Teardown::new();
    let moves = vec![Move { child, size: 24, at: 8 }];
    embed_children(&mut ctx, &mut a, parent.start + 16, &moves).unwrap();
    assert_eq!(a.live(), &[parent]);
    let b = a.get(parent.start, 64).unwrap();
    assert_eq!(&b[32..40], b"LEAFLEAF");
    assert_eq!(get_u64_at(&b, 40), 0x77);
}

#[test]
fn nested_arrays_are_row_major() {
    let flat: Vec<u8> = vec![1, 2, 3, 4, 5, 6];
    let n = nested_build(&vec![2, 3], &flat);
    match &n {
        Nest::Row(rows) => {
            assert_eq!(rows.len(), 2);
            match &rows[1] {
                Nest::Row(r) => match r[0] {
                    Nest::Leaf(x) => assert_eq!(x, 4),
                    _ => panic!("a leaf"),
                },
                _ => panic!("a row"),
            }
        }
        _ => panic!("rows"),
    }
    assert_eq!(nested_consume(&n), flat);
    assert_eq!(dims_prod(&vec![2, 3]), Some(6));
    assert_eq!(dims_prod(&vec![]), Some(1));
    assert_eq!(dims_prod(&vec![usize::MAX, 2]), None);
}

#[test]
fn hand_back_errors() {
    let e: ConstructError<u8> = ConstructError::recovered(Error::NoSpace, 5);
    assert_eq!(e.fields, Some(5));
    assert_eq!(e.into_source(), Error::NoSpace);
    let l: ConstructError<u8> = ConstructError::lost(Error::NoSpace);
    assert_eq!(l.fields, None);
    let f: ConstructError<u8> = ConstructError::from(Error::OutOfRange);
    assert_eq!(f.fields, None);
    let r: ReplaceError<u8> = ReplaceError::lost(Error::NoSpace);
    assert_eq!(*r.io(), Error::NoSpace);
    let i = IntoLocalError::recovered(Error::NoSpace, 8);
    assert_eq!(i.into_source(), Error::NoSpace);
}

#[test]
fn auto_handle_releases_or_lets_go() {
    let mut a = file();
    let r = leaf(&mut a, 1);
    let auto = BStackOwned::from_raw(Leaf(r)).auto(&mut a);
    let owned = auto.into_owned();
    let mut ctx = Teardown::new();
    owned.auto(&mut a).release(&mut ctx).unwrap();
    assert!(!a.live().contains(&r));
}
