use bstack_raii::allocator::{BStackRaiiAllocator, Settings};
use bstack_raii::error::{Error, ErrorKind};
use bstack_raii::mem::MemAllocator;
use bstack_raii::range::{BStackRange, FileId};
use bstack_raii::teardown::Teardown;
use bstack_raii::wal::block::{
    load_at, persist_at, read_anchor, wal_append_alloc, wal_capacity_of, wal_ensure_block,
    wal_set_idle, WalHeader,
};
use bstack_raii::wal::entry::{WalEntry, WalLog, WalOp, WalStatus};
use bstack_raii::wal::held::{HeldLocks, LockTable};
use bstack_raii::wal::recover::{finish, orphans};
use bstack_raii::wal::reduce::{reduce, AllocReq};

fn settings(bulk: bool) -> Settings {
    Settings { anchor: Some(8), bulk, file: FileId::self_file(), stack: 1 }
}

fn file() -> MemAllocator {
    MemAllocator::new(settings(false), 64, 1 << 20)
}

#[test]
fn wal_status_maps() {
    assert_eq!(WalStatus::Idle.advance(), WalStatus::Pending);
    assert_eq!(WalStatus::Pending.advance(), WalStatus::Complete);
    assert_eq!(WalStatus::Complete.advance(), WalStatus::Complete);
    assert_eq!(WalStatus::Abandon.advance(), WalStatus::Abandon);
    assert_eq!(WalStatus::Idle.recover(), WalStatus::Idle);
    assert_eq!(WalStatus::Pending.recover(), WalStatus::Abandon);
    assert_eq!(WalStatus::Complete.recover(), WalStatus::Complete);
}

#[test]
fn wal_entry_roundtrip() {
    let a = WalEntry::alloc_local(WalStatus::Pending, BStackRange::new(0x1000, 256));
    assert_eq!(a.op(), Some(WalOp::Alloc));
    assert_eq!(a.status(), WalStatus::Pending);
    assert_eq!(a.as_alloc(), Some(BStackRange::new(0x1000, 256)));
    assert_eq!(a.as_dealloc(), None);
    assert_eq!(a.file_id(), 0);

    let d = WalEntry::dealloc(WalStatus::Complete, BStackRange::new(0x6CD4, 256));
    assert_eq!(d.op(), Some(WalOp::Dealloc));
    assert_eq!(d.as_dealloc(), Some(BStackRange::new(0x6CD4, 256)));
    assert_eq!(d.as_alloc(), None);
    assert_eq!(d.file_id(), 0);

    let fa = WalEntry::alloc_in(
        WalStatus::Pending,
        FileId::from_u64(7).unwrap(),
        BStackRange::new(0x20, 48),
    );
    assert_eq!(fa.file_id(), 7);
    assert_eq!(fa.as_alloc(), Some(BStackRange::new(0x20, 48)));
    let fd = WalEntry::dealloc_in(
        WalStatus::Pending,
        FileId::from_u64(3).unwrap(),
        BStackRange::new(0x40, 16),
    );
    assert_eq!(fd.file_id(), 3);
    assert_eq!(fd.as_dealloc(), Some(BStackRange::new(0x40, 16)));
}

#[test]
fn wal_entry_is_32_bytes_and_pod_roundtrips() {
    assert_eq!(std::mem::size_of::<WalEntry>(), 32);
    let mut log = WalLog::with_capacity(2);
    log.append(WalEntry::alloc_local(WalStatus::Pending, BStackRange::new(8192, 64)));
    log.append(WalEntry::dealloc_in(
        WalStatus::Pending,
        FileId::from_u64(9).unwrap(),
        BStackRange::new(4096, 64),
    ));
    let bytes = log.as_bytes().to_vec();
    let back = WalLog::entries_from_bytes(&bytes);
    assert_eq!(back.len(), 2);
    assert_eq!(back[0].as_alloc(), Some(BStackRange::new(8192, 64)));
    assert_eq!(back[0].file_id(), 0);
    assert_eq!(back[1].as_dealloc(), Some(BStackRange::new(4096, 64)));
    assert_eq!(back[1].file_id(), 9);
}

#[test]
fn wal_fresh_id_wraps() {
    let mut log = WalLog::with_capacity(0);
    assert_eq!(log.fresh_id(), 0);
    assert_eq!(log.fresh_id(), 1);
    log.next_id = u64::MAX;
    assert_eq!(log.fresh_id(), u64::MAX);
    assert_eq!(log.fresh_id(), 0);
}

#[test]
fn reduce_cancels_equal_length_pairs() {
    let allocs = vec![
        AllocReq { id: 0, len: 256, file_id: FileId::self_file(), obj_id: 0 },
        AllocReq { id: 1, len: 600, file_id: FileId::self_file(), obj_id: 0 },
    ];
    let deallocs = vec![(FileId::self_file(), BStackRange::new(0x1FF0, 256))];
    let r = reduce(allocs, deallocs);
    assert_eq!(r.reused.len(), 1);
    assert_eq!(
        r.reused[0].0,
        AllocReq { id: 0, len: 256, file_id: FileId::self_file(), obj_id: 0 }
    );
    assert_eq!(r.reused[0].1, BStackRange::new(0x1FF0, 256));
    assert_eq!(
        r.allocs,
        vec![AllocReq { id: 1, len: 600, file_id: FileId::self_file(), obj_id: 0 }]
    );
    assert!(r.deallocs.is_empty());
}

#[test]
fn reduce_leaves_unpaired_on_both_sides() {
    let allocs = vec![AllocReq { id: 0, len: 100, file_id: FileId::self_file(), obj_id: 0 }];
    let deallocs = vec![(FileId::self_file(), BStackRange::new(8, 200))];
    let r = reduce(allocs, deallocs);
    assert!(r.reused.is_empty());
    assert_eq!(r.allocs.len(), 1);
    assert_eq!(r.deallocs.len(), 1);
}

#[test]
fn reduce_does_not_cancel_across_files() {
    let allocs =
        vec![AllocReq { id: 0, len: 128, file_id: FileId::from_u64(4).unwrap(), obj_id: 0 }];
    let deallocs = vec![(FileId::self_file(), BStackRange::new(0x100, 128))];
    let r = reduce(allocs, deallocs);
    assert!(r.reused.is_empty());
    assert_eq!(r.allocs.len(), 1);
    assert_eq!(r.deallocs.len(), 1);
}

#[test]
fn file_id_is_bounded() {
    assert_eq!(FileId::from_u64(u32::MAX as u64), Some(FileId(u32::MAX)));
    assert_eq!(FileId::from_u64(u32::MAX as u64 + 1), None);
    assert_eq!(FileId(5).as_u64(), 5);
    assert_eq!(FileId(5).table_index(), Some(4));
    assert_eq!(FileId::self_file().table_index(), None);
    assert_eq!(FileId(u32::MAX).table_index(), None);
}

#[test]
fn entry_bytes_are_little_endian() {
    let e = WalEntry::dealloc_in(WalStatus::Pending, FileId(0x0102_0304), BStackRange::new(5, 6));
    let b = e.to_bytes();
    assert_eq!(b.len(), 32);
    assert_eq!(b[1], 1);
    assert_eq!(&b[8..12], &[4, 3, 2, 1]);
    assert_eq!(&b[16..24], &5u64.to_le_bytes());
    assert_eq!(&b[24..32], &6u64.to_le_bytes());
    assert_eq!(WalEntry::from_bytes(&b, 0).to_bytes(), b);
}

#[test]
fn header_round_trips() {
    let h = WalHeader { magic: 77, txn_status: 2, count: 3, capacity: 4 };
    let b = h.to_bytes();
    assert_eq!(b.len(), 32);
    assert_eq!(WalHeader::from_bytes(&b), h);
    assert_eq!(h.txn_status(), WalStatus::Complete);
}

#[test]
fn log_block_is_made_once_and_reused() {
    let mut a = file();
    assert_eq!(read_anchor(&mut a), Ok(None));
    let b = wal_ensure_block(&mut Teardown::new(), &mut a, 3).unwrap();
    assert_eq!(read_anchor(&mut a), Ok(Some(b.range.start)));
    assert!(b.capacity >= 3);
    assert_eq!(wal_capacity_of(b.range), b.capacity);
    let again = wal_ensure_block(&mut Teardown::new(), &mut a, 2).unwrap();
    assert_eq!(again.range, b.range);
    assert_eq!(a.live().len(), 1);
}

#[test]
fn log_block_grows() {
    let mut a = file();
    let small = wal_ensure_block(&mut Teardown::new(), &mut a, 1).unwrap();
    let large = wal_ensure_block(&mut Teardown::new(), &mut a, small.capacity + 1).unwrap();
    assert!(large.capacity > small.capacity);
    assert_ne!(large.range, small.range);
}

#[test]
fn no_anchor_is_an_error() {
    let mut a = MemAllocator::new(
        Settings { anchor: None, bulk: false, file: FileId::self_file(), stack: 1 },
        64,
        1 << 16,
    );
    assert_eq!(wal_ensure_block(&mut Teardown::new(), &mut a, 1).err(), Some(Error::NoWalAnchor));
    assert_eq!(Error::NoWalAnchor.kind(), Some(ErrorKind::Other));
    assert_eq!(finish(&mut Teardown::new(), &mut a), Ok(0));
}

#[test]
fn loaded_log_is_the_persisted_one() {
    let mut a = file();
    let mut log = WalLog::with_capacity(2);
    log.append(WalEntry::alloc_local(WalStatus::Pending, BStackRange::new(1000, 8)));
    log.append(WalEntry::dealloc(WalStatus::Pending, BStackRange::new(2000, 16)));
    persist_at(&mut Teardown::new(), &mut a, &log, WalStatus::Pending).unwrap();
    let staged = load_at(&mut a).unwrap().unwrap();
    assert_eq!(staged.header.txn_status(), WalStatus::Pending);
    assert_eq!(staged.entries.len(), 2);
    assert_eq!(staged.entries[0].to_bytes(), log.entries[0].to_bytes());
    assert_eq!(staged.entries[1].to_bytes(), log.entries[1].to_bytes());
    wal_set_idle(&mut a, staged.range.start).unwrap();
    let after = load_at(&mut a).unwrap();
    assert_eq!(after.unwrap().header.txn_status(), WalStatus::Idle);
    assert_eq!(finish(&mut Teardown::new(), &mut a), Ok(0));
}

#[test]
fn orphans_follow_the_outcome() {
    let entries = vec![
        WalEntry::alloc_local(WalStatus::Pending, BStackRange::new(100, 8)),
        WalEntry::dealloc(WalStatus::Pending, BStackRange::new(200, 8)),
        WalEntry::dealloc(WalStatus::Complete, BStackRange::new(300, 8)),
    ];
    let kept = orphans(&entries, true, 64);
    assert_eq!(kept.len(), 1);
    assert_eq!(kept[0].range, BStackRange::new(200, 8));
    let undone = orphans(&entries, false, 64);
    assert_eq!(undone.len(), 1);
    assert_eq!(undone[0].range, BStackRange::new(100, 8));
}

#[test]
fn abandoned_transaction_gives_its_blocks_back() {
    let mut a = file();
    let block = a.alloc_range(48).unwrap();
    let mut log = WalLog::with_capacity(1);
    log.append(WalEntry::alloc_local(WalStatus::Pending, block));
    persist_at(&mut Teardown::new(), &mut a, &log, WalStatus::Pending).unwrap();
    assert_eq!(finish(&mut Teardown::new(), &mut a), Ok(1));
    assert!(!a.live().contains(&block));
    assert_eq!(finish(&mut Teardown::new(), &mut a), Ok(0));
}

#[test]
fn committed_transaction_keeps_what_it_took() {
    let mut a = file();
    let taken = a.alloc_range(48).unwrap();
    let given = a.alloc_range(16).unwrap();
    let mut log = WalLog::with_capacity(2);
    log.append(WalEntry::alloc_local(WalStatus::Pending, taken));
    log.append(WalEntry::dealloc(WalStatus::Pending, given));
    persist_at(&mut Teardown::new(), &mut a, &log, WalStatus::Complete).unwrap();
    assert_eq!(finish(&mut Teardown::new(), &mut a), Ok(1));
    assert!(a.live().contains(&taken));
    assert!(!a.live().contains(&given));
}

#[test]
fn foreign_orphan_is_freed_in_its_file() {
    let mut a = file();
    a.open_file(FileId(3));
    let mut log = WalLog::with_capacity(1);
    log.append(WalEntry::dealloc_in(WalStatus::Pending, FileId(3), BStackRange::new(96, 8)));
    persist_at(&mut Teardown::new(), &mut a, &log, WalStatus::Complete).unwrap();
    assert_eq!(finish(&mut Teardown::new(), &mut a), Ok(1));
    assert_eq!(a.freed_elsewhere(), &[(FileId(3), BStackRange::new(96, 8))]);
}

#[test]
fn crash_at_any_point_frees_nothing_twice() {
    let mut step: u64 = 0;
    loop {
        let mut a = file();
        let x = a.alloc_range(32).unwrap();
        let y = a.alloc_range(32).unwrap();
        let mut log = WalLog::with_capacity(2);
        log.append(WalEntry::dealloc(WalStatus::Pending, x));
        log.append(WalEntry::dealloc(WalStatus::Pending, y));
        persist_at(&mut Teardown::new(), &mut a, &log, WalStatus::Complete).unwrap();
        a.fail_after(step);
        let first = finish(&mut Teardown::new(), &mut a);
        a.repair();
        let second = finish(&mut Teardown::new(), &mut a);
        assert!(second.is_ok());
        if first.is_ok() {
            assert_eq!(a.live().len(), 1);
            break;
        }
        assert!(a.live().len() <= 3);
        step += 1;
    }
    assert!(step > 2);
}

#[test]
fn appended_entry_joins_the_log() {
    let mut a = file();
    let b = wal_ensure_block(&mut Teardown::new(), &mut a, 4).unwrap();
    let mut log = WalLog::with_capacity(1);
    log.append(WalEntry::alloc_local(WalStatus::Pending, BStackRange::new(100, 8)));
    persist_at(&mut Teardown::new(), &mut a, &log, WalStatus::Pending).unwrap();
    wal_append_alloc(&mut a, b.range.start, 1, BStackRange::new(500, 24)).unwrap();
    let staged = load_at(&mut a).unwrap().unwrap();
    assert_eq!(staged.entries.len(), 2);
    assert_eq!(staged.entries[1].as_alloc(), Some(BStackRange::new(500, 24)));
}

#[test]
fn held_lock_is_not_reentrant() {
    let mut held = HeldLocks::new();
    assert_eq!(held.acquire(7), Ok(()));
    assert_eq!(held.acquire(7), Err(Error::CloneReentry));
    assert_eq!(held.acquire(8), Ok(()));
    held.release(7);
    assert_eq!(held.acquire(7), Ok(()));
    assert_eq!(Error::CloneReentry.kind(), Some(ErrorKind::WouldBlock));
}

#[test]
fn one_lock_per_live_file() {
    let mut table = LockTable::new();
    assert!(!table.is_full());
    let a = table.wal_lock_for(10, &vec![]);
    let b = table.wal_lock_for(20, &vec![a]);
    assert_ne!(a, b);
    assert_eq!(table.wal_lock_for(10, &vec![a, b]), a);
    let c = table.wal_lock_for(10, &vec![b]);
    assert_eq!((a, b, c), (0, 1, 2));
    assert_eq!(table.wal_lock_for(20, &vec![b, c]), b);
}

#[test]
fn a_completion_under_a_collection_is_collected() {
    let mut a = file();
    let gone = a.alloc_range(16).unwrap();
    let mut log = WalLog::with_capacity(1);
    log.append(WalEntry::dealloc_in(WalStatus::Pending, FileId::self_file(), gone));
    let mut ctx = Teardown::new();
    persist_at(&mut ctx, &mut a, &log, WalStatus::Complete).unwrap();
    ctx.install(1);
    assert_eq!(finish(&mut ctx, &mut a), Ok(1));
    assert!(a.live().contains(&gone));
    assert_eq!(ctx.take(), vec![(FileId::self_file(), gone)]);
    assert_eq!(finish(&mut ctx, &mut a), Ok(0));
}

#[test]
fn an_outgrown_block_is_collected() {
    let mut a = file();
    let mut ctx = Teardown::new();
    let small = wal_ensure_block(&mut ctx, &mut a, 1).unwrap();
    ctx.install(1);
    let large = wal_ensure_block(&mut ctx, &mut a, small.capacity + 1).unwrap();
    assert_eq!(read_anchor(&mut a), Ok(Some(large.range.start)));
    assert!(a.live().contains(&small.range));
    assert_eq!(ctx.take(), vec![(FileId::self_file(), small.range)]);
}

#[test]
fn a_second_completion_frees_nothing() {
    let mut a = file();
    let gone = a.alloc_range(16).unwrap();
    let kept = a.alloc_range(16).unwrap();
    let mut log = WalLog::with_capacity(2);
    log.append(WalEntry::dealloc_in(WalStatus::Pending, FileId::self_file(), gone));
    log.append(WalEntry::alloc_local(WalStatus::Pending, kept));
    let mut ctx = Teardown::new();
    persist_at(&mut ctx, &mut a, &log, WalStatus::Complete).unwrap();
    assert_eq!(finish(&mut ctx, &mut a), Ok(1));
    let live = a.live().to_vec();
    assert_eq!(finish(&mut ctx, &mut a), Ok(0));
    assert_eq!(a.live(), &live[..]);
}
