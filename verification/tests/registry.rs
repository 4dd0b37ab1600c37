use std::sync::{Arc, Mutex};

use bstack_raii::allocator::{BStackRaiiAllocator, CounterOp, Settings};
use bstack_raii::error::{Error, ErrorKind};
use bstack_raii::mem::MemAllocator;
use bstack_raii::path::{is_same_path, Separators};
use bstack_raii::range::{BStackRange, FileId};
use bstack_raii::registry::{
    self, encode_record, load, BStackRaiiHost, FileRegistry, Registration,
};

/// A handle on a file in memory that can be shared.
struct Handle(Arc<Mutex<MemAllocator>>);

impl BStackRaiiAllocator for Handle {
    fn settings(&self) -> Settings {
        self.0.lock().unwrap().settings()
    }
    fn get(&mut self, off: u64, len: u64) -> Result<Vec<u8>, Error> {
        self.0.lock().unwrap().get(off, len)
    }
    fn set(&mut self, off: u64, bytes: Vec<u8>) -> Result<(), Error> {
        self.0.lock().unwrap().set(off, bytes)
    }
    fn set_batched(&mut self, writes: Vec<(u64, Vec<u8>)>) -> Result<(), Error> {
        self.0.lock().unwrap().set_batched(writes)
    }
    fn swap(&mut self, off: u64, bytes: Vec<u8>) -> Result<Vec<u8>, Error> {
        self.0.lock().unwrap().swap(off, bytes)
    }
    fn copy(&mut self, from: u64, to: u64, len: u64) -> Result<(), Error> {
        self.0.lock().unwrap().copy(from, to, len)
    }
    fn process(&mut self, off: u64, op: CounterOp) -> Result<u64, Error> {
        self.0.lock().unwrap().process(off, op)
    }
    fn cas(&mut self, off: u64, expected: u64, new: u64) -> Result<bool, Error> {
        self.0.lock().unwrap().cas(off, expected, new)
    }
    fn alloc_range(&mut self, len: u64) -> Result<BStackRange, Error> {
        self.0.lock().unwrap().alloc_range(len)
    }
    fn dealloc(&mut self, range: BStackRange) -> Result<(), Error> {
        self.0.lock().unwrap().dealloc(range)
    }
    fn alloc_bulk(&mut self, lens: Vec<u64>) -> Result<Vec<BStackRange>, Error> {
        self.0.lock().unwrap().alloc_bulk(lens)
    }
    fn dealloc_bulk(&mut self, ranges: Vec<BStackRange>) -> Result<(), Error> {
        self.0.lock().unwrap().dealloc_bulk(ranges)
    }
    fn host_dealloc(&mut self, file: FileId, range: BStackRange) -> Option<Result<(), Error>> {
        self.0.lock().unwrap().host_dealloc(file, range)
    }
}

impl BStackRaiiHost for Handle {
    fn share(&self) -> Handle {
        Handle(self.0.clone())
    }
}

fn host(stack: u64) -> MemAllocator {
    MemAllocator::new(
        Settings { anchor: None, bulk: false, file: FileId::self_file(), stack },
        64,
        1 << 12,
    )
}

fn bytes(t: &str) -> Vec<u8> {
    t.as_bytes().to_vec()
}

#[test]
fn table_round_trips() {
    let mut buf = encode_record(&bytes("/a"));
    assert_eq!(&buf[..8], &[2, 0, 0, 0, 0, 0, 0, 0]);
    buf.extend(encode_record(&bytes("")));
    buf.extend(encode_record(&bytes("/b/c")));
    assert_eq!(load(&buf), vec![bytes("/a"), bytes(""), bytes("/b/c")]);
}

#[test]
fn torn_record_is_ignored() {
    let mut buf = encode_record(&bytes("/a"));
    let torn = encode_record(&bytes("/long/path"));
    buf.extend_from_slice(&torn[..12]);
    assert_eq!(load(&buf), vec![bytes("/a")]);
    buf.truncate(10 + 5);
    assert_eq!(load(&buf), vec![bytes("/a")]);
}

#[test]
fn numbers_are_stable_and_shared_by_nobody() {
    let mut r: FileRegistry<MemAllocator> = FileRegistry::open(Separators::Slash, vec![bytes("/a"), bytes("/b")]);
    assert_eq!(r.id_of(&bytes("/b")), Some(FileId(2)));
    match r.plan(&bytes("/b")).ok().unwrap() {
        Registration::Known(id) => assert_eq!(id, FileId(2)),
        Registration::Append(_, _) => panic!("it has a number"),
    }
    match r.plan(&bytes("/c")).ok().unwrap() {
        Registration::Append(id, record) => {
            assert_eq!(id, FileId(3));
            assert_eq!(record, encode_record(&bytes("/c")));
        }
        Registration::Known(_) => panic!("it has no number"),
    }
    assert_eq!(r.register_path(&bytes("/c"), Ok(())), Ok(FileId(3)));
    assert_eq!(r.register_path(&bytes("/c"), Ok(())), Ok(FileId(3)));
    assert_eq!(r.register_path(&bytes("/a"), Ok(())), Ok(FileId(1)));
    assert_eq!(r.path_of(FileId(3)), Some(bytes("/c")));
    assert_eq!(r.path_of(FileId(9)), None);
    assert_eq!(r.path_of(FileId::self_file()), None);
}

#[test]
fn failed_write_registers_nothing() {
    let mut r: FileRegistry<MemAllocator> = FileRegistry::open(Separators::Slash, vec![]);
    assert_eq!(r.register_path(&bytes("/a"), Err(Error::NoSpace)), Err(Error::NoSpace));
    assert_eq!(r.id_of(&bytes("/a")), None);
    assert_eq!(r.register_path(&bytes("/a"), Ok(())), Ok(FileId(1)));
}

#[test]
fn attach_and_detach() {
    let mut r: FileRegistry<MemAllocator> = FileRegistry::open(Separators::Slash, vec![]);
    let id = r.attach(&bytes("/a"), Ok(()), host(5)).unwrap();
    assert!(r.is_live(id));
    assert_eq!(r.id_of_host(5), Some(id));
    assert!(r.with_host(id).is_some());
    assert_eq!(
        r.attach(&bytes("/b"), Ok(()), host(5)).err(),
        Some(Error::HostAttachedElsewhere)
    );
    assert_eq!(r.attach(&bytes("/a"), Ok(()), host(6)), Ok(id));
    assert_eq!(r.id_of_host(5), None);
    assert_eq!(r.id_of_host(6), Some(id));
    r.detach(id);
    assert!(!r.is_live(id));
    assert_eq!(r.id_of_host(6), None);
    assert_eq!(r.id_of(&bytes("/a")), Some(id));
    assert!(r.host_mut(id).is_none());
}

#[test]
fn a_handle_outlives_a_detach() {
    let mut r: FileRegistry<Handle> = FileRegistry::open(Separators::Slash, vec![]);
    let id = r.attach(&bytes("/a"), Ok(()), Handle(Arc::new(Mutex::new(host(5))))).unwrap();
    let mut h = r.host_arc(id).unwrap();
    r.detach(id);
    assert!(r.host_arc(id).is_none());
    assert_eq!(h.settings().stack, 5);
    h.set(8, vec![1, 2]).unwrap();
    assert_eq!(h.share().get(8, 2), Ok(vec![1, 2]));
    let mut g: Option<FileRegistry<Handle>> = None;
    assert!(registry::host_arc(&g, id).is_none());
    registry::init(&mut g, Separators::Slash, vec![]).unwrap();
    let id = registry::attach(&mut g, &bytes("/b"), Ok(()), h).unwrap();
    assert_eq!(registry::host_arc(&g, id).unwrap().settings().stack, 5);
    assert_eq!(registry::host_mut(&mut g, id).unwrap().get(8, 1), Ok(vec![1]));
}

#[test]
fn paths_are_compared_by_components() {
    let mut r: FileRegistry<MemAllocator> = FileRegistry::open(Separators::Slash, vec![]);
    assert_eq!(r.register_path(&bytes("a"), Ok(())), Ok(FileId(1)));
    assert_eq!(r.register_path(&bytes("a/"), Ok(())), Ok(FileId(1)));
    assert_eq!(r.path_of(FileId(1)), Some(bytes("a")));
    for (p, q, same) in [
        ("a//b", "a/b", true),
        ("a/./b", "a/b", true),
        ("a/b/.", "a/b", true),
        ("/./a", "/a", true),
        ("//a", "/a", true),
        ("./a", "a", false),
        ("./a", "././a", true),
        ("a", "/a", false),
        ("a/../b", "b", false),
        ("", ".", false),
        ("a.", "a", false),
        ("", "", true),
        ("/", "//", true),
    ] {
        assert_eq!(is_same_path(Separators::Slash, &bytes(p), &bytes(q)), same, "{p} {q}");
        let std_says = std::path::Path::new(p) == std::path::Path::new(q);
        assert_eq!(std_says, same, "{p} {q}");
    }
    for (p, q, one, both) in [
        ("a\\b", "a/b", false, true),
        ("\\a", "/a", false, true),
        ("a\\", "a", false, true),
        ("a\\.\\b", "a/b", false, true),
        ("a\\b", "a\\b", true, true),
        ("a\\b", "ab", false, false),
    ] {
        assert_eq!(is_same_path(Separators::Slash, &bytes(p), &bytes(q)), one, "{p} {q}");
        assert_eq!(is_same_path(Separators::Both, &bytes(p), &bytes(q)), both, "{p} {q}");
    }
    let mut r: FileRegistry<MemAllocator> = FileRegistry::open(Separators::Both, vec![]);
    assert_eq!(r.register_path(&bytes("a\\b"), Ok(())), Ok(FileId(1)));
    assert_eq!(r.id_of(&bytes("a/b")), Some(FileId(1)));
}

#[test]
fn registry_is_set_up_once() {
    let mut g: Option<FileRegistry<MemAllocator>> = None;
    assert!(registry::get(&g).is_none());
    assert_eq!(
        registry::register_path(&mut g, &bytes("/a"), Ok(())),
        Err(Error::RegistryNotInitialized)
    );
    assert_eq!(
        registry::attach(&mut g, &bytes("/a"), Ok(()), host(1)).err(),
        Some(Error::RegistryNotInitialized)
    );
    assert_eq!(registry::path_of(&g, FileId(1)), None);
    assert_eq!(registry::id_of(&g, &bytes("/a")), None);
    assert_eq!(registry::id_of_host(&g, 1), None);
    registry::init(&mut g, Separators::Slash, vec![bytes("/a")]).unwrap();
    assert_eq!(registry::init(&mut g, Separators::Slash, vec![]), Err(Error::RegistryAlreadyInitialized));
    assert_eq!(registry::id_of(&g, &bytes("/a")), Some(FileId(1)));
    assert_eq!(registry::path_of(&g, FileId(1)), Some(bytes("/a")));
    let id = registry::attach(&mut g, &bytes("/b"), Ok(()), host(3)).unwrap();
    assert_eq!(registry::id_of_host(&g, 3), Some(id));
    assert!(registry::with_host(&g, id).is_some());
    registry::detach(&mut g, id);
    assert!(registry::with_host(&g, id).is_none());
    assert!(registry::require(&g).is_ok());
    assert_eq!(Error::RegistryNotInitialized.kind(), Some(ErrorKind::NotFound));
    assert_eq!(Error::RegistryAlreadyInitialized.kind(), Some(ErrorKind::AlreadyExists));
}

#[test]
fn every_error_has_words() {
    let all = [
        Error::BlockOffsetOverflow,
        Error::RefcountOverflow,
        Error::RefcountUnderflow,
        Error::RefcountOffsetOverflow,
        Error::CorruptWalCapacity,
        Error::NoWalAnchor,
        Error::CloneReentry,
        Error::TeardownTooDeep,
        Error::RegistryExhausted,
        Error::HostAttachedElsewhere,
        Error::ForeignNotAttached,
        Error::ForeignHomeMismatch,
        Error::ArrayIndexOutOfBounds,
        Error::CastMismatch,
        Error::InvalidDiscriminant,
        Error::CloneCountedBlock,
        Error::CloneCountedEnum,
        Error::NoSpace,
        Error::NotAllocated,
    ];
    for e in all {
        assert!(!e.message().is_empty());
        assert!(e.kind().is_some());
    }
    assert_eq!(Error::Outside { ticket: 3 }.kind(), None);
    assert_eq!(Error::CloneCountedEnum.kind(), Some(ErrorKind::Unsupported));
}
