//! The registry of files: a stable number for every path, and the open file behind it.
//!
//! A pointer to a block of another file holds the number of that file. The table of paths is
//! only ever appended to, so that a number means the same file forever. Which files are open
//! is known in memory only.
use std::collections::HashMap;
use vstd::prelude::*;
use vstd::slice::slice_subrange;

use crate::allocator::BStackRaiiAllocator;
use crate::bytes::{
    get_u64_at, le_bytes, le_value, lemma_le_bytes_len, lemma_le_value_of_bytes, lemma_pow256_4_8,
    u64_le,
};
use crate::error::Error;
use crate::path::{is_same_path, same_path, Separators};
use crate::range::{FileId, SPECIAL_FLOOR};

verus! {

/// The bytes of a path, as numbers.
pub open spec fn views(v: Seq<Vec<u8>>) -> Seq<Seq<u8>> {
    v.map_values(|p: Vec<u8>| p@)
}

/// One record of the table on disk: the length of the path, and the path.
pub open spec fn record(path: Seq<u8>) -> Seq<u8> {
    le_bytes(path.len() as nat, 8) + path
}

/// The table on disk: the records one after another.
pub open spec fn table(paths: Seq<Seq<u8>>) -> Seq<u8>
    decreases paths.len(),
{
    if paths.len() == 0 {
        Seq::empty()
    } else {
        table(paths.drop_last()) + record(paths.last())
    }
}

/// The paths in a table. What is no whole record ends it.
pub open spec fn parse(b: Seq<u8>) -> Seq<Seq<u8>>
    decreases b.len(),
{
    if b.len() < 8 {
        Seq::empty()
    } else {
        let n = le_value(b.subrange(0, 8));
        if 8 + n > b.len() {
            Seq::empty()
        } else {
            seq![b.subrange(8, (8 + n) as int)] + parse(b.skip((8 + n) as int))
        }
    }
}

/// The bytes of one record.
pub fn encode_record(path: &Vec<u8>) -> (r: Vec<u8>)
    ensures
        r@ == record(path@),
{
    let mut rec = u64_le(path.len() as u64);
    rec.extend_from_slice(path.as_slice());
    assert(rec@ =~= record(path@));
    rec
}

/// Read a table.
pub fn load(buf: &[u8]) -> (r: Vec<Vec<u8>>)
    ensures
        views(r@) == parse(buf@),
{
    let mut paths: Vec<Vec<u8>> = Vec::new();
    let mut cur: usize = 0;
    let mut going: bool = true;
    let total: usize = buf.len();
    assert(buf@.skip(0) =~= buf@);
    assert(views(paths@) + parse(buf@) =~= parse(buf@));
    while going && total - cur >= 8
        invariant
            cur <= total,
            total == buf@.len(),
            going ==> views(paths@) + parse(buf@.skip(cur as int)) == parse(buf@),
            !going ==> views(paths@) == parse(buf@),
        decreases total - cur, (if going {
                1int
            } else {
                0int
            }),
    {
        let ghost rest = buf@.skip(cur as int);
        let len: u64 = get_u64_at(buf, cur);
        let ghost n = le_value(rest.subrange(0, 8)) as int;
        assert(buf@.subrange(cur as int, cur + 8) =~= rest.subrange(0, 8));
        let start: usize = cur + 8;
        if len > (total - start) as u64 {
            assert(parse(rest) =~= Seq::empty());
            assert(views(paths@) + Seq::empty() =~= views(paths@));
            going = false;
        } else {
            let end: usize = start + len as usize;
            let mut path: Vec<u8> = Vec::new();
            path.extend_from_slice(slice_subrange(buf, start, end));
            let ghost got = path@;
            let ghost before = views(paths@);
            proof {
                assert(got =~= rest.subrange(8, 8 + n));
                assert(rest.skip(8 + n) =~= buf@.skip(end as int));
                assert(parse(rest) == seq![got] + parse(buf@.skip(end as int)));
            }
            paths.push(path);
            proof {
                assert(views(paths@) =~= before.push(got));
                assert(before + (seq![got] + parse(buf@.skip(end as int))) =~= before.push(got)
                    + parse(buf@.skip(end as int)));
            }
            cur = end;
        }
    }
    proof {
        if going {
            assert(parse(buf@.skip(cur as int)) =~= Seq::empty());
            assert(views(paths@) + Seq::empty() =~= views(paths@));
        }
    }
    paths
}

pub(crate) proof fn lemma_parse_front(path: Seq<u8>, rest: Seq<u8>)
    requires
        path.len() <= u64::MAX,
    ensures
        parse(record(path) + rest) == seq![path] + parse(rest),
{
    let b = record(path) + rest;
    lemma_pow256_4_8();
    lemma_le_bytes_len(path.len(), 8);
    lemma_le_value_of_bytes(path.len(), 8);
    assert(b.subrange(0, 8) =~= le_bytes(path.len(), 8));
    assert(b.subrange(8, (8 + path.len()) as int) =~= path);
    assert(b.skip((8 + path.len()) as int) =~= rest);
}

proof fn lemma_parse_table(paths: Seq<Seq<u8>>, rest: Seq<u8>)
    requires
        forall|i: int| 0 <= i < paths.len() ==> (#[trigger] paths[i]).len() <= u64::MAX,
    ensures
        parse(table(paths) + rest) == paths + parse(rest),
    decreases paths.len(),
{
    if paths.len() == 0 {
        assert(table(paths) + rest =~= rest);
        assert(paths + parse(rest) =~= parse(rest));
    } else {
        let init = paths.drop_last();
        let last = paths.last();
        assert(table(paths) + rest =~= table(init) + (record(last) + rest));
        lemma_parse_table(init, record(last) + rest);
        lemma_parse_front(last, rest);
        assert(init + (seq![last] + parse(rest)) =~= paths + parse(rest));
    }
}

/// What was appended is what is loaded: every path, in order, under the same number.
pub proof fn law_load_gives_what_was_appended(paths: Seq<Seq<u8>>)
    requires
        forall|i: int| 0 <= i < paths.len() ==> (#[trigger] paths[i]).len() <= u64::MAX,
    ensures
        parse(table(paths)) == paths,
{
    lemma_parse_table(paths, Seq::empty());
    assert(table(paths) + Seq::empty() =~= table(paths));
    assert(parse(Seq::empty()) =~= Seq::empty());
    assert(paths + Seq::empty() =~= paths);
}

/// A record that was cut off in the middle, or any other rubbish that is no whole record, does
/// not harm the paths before it.
pub proof fn law_a_torn_record_loses_only_itself(paths: Seq<Seq<u8>>, torn: Seq<u8>)
    requires
        forall|i: int| 0 <= i < paths.len() ==> (#[trigger] paths[i]).len() <= u64::MAX,
        torn.len() < 8 || 8 + le_value(torn.subrange(0, 8)) > torn.len(),
    ensures
        parse(table(paths) + torn) == paths,
{
    lemma_parse_table(paths, torn);
    assert(parse(torn) =~= Seq::empty());
    assert(paths + Seq::empty() =~= paths);
}

/// The registry: the paths, the open files, and which open file is which.
pub struct FileRegistry<H: BStackRaiiAllocator> {
    paths: Vec<Vec<u8>>,
    live: Vec<Option<H>>,
    by_stack: HashMap<u64, FileId>,
    seps: Separators,
}

/// [`FileRegistry`] as sequences. An open file is told by the number of its stack.
pub struct RegistryView {
    pub seps: Separators,
    pub paths: Seq<Seq<u8>>,
    pub live: Seq<Option<u64>>,
    pub by_stack: Map<u64, FileId>,
}

/// The stack numbers of open files.
pub open spec fn keys<H: BStackRaiiAllocator>(live: Seq<Option<H>>) -> Seq<Option<u64>> {
    live.map_values(
        |h: Option<H>|
            match h {
                Some(x) => Some(x.spec_settings().stack),
                None => None,
            },
    )
}

impl<H: BStackRaiiAllocator> View for FileRegistry<H> {
    type V = RegistryView;

    closed spec fn view(&self) -> RegistryView {
        RegistryView {
            seps: self.seps,
            paths: views(self.paths@),
            live: keys(self.live@),
            by_stack: self.by_stack@,
        }
    }
}

impl RegistryView {
    /// Every path has a row, the numbers are not used up, and the reverse table says of each
    /// open file, and of nothing else, which number it has.
    pub open spec fn wf(self) -> bool {
        &&& self.paths.len() == self.live.len()
        &&& self.paths.len() < SPECIAL_FLOOR
        &&& forall|key: u64| #[trigger]
            self.by_stack.contains_key(key) ==> self.is_row(key, self.by_stack[key])
        &&& forall|k: int|
            0 <= k < self.live.len() ==> (#[trigger] self.live[k] matches Some(key)
                ==> self.by_stack.contains_key(key) && self.by_stack[key] == FileId((k + 1) as u32))
    }

    /// Whether an entry of the reverse table is right.
    pub open spec fn is_row(self, key: u64, id: FileId) -> bool {
        1 <= id.0 <= self.live.len() && self.live[id.0 - 1] == Some(key)
    }

    /// The number of `path`: that of the last row that holds the same path.
    pub open spec fn id_of(self, path: Seq<u8>) -> Option<FileId> {
        last_row(self.seps, self.paths, path)
    }

    /// The path behind a number.
    pub open spec fn path_of(self, id: FileId) -> Option<Seq<u8>> {
        match id.spec_table_index() {
            Some(i) => if i < self.paths.len() {
                Some(self.paths[i])
            } else {
                None
            },
            None => None,
        }
    }

    /// The open file behind a number.
    pub open spec fn host_of(self, id: FileId) -> Option<u64> {
        match id.spec_table_index() {
            Some(i) => if i < self.live.len() {
                self.live[i]
            } else {
                None
            },
            None => None,
        }
    }

    /// Whether the file with this number is open.
    pub open spec fn is_live(self, id: FileId) -> bool {
        self.host_of(id) is Some
    }

    /// The number of the open file `key`, by the reverse table.
    pub open spec fn id_of_host(self, key: u64) -> Option<FileId> {
        if self.by_stack.contains_key(key) {
            Some(self.by_stack[key])
        } else {
            None
        }
    }
}

/// The number of the last row that holds the same path as `path`.
pub open spec fn last_row(seps: Separators, paths: Seq<Seq<u8>>, path: Seq<u8>) -> Option<FileId>
    decreases paths.len(),
{
    if paths.len() == 0 {
        None
    } else if same_path(seps, paths.last(), path) {
        Some(FileId(paths.len() as u32))
    } else {
        last_row(seps, paths.drop_last(), path)
    }
}

/// A copy of a byte string.
pub fn copy_bytes(x: &Vec<u8>) -> (r: Vec<u8>)
    ensures
        r@ == x@,
{
    let mut out: Vec<u8> = Vec::with_capacity(x.len());
    out.extend_from_slice(x.as_slice());
    assert(out@ =~= x@);
    out
}

/// What it takes to register a path.
pub enum Registration {
    /// Nothing: it has a number already.
    Known(FileId),
    /// This record has to be appended to the table; the path will have this number.
    Append(FileId, Vec<u8>),
}

/// The state after `path` was appended.
pub open spec fn appended(v: RegistryView, path: Seq<u8>) -> RegistryView {
    RegistryView { paths: v.paths.push(path), live: v.live.push(None), ..v }
}

/// What registering `path` makes of the registry, where `wrote` says whether its record could
/// be appended: the record comes first, and without it nothing changes.
pub open spec fn registered(
    before: RegistryView,
    path: Seq<u8>,
    wrote: Result<(), Error>,
    new: RegistryView,
    r: Result<FileId, Error>,
) -> bool {
    match before.id_of(path) {
        Some(id) => new == before && r == Ok::<FileId, Error>(id),
        None => if before.paths.len() + 1 >= SPECIAL_FLOOR {
            new == before && r == Err::<FileId, Error>(Error::RegistryExhausted)
        } else {
            match wrote {
                Err(e) => new == before && r == Err::<FileId, Error>(e),
                Ok(_) => new == appended(before, path) && r == Ok::<FileId, Error>(
                    FileId((before.paths.len() + 1) as u32),
                ),
            }
        },
    }
}

impl<H: BStackRaiiAllocator> FileRegistry<H> {
    /// A registry with the paths of a table, and no file open.
    pub fn open(seps: Separators, paths: Vec<Vec<u8>>) -> (r: FileRegistry<H>)
        requires
            paths@.len() < SPECIAL_FLOOR,
        ensures
            r@.wf(),
            r@.seps == seps,
            r@.paths == views(paths@),
            r@.live == Seq::new(paths@.len(), |i: int| None::<u64>),
            r@.by_stack == Map::<u64, FileId>::empty(),
            r.hosts() == Seq::new(paths@.len(), |i: int| None::<H>),
    {
        let n: usize = paths.len();
        let mut live: Vec<Option<H>> = Vec::new();
        let mut i: usize = 0;
        while i < n
            invariant
                i <= n,
                live@.len() == i,
                forall|k: int| 0 <= k < i ==> #[trigger] live@[k] is None,
            decreases n - i,
        {
            live.push(None);
            i += 1;
        }
        let r = FileRegistry { seps, paths, live, by_stack: HashMap::new() };
        assert(r@.live =~= Seq::new(paths@.len(), |i: int| None::<u64>));
        assert(r.hosts() =~= Seq::new(paths@.len(), |i: int| None::<H>));
        r
    }

    /// The number registered for `path`, if any.
    pub fn id_of(&self, path: &Vec<u8>) -> (r: Option<FileId>)
        requires
            self@.wf(),
        ensures
            r == self@.id_of(path@),
    {
        let mut i: usize = self.paths.len();
        assert(self@.paths.take(i as int) =~= self@.paths);
        while i > 0
            invariant
                i <= self.paths@.len(),
                self@.wf(),
                last_row(self@.seps, self@.paths.take(i as int), path@) == self@.id_of(path@),
            decreases i,
        {
            proof {
                let now = self@.paths.take(i as int);
                assert(now.drop_last() =~= self@.paths.take(i - 1));
                assert(now.last() == self.paths@[i - 1]@);
            }
            if is_same_path(self.seps, &self.paths[i - 1], path) {
                return Some(FileId(i as u32));
            }
            i -= 1;
        }
        None
    }

    /// What it takes to register `path`.
    pub fn plan(&self, path: &Vec<u8>) -> (r: Result<Registration, Error>)
        requires
            self@.wf(),
        ensures
            match self@.id_of(path@) {
                Some(id) => r == Ok::<Registration, Error>(Registration::Known(id)),
                None => if self@.paths.len() + 1 >= SPECIAL_FLOOR {
                    r == Err::<Registration, Error>(Error::RegistryExhausted)
                } else {
                    r matches Ok(Registration::Append(id, rec)) && id == FileId(
                        (self@.paths.len() + 1) as u32,
                    ) && rec@ == record(path@)
                },
            },
    {
        if let Some(id) = self.id_of(path) {
            return Ok(Registration::Known(id));
        }
        let next: u64 = self.paths.len() as u64 + 1;
        if next >= SPECIAL_FLOOR as u64 {
            return Err(Error::RegistryExhausted);
        }
        Ok(Registration::Append(FileId(next as u32), encode_record(path)))
    }

    /// Register `path`, where `wrote` says whether the record asked for by [`plan`] could be
    /// appended: see [`registered`].
    ///
    /// [`plan`]: FileRegistry::plan
    pub fn register_path(&mut self, path: &Vec<u8>, wrote: Result<(), Error>) -> (r: Result<
        FileId,
        Error,
    >)
        requires
            old(self)@.wf(),
        ensures
            final(self)@.wf(),
            registered(old(self)@, path@, wrote, final(self)@, r),
            final(self).hosts() == (if final(self)@.paths.len() == old(self)@.paths.len() {
                old(self).hosts()
            } else {
                old(self).hosts().push(None)
            }),
    {
        if let Some(id) = self.id_of(path) {
            return Ok(id);
        }
        let next: u64 = self.paths.len() as u64 + 1;
        if next >= SPECIAL_FLOOR as u64 {
            return Err(Error::RegistryExhausted);
        }
        if let Err(e) = wrote {
            return Err(e);
        }
        let ghost before = self@;
        self.paths.push(copy_bytes(path));
        self.live.push(None);
        proof {
            assert(self@.paths =~= before.paths.push(path@));
            assert(self@.live =~= before.live.push(None));
            lemma_appended_wf(before, path@);
        }
        Ok(FileId(next as u32))
    }
}

pub proof fn lemma_appended_wf(v: RegistryView, path: Seq<u8>)
    requires
        v.wf(),
        v.paths.len() + 1 < SPECIAL_FLOOR,
    ensures
        appended(v, path).wf(),
{
    let w = appended(v, path);
    assert forall|key: u64| #[trigger] w.by_stack.contains_key(key) implies w.is_row(
        key,
        w.by_stack[key],
    ) by {
        assert(v.is_row(key, v.by_stack[key]));
    }
    assert forall|k: int| 0 <= k < w.live.len() implies (#[trigger] w.live[k] matches Some(key)
        ==> w.by_stack.contains_key(key) && w.by_stack[key] == FileId((k + 1) as u32)) by {
        if k < v.live.len() {
            assert(w.live[k] == v.live[k]);
        }
    }
}

/// The state once the file `key` is open under the number `id`. A file that was open under it
/// before is not any more.
pub open spec fn with_live(v: RegistryView, id: FileId, key: u64) -> RegistryView {
    let i = id.0 - 1;
    RegistryView {
        live: v.live.update(i, Some(key)),
        by_stack: (match v.live[i] {
            Some(was) => v.by_stack.remove(was),
            None => v.by_stack,
        }).insert(key, id),
        ..v
    }
}

/// The state once no file is open under the number `id`.
pub open spec fn without_live(v: RegistryView, id: FileId) -> RegistryView {
    match v.host_of(id) {
        None => v,
        Some(was) => RegistryView {
            live: v.live.update(id.0 - 1, None),
            by_stack: v.by_stack.remove(was),
            ..v
        },
    }
}

/// What attaching the open file `key` under `path` makes of the registry.
pub open spec fn attached(
    before: RegistryView,
    path: Seq<u8>,
    wrote: Result<(), Error>,
    key: u64,
    mid: RegistryView,
    given: Result<FileId, Error>,
    new: RegistryView,
    r: Result<FileId, Error>,
) -> bool {
    &&& registered(before, path, wrote, mid, given)
    &&& match given {
        Err(e) => new == mid && r == Err::<FileId, Error>(e),
        Ok(id) => match mid.id_of_host(key) {
            Some(other) => if other == id {
                new == with_live(mid, id, key) && r == Ok::<FileId, Error>(id)
            } else {
                new == mid && r == Err::<FileId, Error>(Error::HostAttachedElsewhere)
            },
            None => new == with_live(mid, id, key) && r == Ok::<FileId, Error>(id),
        },
    }
}

pub proof fn lemma_id_of_is_row(seps: Separators, paths: Seq<Seq<u8>>, path: Seq<u8>)
    requires
        paths.len() < SPECIAL_FLOOR,
    ensures
        last_row(seps, paths, path) matches Some(id) ==> 1 <= id.0 <= paths.len() && same_path(
            seps,
            paths[id.0 - 1],
            path,
        ),
        last_row(seps, paths, path) is None ==> forall|k: int|
            0 <= k < paths.len() ==> !same_path(seps, #[trigger] paths[k], path),
    decreases paths.len(),
{
    if paths.len() > 0 {
        let init = paths.drop_last();
        lemma_id_of_is_row(seps, init, path);
        if last_row(seps, paths, path) is None {
            assert forall|k: int| 0 <= k < paths.len() implies !same_path(
                seps,
                #[trigger] paths[k],
                path,
            ) by {
                if k < init.len() {
                    assert(init[k] == paths[k]);
                }
            }
        }
    }
}

pub proof fn lemma_with_live_wf(v: RegistryView, id: FileId, key: u64)
    requires
        v.wf(),
        1 <= id.0 <= v.paths.len(),
        v.id_of_host(key) is None || v.id_of_host(key) == Some(id),
    ensures
        with_live(v, id, key).wf(),
{
    let w = with_live(v, id, key);
    let i = id.0 - 1;
    assert forall|k2: u64| #[trigger] w.by_stack.contains_key(k2) implies w.is_row(
        k2,
        w.by_stack[k2],
    ) by {
        if k2 != key {
            assert(v.by_stack.contains_key(k2));
            assert(v.is_row(k2, v.by_stack[k2]));
            if v.by_stack[k2].0 == id.0 {
                assert(v.live[i] == Some(k2));
            }
        }
    }
    assert forall|k: int| 0 <= k < w.live.len() implies (#[trigger] w.live[k] matches Some(kk)
        ==> w.by_stack.contains_key(kk) && w.by_stack[kk] == FileId((k + 1) as u32)) by {
        if k != i {
            assert(w.live[k] == v.live[k]);
            if let Some(kk) = v.live[k] {
                assert(v.by_stack[kk] == FileId((k + 1) as u32));
                if kk == key {
                    assert(v.id_of_host(key) == Some(FileId((k + 1) as u32)));
                }
            }
        }
    }
}

pub proof fn lemma_without_live_wf(v: RegistryView, id: FileId)
    requires
        v.wf(),
    ensures
        without_live(v, id).wf(),
{
    let w = without_live(v, id);
    if let Some(was) = v.host_of(id) {
        let i = id.0 - 1;
        assert(v.live[i] == Some(was));
        assert(v.by_stack[was] == id);
        assert forall|k2: u64| #[trigger] w.by_stack.contains_key(k2) implies w.is_row(
            k2,
            w.by_stack[k2],
        ) by {
            assert(v.by_stack.contains_key(k2));
            assert(v.is_row(k2, v.by_stack[k2]));
        }
        assert forall|k: int| 0 <= k < w.live.len() implies (#[trigger] w.live[k] matches Some(kk)
            ==> w.by_stack.contains_key(kk) && w.by_stack[kk] == FileId((k + 1) as u32)) by {
            if k != i {
                assert(w.live[k] == v.live[k]);
            }
        }
    }
}

impl<H: BStackRaiiAllocator> FileRegistry<H> {
    /// Register `path`, if need be, and let `host` be its open file. One open file has one
    /// number only. `wrote` is as for [`register_path`](FileRegistry::register_path).
    pub fn attach(&mut self, path: &Vec<u8>, wrote: Result<(), Error>, host: H) -> (r: Result<
        FileId,
        Error,
    >)
        requires
            old(self)@.wf(),
        ensures
            final(self)@.wf(),
            exists|mid: RegistryView, given: Result<FileId, Error>| #[trigger]
                attached(
                    old(self)@,
                    path@,
                    wrote,
                    host.spec_settings().stack,
                    mid,
                    given,
                    final(self)@,
                    r,
                ),
            r matches Ok(id) ==> 1 <= id.0 <= final(self).hosts().len() && final(self).hosts()[id.0
                - 1] == Some(host),
            final(self).hosts().len() >= old(self).hosts().len(),
            forall|k: int|
                0 <= k < old(self).hosts().len() && r != Ok::<FileId, Error>(FileId((k + 1) as u32))
                    ==> #[trigger] final(self).hosts()[k] == old(self).hosts()[k],
    {
        broadcast use vstd::std_specs::hash::group_hash_axioms;

        let ghost before = self@;
        let given = self.register_path(path, wrote);
        let ghost mid = self@;
        let key: u64 = host.settings().stack;
        let id = match given {
            Err(e) => {
                assert(attached(before, path@, wrote, key, mid, given, mid, Err(e)));
                return Err(e);
            },
            Ok(id) => id,
        };
        proof {
            lemma_id_of_is_row(before.seps, before.paths, path@);
        }
        if let Some(other) = self.by_stack.get(&key) {
            if other.0 != id.0 {
                assert(attached(
                    before,
                    path@,
                    wrote,
                    key,
                    mid,
                    given,
                    mid,
                    Err(Error::HostAttachedElsewhere),
                ));
                return Err(Error::HostAttachedElsewhere);
            }
        }
        let idx: usize = (id.0 - 1) as usize;
        proof {
            lemma_with_live_wf(mid, id, key);
            assert(self@.live[idx as int] == mid.live[idx as int]);
        }
        let was: Option<u64> = match &self.live[idx] {
            Some(h) => Some(h.settings().stack),
            None => None,
        };
        if let Some(old_key) = was {
            self.by_stack.remove(&old_key);
        }
        self.live.set(idx, Some(host));
        self.by_stack.insert(key, id);
        proof {
            assert(self@.live =~= mid.live.update(idx as int, Some(key)));
            assert(self@ == with_live(mid, id, key));
            assert(attached(before, path@, wrote, key, mid, given, self@, Ok(id)));
        }
        Ok(id)
    }

    /// Let go of the open file with the number `id`. Its path keeps its number.
    pub fn detach(&mut self, id: FileId)
        requires
            old(self)@.wf(),
        ensures
            final(self)@.wf(),
            final(self)@ == without_live(old(self)@, id),
            final(self).hosts() == (if old(self)@.is_live(id) {
                old(self).hosts().update(id.0 - 1, None)
            } else {
                old(self).hosts()
            }),
    {
        broadcast use vstd::std_specs::hash::group_hash_axioms;

        let ghost before = self@;
        proof {
            lemma_without_live_wf(before, id);
        }
        let idx: usize = match id.table_index() {
            None => {
                return ;
            },
            Some(idx) => idx,
        };
        if idx >= self.live.len() {
            return ;
        }
        assert(self@.live[idx as int] == before.live[idx as int]);
        let was: Option<u64> = match &self.live[idx] {
            Some(h) => Some(h.settings().stack),
            None => None,
        };
        self.live.set(idx, None);
        if let Some(key) = was {
            let mine: bool = match self.by_stack.get(&key) {
                Some(other) => other.0 == id.0,
                None => false,
            };
            assert(before.live[idx as int] == Some(key));
            if mine {
                self.by_stack.remove(&key);
            }
        }
        proof {
            assert(self@.live =~= (match was {
                Some(k) => before.live.update(idx as int, None),
                None => before.live,
            }));
            assert(self@ == without_live(before, id));
            assert(was is None ==> self.live@ =~= old(self).live@);
        }
    }

    /// The open file with the number `id`.
    pub fn with_host(&self, id: FileId) -> (r: Option<&H>)
        ensures
            match r {
                Some(h) => {
                    &&& self@.host_of(id) == Some(h.spec_settings().stack)
                    &&& self.hosts()[id.0 - 1] == Some(*h)
                },
                None => self@.host_of(id) is None,
            },
    {
        match id.table_index() {
            None => None,
            Some(idx) => {
                if idx < self.live.len() {
                    assert(self@.live[idx as int] == keys(self.live@)[idx as int]);
                    match &self.live[idx] {
                        Some(h) => Some(h),
                        None => None,
                    }
                } else {
                    None
                }
            },
        }
    }

    /// The path registered for `id`, if any.
    pub fn path_of(&self, id: FileId) -> (r: Option<Vec<u8>>)
        ensures
            match r {
                Some(p) => self@.path_of(id) == Some(p@),
                None => self@.path_of(id) is None,
            },
    {
        match id.table_index() {
            None => None,
            Some(idx) => {
                if idx < self.paths.len() {
                    assert(self@.paths[idx as int] == self.paths@[idx as int]@);
                    Some(copy_bytes(&self.paths[idx]))
                } else {
                    None
                }
            },
        }
    }

    /// Whether the file with the number `id` is open.
    pub fn is_live(&self, id: FileId) -> (r: bool)
        ensures
            r == self@.is_live(id),
    {
        self.with_host(id).is_some()
    }

    /// The number of the open file `key`.
    pub fn id_of_host(&self, key: u64) -> (r: Option<FileId>)
        ensures
            r == self@.id_of_host(key),
    {
        broadcast use vstd::std_specs::hash::group_hash_axioms;

        match self.by_stack.get(&key) {
            Some(id) => Some(*id),
            None => None,
        }
    }
}

impl<H: BStackRaiiAllocator> FileRegistry<H> {
    /// The open files themselves.
    pub closed spec fn hosts(&self) -> Seq<Option<H>> {
        self.live@
    }

    pub proof fn lemma_live_is_keys(&self)
        ensures
            self@.live == keys(self.hosts()),
    {
    }

    /// Take the open file with the number `id` out for a while.
    pub(crate) fn lend(&mut self, id: FileId) -> (r: Option<H>)
        ensures
            match r {
                Some(h) => {
                    let i = id.0 - 1;
                    &&& 0 <= i < old(self).hosts().len()
                    &&& old(self)@.host_of(id) == Some(h.spec_settings().stack)
                    &&& old(self).hosts()[i] == Some(h)
                    &&& final(self).hosts() == old(self).hosts().update(i, None)
                    &&& final(self)@.seps == old(self)@.seps
                    &&& final(self)@.paths == old(self)@.paths
                    &&& final(self)@.by_stack == old(self)@.by_stack
                },
                None => old(self)@.host_of(id) is None && *final(self) == *old(self),
            },
    {
        let idx: usize = match id.table_index() {
            None => {
                return None;
            },
            Some(idx) => idx,
        };
        if idx >= self.live.len() {
            return None;
        }
        assert(self@.live[idx as int] == keys(self.live@)[idx as int]);
        if self.live[idx].is_none() {
            return None;
        }
        let mut held: Option<H> = None;
        core::mem::swap(&mut self.live[idx], &mut held);
        held
    }

    /// Put the open file with the number `id` back.
    pub(crate) fn give_back(&mut self, id: FileId, host: H)
        requires
            1 <= id.0 <= old(self).hosts().len(),
        ensures
            final(self).hosts() == old(self).hosts().update(id.0 - 1, Some(host)),
            final(self)@.seps == old(self)@.seps,
            final(self)@.paths == old(self)@.paths,
            final(self)@.by_stack == old(self)@.by_stack,
    {
        let idx: usize = (id.0 - 1) as usize;
        self.live.set(idx, Some(host));
    }

    /// The open file with the number `id`, to work with. Everything else stays as it is.
    pub fn host_mut(&mut self, id: FileId) -> (r: Option<&mut H>)
        ensures
            match r {
                Some(h) => {
                    let i = id.0 - 1;
                    &&& old(self)@.host_of(id) == Some(h.spec_settings().stack)
                    &&& 0 <= i < old(self).hosts().len()
                    &&& old(self).hosts()[i] == Some(*h)
                    &&& final(self).hosts() == old(self).hosts().update(i, Some(*final(h)))
                    &&& final(self)@.seps == old(self)@.seps
                    &&& final(self)@.paths == old(self)@.paths
                    &&& final(self)@.by_stack == old(self)@.by_stack
                },
                None => old(self)@.host_of(id) is None && final(self)@ == old(self)@ && final(self).hosts()
                    == old(self).hosts(),
            },
    {
        let idx: usize = match id.table_index() {
            None => {
                return None;
            },
            Some(idx) => idx,
        };
        if idx >= self.live.len() {
            return None;
        }
        assert(self@.live[idx as int] == keys(self.live@)[idx as int]);
        if self.live[idx].is_none() {
            return None;
        }
        match &mut self.live[idx] {
            Some(h) => Some(h),
            None => None,
        }
    }
}

/// An open file that several handles can share.
pub trait BStackRaiiHost: BStackRaiiAllocator {
    /// One more handle on the same file. It is good for as long as it is kept, whatever becomes
    /// of this one.
    fn share(&self) -> (r: Self)
        ensures
            r.spec_settings() == self.spec_settings(),
    ;
}

impl<H: BStackRaiiHost> FileRegistry<H> {
    /// A handle on the open file with the number `id`, to keep: it outlives a
    /// [`detach`](FileRegistry::detach) of the file.
    pub fn host_arc(&self, id: FileId) -> (r: Option<H>)
        ensures
            match r {
                Some(h) => {
                    &&& self@.host_of(id) == Some(h.spec_settings().stack)
                    &&& self.hosts()[id.0 - 1] matches Some(host)
                    &&& h.spec_settings() == host.spec_settings()
                },
                None => self@.host_of(id) is None,
            },
    {
        match self.with_host(id) {
            Some(h) => Some(h.share()),
            None => None,
        }
    }
}

/// Once a file is detached no handle on it is given out any more, while one that was given out
/// before leads to the same file as ever, which has no number now.
pub proof fn law_a_handle_outlives_a_detach<H: BStackRaiiHost>(v: RegistryView, id: FileId, h: H)
    requires
        v.wf(),
        v.host_of(id) == Some(h.spec_settings().stack),
    ensures
        without_live(v, id).host_of(id) is None,
        without_live(v, id).id_of_host(h.spec_settings().stack) is None,
        without_live(v, id).path_of(id) == v.path_of(id),
{
}

/// A number that was given out keeps its path, whatever is registered later.
pub proof fn law_numbers_are_stable(
    before: RegistryView,
    path: Seq<u8>,
    wrote: Result<(), Error>,
    new: RegistryView,
    r: Result<FileId, Error>,
    id: FileId,
)
    requires
        before.wf(),
        registered(before, path, wrote, new, r),
        before.path_of(id) is Some,
    ensures
        new.path_of(id) == before.path_of(id),
        new.host_of(id) == before.host_of(id),
{
}

/// A path that was registered has its number from then on, and registering it again gives the
/// same number and changes nothing.
pub proof fn law_registering_is_idempotent(
    before: RegistryView,
    path: Seq<u8>,
    wrote: Result<(), Error>,
    new: RegistryView,
    id: FileId,
    again: Result<(), Error>,
    newer: RegistryView,
    r2: Result<FileId, Error>,
)
    requires
        before.wf(),
        registered(before, path, wrote, new, Ok(id)),
        registered(new, path, again, newer, r2),
    ensures
        new.path_of(id) matches Some(p) && same_path(before.seps, p, path),
        new.id_of(path) == Some(id),
        newer == new,
        r2 == Ok::<FileId, Error>(id),
{
    lemma_id_of_is_row(before.seps, before.paths, path);
    if before.id_of(path) is None {
        assert(new.paths.last() == path);
    }
}

/// No two paths share a number, and the same path, however it is written, has one number.
pub proof fn law_paths_do_not_share_numbers(v: RegistryView, p: Seq<u8>, q: Seq<u8>)
    requires
        v.wf(),
    ensures
        same_path(v.seps, p, q) ==> v.id_of(p) == v.id_of(q),
        v.id_of(p) is Some && v.id_of(p) == v.id_of(q) ==> same_path(v.seps, p, q),
{
    lemma_id_of_is_row(v.seps, v.paths, p);
    lemma_id_of_is_row(v.seps, v.paths, q);
    if same_path(v.seps, p, q) {
        lemma_same_row(v.seps, v.paths, p, q);
    }
}

proof fn lemma_same_row(seps: Separators, paths: Seq<Seq<u8>>, p: Seq<u8>, q: Seq<u8>)
    requires
        same_path(seps, p, q),
    ensures
        last_row(seps, paths, p) == last_row(seps, paths, q),
    decreases paths.len(),
{
    if paths.len() > 0 {
        lemma_same_row(seps, paths.drop_last(), p, q);
    }
}

/// A file that was attached is open under its number and found by its stack; after it is
/// detached it is neither, and its path keeps the number. No other number is affected.
pub proof fn law_detach_undoes_attach(v: RegistryView, id: FileId, key: u64, other: FileId)
    requires
        v.wf(),
        1 <= id.0 <= v.paths.len(),
        v.id_of_host(key) is None,
        v.host_of(id) is None,
        other != id,
    ensures
        with_live(v, id, key).host_of(id) == Some(key),
        with_live(v, id, key).id_of_host(key) == Some(id),
        with_live(v, id, key).host_of(other) == v.host_of(other),
        without_live(with_live(v, id, key), id) == v,
{
    let w = with_live(v, id, key);
    let back = without_live(w, id);
    assert(back.live =~= v.live);
    assert(back.by_stack =~= v.by_stack);
}

/// An open file has one number: what is found by its stack is where it is open.
pub proof fn law_an_open_file_has_one_number(v: RegistryView, a: FileId, b: FileId)
    requires
        v.wf(),
        v.host_of(a) is Some,
        v.host_of(a) == v.host_of(b),
    ensures
        a == b,
        v.id_of_host(v.host_of(a)->0) == Some(a),
{
    assert(v.live[a.0 - 1] is Some);
    assert(v.live[b.0 - 1] is Some);
}

/// Set the registry up, with the paths of its table. It can be set up once.
pub fn init<H: BStackRaiiAllocator>(
    global: &mut Option<FileRegistry<H>>,
    seps: Separators,
    paths: Vec<Vec<u8>>,
) -> (r: Result<(), Error>)
    requires
        *old(global) is None ==> paths@.len() < SPECIAL_FLOOR,
    ensures
        match *old(global) {
            Some(reg) => r == Err::<(), Error>(Error::RegistryAlreadyInitialized) && *final(global)
                == *old(global),
            None => {
                &&& r is Ok
                &&& *final(global) matches Some(reg)
                &&& reg@.wf()
                &&& reg@.seps == seps
                &&& reg@.paths == views(paths@)
                &&& reg@.live == Seq::new(paths@.len(), |i: int| None::<u64>)
                &&& reg@.by_stack == Map::<u64, FileId>::empty()
                &&& reg.hosts() == Seq::new(paths@.len(), |i: int| None::<H>)
            },
        },
{
    if global.is_some() {
        return Err(Error::RegistryAlreadyInitialized);
    }
    *global = Some(FileRegistry::open(seps, paths));
    Ok(())
}

/// The registry, if it is set up.
pub fn get<H: BStackRaiiAllocator>(global: &Option<FileRegistry<H>>) -> (r: Option<
    &FileRegistry<H>,
>)
    ensures
        match *global {
            Some(reg) => r matches Some(x) && *x == reg,
            None => r is None,
        },
{
    match global {
        Some(reg) => Some(reg),
        None => None,
    }
}

/// The registry, or the failure that it is not set up.
pub fn require<H: BStackRaiiAllocator>(global: &Option<FileRegistry<H>>) -> (r: Result<
    &FileRegistry<H>,
    Error,
>)
    ensures
        match *global {
            Some(reg) => r matches Ok(x) && *x == reg,
            None => r matches Err(e) && e == Error::RegistryNotInitialized,
        },
{
    match global {
        Some(reg) => Ok(reg),
        None => Err(Error::RegistryNotInitialized),
    }
}

/// [`FileRegistry::register_path`], if the registry is set up.
pub fn register_path<H: BStackRaiiAllocator>(
    global: &mut Option<FileRegistry<H>>,
    path: &Vec<u8>,
    wrote: Result<(), Error>,
) -> (r: Result<FileId, Error>)
    requires
        *old(global) matches Some(reg) ==> reg@.wf(),
    ensures
        match *old(global) {
            Some(reg) => *final(global) matches Some(new) && new@.wf() && registered(
                reg@,
                path@,
                wrote,
                new@,
                r,
            ) && new.hosts() == (if new@.paths.len() == reg@.paths.len() {
                reg.hosts()
            } else {
                reg.hosts().push(None)
            }),
            None => *final(global) is None && r == Err::<FileId, Error>(
                Error::RegistryNotInitialized,
            ),
        },
{
    match global {
        Some(reg) => reg.register_path(path, wrote),
        None => Err(Error::RegistryNotInitialized),
    }
}

/// [`FileRegistry::attach`], if the registry is set up.
pub fn attach<H: BStackRaiiAllocator>(
    global: &mut Option<FileRegistry<H>>,
    path: &Vec<u8>,
    wrote: Result<(), Error>,
    host: H,
) -> (r: Result<FileId, Error>)
    requires
        *old(global) matches Some(reg) ==> reg@.wf(),
    ensures
        match *old(global) {
            Some(reg) => *final(global) matches Some(new) && new@.wf() && exists|
                mid: RegistryView,
                given: Result<FileId, Error>,
            | #[trigger]
                attached(
                    reg@,
                    path@,
                    wrote,
                    host.spec_settings().stack,
                    mid,
                    given,
                    new@,
                    r,
                ),
            None => *final(global) is None && r == Err::<FileId, Error>(
                Error::RegistryNotInitialized,
            ),
        },
        r matches Ok(id) ==> (*final(global) matches Some(new) && new.hosts()[id.0 - 1] == Some(
            host,
        )),
        *old(global) matches Some(reg) ==> (*final(global) matches Some(new) && new.hosts().len()
            >= reg.hosts().len() && forall|k: int|
            0 <= k < reg.hosts().len() && r != Ok::<FileId, Error>(FileId((k + 1) as u32))
                ==> #[trigger] new.hosts()[k] == reg.hosts()[k]),
{
    match global {
        Some(reg) => reg.attach(path, wrote, host),
        None => Err(Error::RegistryNotInitialized),
    }
}

/// [`FileRegistry::detach`]; nothing where the registry is not set up.
pub fn detach<H: BStackRaiiAllocator>(global: &mut Option<FileRegistry<H>>, id: FileId)
    requires
        *old(global) matches Some(reg) ==> reg@.wf(),
    ensures
        match *old(global) {
            Some(reg) => *final(global) matches Some(new) && new@.wf() && new@ == without_live(
                reg@,
                id,
            ) && new.hosts() == (if reg@.is_live(id) {
                reg.hosts().update(id.0 - 1, None)
            } else {
                reg.hosts()
            }),
            None => *final(global) is None,
        },
{
    if let Some(reg) = global {
        reg.detach(id);
    }
}

/// [`FileRegistry::with_host`]; none where the registry is not set up.
pub fn with_host<H: BStackRaiiAllocator>(global: &Option<FileRegistry<H>>, id: FileId) -> (r:
    Option<&H>)
    ensures
        match *global {
            Some(reg) => match r {
                Some(h) => {
                    &&& reg@.host_of(id) == Some(h.spec_settings().stack)
                    &&& reg.hosts()[id.0 - 1] == Some(*h)
                },
                None => reg@.host_of(id) is None,
            },
            None => r is None,
        },
{
    match global {
        Some(reg) => reg.with_host(id),
        None => None,
    }
}

/// [`FileRegistry::host_arc`]; none where the registry is not set up.
pub fn host_arc<H: BStackRaiiHost>(global: &Option<FileRegistry<H>>, id: FileId) -> (r: Option<H>)
    ensures
        match *global {
            Some(reg) => match r {
                Some(h) => {
                    &&& reg@.host_of(id) == Some(h.spec_settings().stack)
                    &&& reg.hosts()[id.0 - 1] matches Some(host)
                    &&& h.spec_settings() == host.spec_settings()
                },
                None => reg@.host_of(id) is None,
            },
            None => r is None,
        },
{
    match global {
        Some(reg) => reg.host_arc(id),
        None => None,
    }
}

/// [`FileRegistry::host_mut`]; none where the registry is not set up.
pub fn host_mut<H: BStackRaiiAllocator>(global: &mut Option<FileRegistry<H>>, id: FileId) -> (r:
    Option<&mut H>)
    ensures
        match *old(global) {
            Some(reg) => match r {
                Some(h) => {
                    &&& reg@.host_of(id) == Some(h.spec_settings().stack)
                    &&& reg.hosts()[id.0 - 1] == Some(*h)
                    &&& *final(global) matches Some(new)
                    &&& new.hosts() == reg.hosts().update(id.0 - 1, Some(*final(h)))
                    &&& new@.seps == reg@.seps
                    &&& new@.paths == reg@.paths
                    &&& new@.by_stack == reg@.by_stack
                },
                None => {
                    &&& reg@.host_of(id) is None
                    &&& *final(global) matches Some(new)
                    &&& new@ == reg@
                    &&& new.hosts() == reg.hosts()
                },
            },
            None => r is None && *final(global) is None,
        },
{
    match global {
        Some(reg) => reg.host_mut(id),
        None => None,
    }
}

/// [`FileRegistry::path_of`]; none where the registry is not set up.
pub fn path_of<H: BStackRaiiAllocator>(global: &Option<FileRegistry<H>>, id: FileId) -> (r: Option<
    Vec<u8>,
>)
    ensures
        match *global {
            Some(reg) => match r {
                Some(p) => reg@.path_of(id) == Some(p@),
                None => reg@.path_of(id) is None,
            },
            None => r is None,
        },
{
    match global {
        Some(reg) => reg.path_of(id),
        None => None,
    }
}

/// [`FileRegistry::id_of`]; none where the registry is not set up.
pub fn id_of<H: BStackRaiiAllocator>(global: &Option<FileRegistry<H>>, path: &Vec<u8>) -> (r: Option<
    FileId,
>)
    requires
        *global matches Some(reg) ==> reg@.wf(),
    ensures
        r == (match *global {
            Some(reg) => reg@.id_of(path@),
            None => None,
        }),
{
    match global {
        Some(reg) => reg.id_of(path),
        None => None,
    }
}

/// The number of the open file `key`; none where it has none, or the registry is not set up.
pub open spec fn host_id<H: BStackRaiiAllocator>(global: Option<FileRegistry<H>>, key: u64) ->
    Option<FileId> {
    match global {
        Some(reg) => reg@.id_of_host(key),
        None => None,
    }
}

/// [`FileRegistry::id_of_host`]; none where the registry is not set up.
pub fn id_of_host<H: BStackRaiiAllocator>(global: &Option<FileRegistry<H>>, key: u64) -> (r: Option<
    FileId,
>)
    ensures
        r == host_id(*global, key),
{
    match global {
        Some(reg) => reg.id_of_host(key),
        None => None,
    }
}

} // verus!
