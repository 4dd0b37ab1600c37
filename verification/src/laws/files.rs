//! The registry of files: a number means one path forever, and an open file has one number.
use vstd::prelude::*;

use crate::allocator::BStackRaiiAllocator;
use crate::bytes::le_value;
use crate::error::Error;
use crate::path::{same_path, Separators};
use crate::range::FileId;
use crate::registry::{
    attach, attached, detach, encode_record, id_of, id_of_host, init, keys, last_row,
    lemma_id_of_is_row, lemma_parse_front, load, path_of, register_path, views, with_host,
    FileRegistry, Registration, RegistryView,
};

verus! {

/// Whether the row of this number holds the same path as `path`.
pub open spec fn holds_path(v: RegistryView, id: FileId, path: Seq<u8>) -> bool {
    1 <= id.0 <= v.paths.len() && same_path(v.seps, v.paths[id.0 - 1], path)
}

proof fn lemma_last_row(seps: Separators, paths: Seq<Seq<u8>>, path: Seq<u8>, k: int)
    requires
        paths.len() < 0xffff_ff00,
        last_row(seps, paths, path) matches Some(id) && id.0 <= k < paths.len(),
    ensures
        !same_path(seps, paths[k], path),
    decreases paths.len(),
{
    let init = paths.drop_last();
    if k < init.len() {
        lemma_last_row(seps, init, path, k);
    }
}

/// A path is found by its number, and by no other: the last row that holds it says which.
pub proof fn law_a_path_is_found_where_it_lies<H: BStackRaiiAllocator>(
    reg: &FileRegistry<H>,
    path: &Vec<u8>,
    r: Option<FileId>,
)
    requires
        reg@.wf(),
        call_ensures(FileRegistry::<H>::id_of, (reg, path), r),
    ensures
        r matches Some(id) ==> holds_path(reg@, id, path@) && forall|k: int|
            id.0 <= k < reg@.paths.len() ==> !same_path(
                reg@.seps,
                #[trigger] reg@.paths[k],
                path@,
            ),
        r is None ==> forall|k: int|
            0 <= k < reg@.paths.len() ==> !same_path(reg@.seps, #[trigger] reg@.paths[k], path@),
{
    lemma_id_of_is_row(reg@.seps, reg@.paths, path@);
    if let Some(id) = r {
        assert forall|k: int| id.0 <= k < reg@.paths.len() implies !same_path(
            reg@.seps,
            #[trigger] reg@.paths[k],
            path@,
        ) by {
            lemma_last_row(reg@.seps, reg@.paths, path@, k);
        }
    }
}

/// Whether every row of `v` is still there, with its path.
pub open spec fn rows_stay(v: RegistryView, new: RegistryView) -> bool {
    &&& new.seps == v.seps
    &&& v.paths.len() <= new.paths.len() <= v.paths.len() + 1
    &&& forall|k: int| 0 <= k < v.paths.len() ==> #[trigger] new.paths[k] == v.paths[k]
}

/// Registering a path gives it a number that it keeps; no other number changes its path; and
/// nothing changes without the record.
pub proof fn law_a_registered_path_has_a_number<H: BStackRaiiAllocator>(
    reg: &mut FileRegistry<H>,
    path: &Vec<u8>,
    wrote: Result<(), Error>,
    r: Result<FileId, Error>,
)
    requires
        old(reg)@.wf(),
        call_ensures(FileRegistry::<H>::register_path, (reg, path, wrote), r),
    ensures
        rows_stay(old(reg)@, final(reg)@),
        final(reg)@.by_stack == old(reg)@.by_stack,
        r matches Ok(id) ==> holds_path(final(reg)@, id, path@),
        final(reg)@.paths.len() == old(reg)@.paths.len() ==> final(reg)@ == old(reg)@,
        final(reg)@.paths.len() > old(reg)@.paths.len() ==> {
            &&& wrote is Ok
            &&& final(reg)@.paths.last() == path@
            &&& r == Ok::<FileId, Error>(FileId(final(reg)@.paths.len() as u32))
            &&& forall|k: int|
                0 <= k < old(reg)@.paths.len() ==> !same_path(
                    old(reg)@.seps,
                    #[trigger] old(reg)@.paths[k],
                    path@,
                )
        },
        r matches Err(e) ==> {
            &&& forall|k: int|
                0 <= k < old(reg)@.paths.len() ==> !same_path(
                    old(reg)@.seps,
                    #[trigger] old(reg)@.paths[k],
                    path@,
                )
            &&& if old(reg)@.paths.len() + 1 >= 0xffff_ff00 {
                e == Error::RegistryExhausted
            } else {
                wrote == Err::<(), Error>(e)
            }
        },
{
    lemma_id_of_is_row(old(reg)@.seps, old(reg)@.paths, path@);
    lemma_same_path_is_same(old(reg)@.seps, path@);
}

proof fn lemma_same_path_is_same(seps: Separators, path: Seq<u8>)
    ensures
        same_path(seps, path, path),
{
}

/// What a registration will take is what it takes: a path that has a number needs no record, and
/// another gets the next one.
pub proof fn law_a_new_path_is_recorded<H: BStackRaiiAllocator>(
    reg: &FileRegistry<H>,
    path: &Vec<u8>,
    made: Vec<u8>,
    r: Result<Registration, Error>,
)
    requires
        reg@.wf(),
        call_ensures(encode_record, (path,), made),
        call_ensures(FileRegistry::<H>::plan, (reg, path), r),
    ensures
        match r {
            Ok(Registration::Known(id)) => holds_path(reg@, id, path@),
            Ok(Registration::Append(id, rec)) => {
                &&& id.0 == reg@.paths.len() + 1
                &&& id.0 < 0xffff_ff00
                &&& rec@ == made@
                &&& forall|k: int|
                    0 <= k < reg@.paths.len() ==> !same_path(
                        reg@.seps,
                        #[trigger] reg@.paths[k],
                        path@,
                    )
            },
            Err(e) => e == Error::RegistryExhausted && reg@.paths.len() + 1 >= 0xffff_ff00,
        },
{
    lemma_id_of_is_row(reg@.seps, reg@.paths, path@);
}

/// A record is read back as its path, before whatever comes after it.
pub proof fn law_a_record_is_read_back(
    path: &Vec<u8>,
    made: Vec<u8>,
    rest: &[u8],
    others: Vec<Vec<u8>>,
    buf: &[u8],
    r: Vec<Vec<u8>>,
)
    requires
        path@.len() <= u64::MAX,
        call_ensures(encode_record, (path,), made),
        call_ensures(load, (rest,), others),
        buf@ == made@ + rest@,
        call_ensures(load, (buf,), r),
    ensures
        r@.len() == others@.len() + 1,
        r@[0]@ == path@,
        forall|i: int| 0 <= i < others@.len() ==> (#[trigger] others@[i])@ == r@[i + 1]@,
{
    lemma_parse_front(path@, rest@);
    assert(views(r@).len() == r@.len());
    assert(views(others@).len() == others@.len());
    assert(views(r@)[0] == r@[0]@);
    assert forall|i: int| 0 <= i < others@.len() implies (#[trigger] others@[i])@ == r@[i + 1]@ by {
        assert(views(r@)[i + 1] == r@[i + 1]@);
        assert(views(others@)[i] == others@[i]@);
    }
}

/// What is no whole record is read as nothing.
pub proof fn law_a_torn_record_is_read_as_nothing(buf: &[u8], r: Vec<Vec<u8>>)
    requires
        buf@.len() < 8 || 8 + le_value(buf@.subrange(0, 8)) > buf@.len(),
        call_ensures(load, (buf,), r),
    ensures
        r@.len() == 0,
{
    assert(views(r@).len() == r@.len());
}

/// Whether the open file with the stack `key` is known under this number.
pub open spec fn known_as(v: RegistryView, key: u64, id: FileId) -> bool {
    v.by_stack.contains_key(key) && v.by_stack[key] == id
}

/// A file that is attached is open under the number of its path, and under no other; every other
/// open file stays open under its own.
pub proof fn law_an_attached_file_is_open<H: BStackRaiiAllocator>(
    reg: &mut FileRegistry<H>,
    path: &Vec<u8>,
    wrote: Result<(), Error>,
    host: H,
    r: Result<FileId, Error>,
    key: u64,
)
    requires
        old(reg)@.wf(),
        call_ensures(FileRegistry::<H>::attach, (reg, path, wrote, host), r),
    ensures
        rows_stay(old(reg)@, final(reg)@),
        ({
            let mine = host.spec_settings().stack;
            match r {
                Ok(id) => {
                    &&& holds_path(final(reg)@, id, path@)
                    &&& final(reg).hosts()[id.0 - 1] == Some(host)
                    &&& known_as(final(reg)@, mine, id)
                    &&& !old(reg)@.by_stack.contains_key(mine) || known_as(old(reg)@, mine, id)
                    &&& forall|k: int|
                        0 <= k < old(reg).hosts().len() && k != id.0 - 1
                            ==> #[trigger] final(reg).hosts()[k] == old(reg).hosts()[k]
                    &&& key != mine ==> (final(reg)@.by_stack.contains_key(key)
                        <==> old(reg)@.by_stack.contains_key(key) && old(reg)@.by_stack[key] != id)
                    &&& key != mine && final(reg)@.by_stack.contains_key(key)
                        ==> final(reg)@.by_stack[key] == old(reg)@.by_stack[key]
                },
                Err(e) => {
                    &&& final(reg)@.by_stack == old(reg)@.by_stack
                    &&& forall|k: int|
                        0 <= k < old(reg).hosts().len() ==> #[trigger] final(reg).hosts()[k]
                            == old(reg).hosts()[k]
                    &&& e == Error::HostAttachedElsewhere ==> old(reg)@.by_stack.contains_key(mine)
                        || wrote == Err::<(), Error>(e)
                    &&& e == Error::HostAttachedElsewhere || e == Error::RegistryExhausted || wrote
                        == Err::<(), Error>(e)
                },
            }
        }),
{
    let mine = host.spec_settings().stack;
    let before = old(reg)@;
    lemma_id_of_is_row(before.seps, before.paths, path@);
    lemma_same_path_is_same(before.seps, path@);
    let (mid, given) = choose|mid: RegistryView, given: Result<FileId, Error>| #[trigger]
        attached(before, path@, wrote, mine, mid, given, final(reg)@, r);
    assert(attached(before, path@, wrote, mine, mid, given, final(reg)@, r));
    if let Ok(id) = r {
        old(reg).lemma_live_is_keys();
        assert(keys(old(reg).hosts()).len() == old(reg).hosts().len());
        let was_open = old(reg).hosts();
        let is_open = final(reg).hosts();
        assert forall|k: int| 0 <= k < was_open.len() && k != id.0 - 1 implies #[trigger] is_open[k]
            == was_open[k] by {
            assert(FileId((k + 1) as u32).0 != id.0);
        }
        if let Some(was) = mid.live[id.0 - 1] {
            assert(before.live[id.0 - 1] == Some(was));
            assert(before.by_stack[was] == id);
            if key != mine && before.by_stack.contains_key(key) && before.by_stack[key] == id {
                assert(before.is_row(key, id));
            }
        } else if key != mine && before.by_stack.contains_key(key) && before.by_stack[key] == id {
            assert(before.is_row(key, id));
        }
    }
}

/// A file that is attached already under one number is refused under another.
pub proof fn law_an_open_file_keeps_its_number<H: BStackRaiiAllocator>(
    reg: &mut FileRegistry<H>,
    path: &Vec<u8>,
    wrote: Result<(), Error>,
    host: H,
    r: Result<FileId, Error>,
    id: FileId,
)
    requires
        old(reg)@.wf(),
        known_as(old(reg)@, host.spec_settings().stack, id),
        call_ensures(FileRegistry::<H>::attach, (reg, path, wrote, host), r),
    ensures
        r matches Ok(x) ==> x == id,
        known_as(final(reg)@, host.spec_settings().stack, id),
{
    let mine = host.spec_settings().stack;
    lemma_id_of_is_row(old(reg)@.seps, old(reg)@.paths, path@);
    let (mid, given) = choose|mid: RegistryView, given: Result<FileId, Error>| #[trigger]
        attached(old(reg)@, path@, wrote, mine, mid, given, final(reg)@, r);
    assert(attached(old(reg)@, path@, wrote, mine, mid, given, final(reg)@, r));
}

/// A file that is detached is open no more, and nothing leads to it; its path keeps its number,
/// and no other file is affected.
pub proof fn law_a_detached_file_is_closed<H: BStackRaiiAllocator>(
    reg: &mut FileRegistry<H>,
    id: FileId,
    key: u64,
)
    requires
        old(reg)@.wf(),
        1 <= id.0 <= old(reg)@.paths.len(),
        call_ensures(FileRegistry::<H>::detach, (reg, id), ()),
    ensures
        final(reg)@.paths == old(reg)@.paths,
        final(reg)@.seps == old(reg)@.seps,
        final(reg).hosts().len() == old(reg).hosts().len(),
        final(reg).hosts()[id.0 - 1] is None,
        forall|k: int|
            0 <= k < old(reg).hosts().len() && k != id.0 - 1 ==> #[trigger] final(reg).hosts()[k]
                == old(reg).hosts()[k],
        final(reg)@.by_stack.contains_key(key) <==> old(reg)@.by_stack.contains_key(key)
            && old(reg)@.by_stack[key] != id,
        final(reg)@.by_stack.contains_key(key) ==> final(reg)@.by_stack[key]
            == old(reg)@.by_stack[key],
{
    let v = old(reg)@;
    old(reg).lemma_live_is_keys();
    let live = keys(old(reg).hosts());
    assert(live.len() == old(reg).hosts().len());
    assert(v.live[id.0 - 1] is Some == old(reg).hosts()[id.0 - 1] is Some);
    if let Some(was) = v.live[id.0 - 1] {
        assert(v.by_stack[was] == id);
    }
    if v.by_stack.contains_key(key) {
        assert(v.is_row(key, v.by_stack[key]));
    }
}

/// The path and the open file behind a number are those of its row.
pub proof fn law_a_number_names_its_row<H: BStackRaiiAllocator>(
    reg: &FileRegistry<H>,
    id: FileId,
    path: Option<Vec<u8>>,
    host: Option<&H>,
    live: bool,
)
    requires
        reg@.wf(),
        call_ensures(FileRegistry::<H>::path_of, (reg, id), path),
        call_ensures(FileRegistry::<H>::with_host, (reg, id), host),
        call_ensures(FileRegistry::<H>::is_live, (reg, id), live),
    ensures
        path is Some <==> 1 <= id.0 <= reg@.paths.len(),
        path matches Some(p) ==> p@ == reg@.paths[id.0 - 1],
        host is Some <==> 1 <= id.0 <= reg.hosts().len() && reg.hosts()[id.0 - 1] is Some,
        host matches Some(h) ==> reg.hosts()[id.0 - 1] == Some(*h),
        live == (host is Some),
{
    reg.lemma_live_is_keys();
    let live = keys(reg.hosts());
    assert(live.len() == reg.hosts().len());
    if 1 <= id.0 <= live.len() {
        assert(live[id.0 - 1] is Some == reg.hosts()[id.0 - 1] is Some);
    }
}

/// An open file is found by its stack, under the number at which it is open.
pub proof fn law_an_open_file_is_found_by_its_stack<H: BStackRaiiAllocator>(
    reg: &FileRegistry<H>,
    key: u64,
    r: Option<FileId>,
)
    requires
        reg@.wf(),
        call_ensures(FileRegistry::<H>::id_of_host, (reg, key), r),
    ensures
        match r {
            Some(id) => 1 <= id.0 <= reg.hosts().len() && (reg.hosts()[id.0 - 1] matches Some(h)
                && h.spec_settings().stack == key),
            None => forall|k: int|
                0 <= k < reg.hosts().len() ==> (#[trigger] reg.hosts()[k] matches Some(h)
                    ==> h.spec_settings().stack != key),
        },
{
    reg.lemma_live_is_keys();
    let live = keys(reg.hosts());
    assert(live.len() == reg.hosts().len());
    match r {
        Some(id) => {
            assert(reg@.is_row(key, id));
            assert(live[id.0 - 1] == Some(key));
        },
        None => {
            assert forall|k: int| 0 <= k < reg.hosts().len() implies (#[trigger] reg.hosts()[k]
                matches Some(h) ==> h.spec_settings().stack != key) by {
                assert(reg@.live[k] == live[k]);
            }
        },
    }
}

/// The registry is set up once; until then nothing has a number and nothing is open.
pub proof fn law_the_registry_is_set_up_once<H: BStackRaiiAllocator>(
    global: &mut Option<FileRegistry<H>>,
    seps: Separators,
    paths: Vec<Vec<u8>>,
    r: Result<(), Error>,
)
    requires
        call_ensures(init::<H>, (global, seps, paths), r),
    ensures
        r is Ok <==> *old(global) is None,
        r matches Err(e) ==> e == Error::RegistryAlreadyInitialized && *final(global) == *old(
            global,
        ),
        r is Ok ==> {
            &&& *final(global) matches Some(reg)
            &&& reg@.seps == seps
            &&& reg@.paths.len() == paths@.len()
            &&& forall|k: int| 0 <= k < paths@.len() ==> reg@.paths[k] == (#[trigger] paths@[k])@
            &&& reg.hosts().len() == paths@.len()
            &&& forall|k: int| 0 <= k < paths@.len() ==> (#[trigger] reg.hosts()[k]) is None
            &&& forall|key: u64| !(#[trigger] reg@.by_stack.contains_key(key))
        },
{
}

/// Without a registry there are no numbers.
pub proof fn law_without_a_registry_there_are_no_numbers<H: BStackRaiiAllocator>(
    global: &mut Option<FileRegistry<H>>,
    path: &Vec<u8>,
    wrote: Result<(), Error>,
    r: Result<FileId, Error>,
)
    requires
        *old(global) is None,
        call_ensures(register_path::<H>, (global, path, wrote), r),
    ensures
        r matches Err(e) && e == Error::RegistryNotInitialized,
        *final(global) is None,
{
}

/// The registry that is set up answers as it would by itself.
pub proof fn law_the_registry_answers_by_itself<H: BStackRaiiAllocator>(
    global: &Option<FileRegistry<H>>,
    reg: FileRegistry<H>,
    id: FileId,
    path: &Vec<u8>,
    key: u64,
    paths: (Option<Vec<u8>>, Option<Vec<u8>>),
    ids: (Option<FileId>, Option<FileId>),
    keyed: (Option<FileId>, Option<FileId>),
    hosts: (Option<&H>, Option<&H>),
)
    requires
        *global == Some(reg),
        reg@.wf(),
        call_ensures(path_of::<H>, (global, id), paths.0),
        call_ensures(FileRegistry::<H>::path_of, (&reg, id), paths.1),
        call_ensures(id_of::<H>, (global, path), ids.0),
        call_ensures(FileRegistry::<H>::id_of, (&reg, path), ids.1),
        call_ensures(id_of_host::<H>, (global, key), keyed.0),
        call_ensures(FileRegistry::<H>::id_of_host, (&reg, key), keyed.1),
        call_ensures(with_host::<H>, (global, id), hosts.0),
        call_ensures(FileRegistry::<H>::with_host, (&reg, id), hosts.1),
    ensures
        paths.0 is Some == paths.1 is Some,
        paths.0 matches Some(p) ==> p@ == paths.1->0@,
        ids.0 == ids.1,
        keyed.0 == keyed.1,
        hosts.0 is Some == hosts.1 is Some,
        hosts.0 matches Some(h) ==> *h == *hosts.1->0,
{
}

/// Attaching to the registry that is set up opens the file under the number of its path, and
/// leaves every other open file alone.
pub proof fn law_a_file_is_attached_to_the_registry<H: BStackRaiiAllocator>(
    global: &mut Option<FileRegistry<H>>,
    path: &Vec<u8>,
    wrote: Result<(), Error>,
    host: H,
    r: Result<FileId, Error>,
)
    requires
        *old(global) matches Some(reg) ==> reg@.wf(),
        call_ensures(attach::<H>, (global, path, wrote, host), r),
    ensures
        *old(global) is None ==> *final(global) is None && (r matches Err(e) && e
            == Error::RegistryNotInitialized),
        *old(global) matches Some(reg) ==> {
            &&& *final(global) matches Some(new)
            &&& new@.wf()
            &&& rows_stay(reg@, new@)
            &&& r matches Ok(id) ==> {
                &&& holds_path(new@, id, path@)
                &&& new.hosts()[id.0 - 1] == Some(host)
                &&& known_as(new@, host.spec_settings().stack, id)
                &&& !reg@.by_stack.contains_key(host.spec_settings().stack) || known_as(
                    reg@,
                    host.spec_settings().stack,
                    id,
                )
            }
            &&& r is Err ==> new@.by_stack == reg@.by_stack
        },
{
    if let Some(reg) = *old(global) {
        let mine = host.spec_settings().stack;
        let before = reg@;
        let new = (*final(global))->0;
        lemma_id_of_is_row(before.seps, before.paths, path@);
        lemma_same_path_is_same(before.seps, path@);
        let (mid, given) = choose|mid: RegistryView, given: Result<FileId, Error>| #[trigger]
            attached(before, path@, wrote, mine, mid, given, new@, r);
        assert(attached(before, path@, wrote, mine, mid, given, new@, r));
    }
}

/// Detaching from the registry that is set up closes that file and no other.
pub proof fn law_a_file_is_detached_from_the_registry<H: BStackRaiiAllocator>(
    global: &mut Option<FileRegistry<H>>,
    id: FileId,
)
    requires
        *old(global) matches Some(reg) ==> reg@.wf() && 1 <= id.0 <= reg@.paths.len(),
        call_ensures(detach::<H>, (global, id), ()),
    ensures
        *old(global) is None ==> *final(global) is None,
        *old(global) matches Some(reg) ==> {
            &&& *final(global) matches Some(new)
            &&& new@.wf()
            &&& new@.paths == reg@.paths
            &&& new.hosts().len() == reg.hosts().len()
            &&& new.hosts()[id.0 - 1] is None
            &&& forall|k: int|
                0 <= k < reg.hosts().len() && k != id.0 - 1 ==> #[trigger] new.hosts()[k]
                    == reg.hosts()[k]
        },
{
    if let Some(reg) = *old(global) {
        reg.lemma_live_is_keys();
        let live = keys(reg.hosts());
        assert(live.len() == reg.hosts().len());
        assert(reg@.live[id.0 - 1] is Some == reg.hosts()[id.0 - 1] is Some);
    }
}

/// Registering with the registry that is set up gives the path a number that it keeps.
pub proof fn law_a_path_is_registered_with_the_registry<H: BStackRaiiAllocator>(
    global: &mut Option<FileRegistry<H>>,
    path: &Vec<u8>,
    wrote: Result<(), Error>,
    r: Result<FileId, Error>,
)
    requires
        *old(global) matches Some(reg) && reg@.wf(),
        call_ensures(register_path::<H>, (global, path, wrote), r),
    ensures
        *final(global) matches Some(new) && {
            let was = (*old(global))->0;
            &&& new@.wf()
            &&& rows_stay(was@, new@)
            &&& new@.by_stack == was@.by_stack
            &&& r matches Ok(id) ==> holds_path(new@, id, path@)
            &&& new@.paths.len() > was@.paths.len() ==> wrote is Ok && new@.paths.last() == path@
            &&& r is Err ==> new@ == was@
        },
{
    let was = (*old(global))->0;
    lemma_id_of_is_row(was@.seps, was@.paths, path@);
    lemma_same_path_is_same(was@.seps, path@);
}

} // verus!
