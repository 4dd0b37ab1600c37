//! Locks on the logs of open files: the table of them, and those that a thread holds.
use std::collections::HashMap;
use vstd::prelude::*;

use crate::error::Error;

verus! {

/// The keys of the files whose locks a thread holds for clones under way.
pub struct HeldLocks {
    keys: Vec<u64>,
}

impl View for HeldLocks {
    type V = Seq<u64>;

    closed spec fn view(&self) -> Seq<u64> {
        self.keys@
    }
}

/// What asking for the lock of the file `key` makes of the locks that are held.
pub open spec fn acquired(
    before: Seq<u64>,
    key: u64,
    new: Seq<u64>,
    r: Result<(), Error>,
) -> bool {
    if before.contains(key) {
        r == Err::<(), Error>(Error::CloneReentry) && new == before
    } else {
        r == Ok::<(), Error>(()) && new == before.push(key)
    }
}

/// What giving up the lock of the file `key` makes of the locks that are held.
pub open spec fn released(before: Seq<u64>, key: u64, new: Seq<u64>) -> bool {
    &&& !new.contains(key)
    &&& forall|k: u64| k != key ==> (#[trigger] new.contains(k) <==> before.contains(k))
    &&& !before.contains(key) ==> new == before
}

impl HeldLocks {
    /// No lock is held twice.
    pub open spec fn wf(&self) -> bool {
        self@.no_duplicates()
    }

    pub fn new() -> (r: HeldLocks)
        ensures
            r.wf(),
            r@ == Seq::<u64>::empty(),
    {
        HeldLocks { keys: Vec::new() }
    }

    /// Note that the lock of the file `key` is taken. A lock that is held already is refused:
    /// to wait for it would be to wait forever.
    pub fn acquire(&mut self, key: u64) -> (r: Result<(), Error>)
        requires
            old(self).wf(),
        ensures
            final(self).wf(),
            acquired(old(self)@, key, final(self)@, r),
    {
        let mut i: usize = 0;
        while i < self.keys.len()
            invariant
                i <= self.keys@.len(),
                self.keys@ == old(self)@,
                old(self).wf(),
                forall|j: int| 0 <= j < i ==> #[trigger] self.keys@[j] != key,
            decreases self.keys@.len() - i,
        {
            if self.keys[i] == key {
                return Err(Error::CloneReentry);
            }
            i += 1;
        }
        self.keys.push(key);
        Ok(())
    }

    /// Note that the lock of the file `key` is given up.
    pub fn release(&mut self, key: u64)
        requires
            old(self).wf(),
        ensures
            final(self).wf(),
            released(old(self)@, key, final(self)@),
    {
        let ghost before = self.keys@;
        let mut i: usize = self.keys.len();
        while i > 0
            invariant
                i <= self.keys@.len(),
                self.keys@ == before,
                before.no_duplicates(),
                before == old(self)@,
                forall|j: int| i <= j < self.keys@.len() ==> #[trigger] self.keys@[j] != key,
            decreases i,
        {
            i -= 1;
            if self.keys[i] == key {
                self.keys.swap_remove(i);
                proof {
                    let after = self.keys@;
                    let last = before.len() - 1;
                    assert forall|k: u64| k != key implies (#[trigger] after.contains(k)
                        <==> before.contains(k)) by {
                        if before.contains(k) {
                            let p = choose|p: int| 0 <= p < before.len() && before[p] == k;
                            if p == last {
                                assert(after[i as int] == k);
                            } else {
                                assert(after[p] == k);
                            }
                        }
                        if after.contains(k) {
                            let p = choose|p: int| 0 <= p < after.len() && after[p] == k;
                            if p == i {
                                assert(before[last] == k);
                            } else {
                                assert(before[p] == k);
                            }
                        }
                    }
                }
                return;
            }
        }
    }
}

/// A request for a lock is refused, and changes nothing, while the lock is held after an earlier
/// one; once the lock is given up, the next request is granted again. Other locks stay as they
/// are all the while.
pub proof fn law_held_lock_is_not_reentrant(
    keys: Seq<u64>,
    key: u64,
    held: Seq<u64>,
    r1: Result<(), Error>,
    still: Seq<u64>,
    r2: Result<(), Error>,
    free: Seq<u64>,
    again: Seq<u64>,
    r3: Result<(), Error>,
)
    requires
        acquired(keys, key, held, r1),
        acquired(held, key, still, r2),
        released(still, key, free),
        acquired(free, key, again, r3),
    ensures
        r2 == Err::<(), Error>(Error::CloneReentry),
        still == held,
        r3 == Ok::<(), Error>(()),
        forall|k: u64| k != key ==> (#[trigger] again.contains(k) <==> keys.contains(k)),
{
    if !keys.contains(key) {
        assert(held[keys.len() as int] == key);
    }
    assert forall|k: u64| k != key implies (#[trigger] again.contains(k) <==> keys.contains(k)) by {
        assert(free.contains(k) <==> still.contains(k));
        if keys.contains(k) && !keys.contains(key) {
            assert(held[keys.index_of(k)] == k);
        }
        if held.contains(k) && !keys.contains(key) {
            assert(keys[held.index_of(k)] == k);
        }
        if free.contains(k) {
            assert(again[free.index_of(k)] == k);
        }
        if again.contains(k) {
            assert(free[again.index_of(k)] == k);
        }
    }
}

/// The part of a table whose locks are among `live`.
pub open spec fn swept(table: Map<u64, u64>, live: Seq<u64>) -> Map<u64, u64> {
    Map::new(|key: u64| table.contains_key(key) && live.contains(table[key]), |key: u64| table[key])
}

/// The locks of the open files, by the keys of the files. A lock that nobody holds on to any
/// more is forgotten when the next one is made, so that the table has no more rows than there
/// are locks in use.
pub struct LockTable {
    locks: HashMap<u64, u64>,
    next: u64,
}

impl View for LockTable {
    type V = Map<u64, u64>;

    closed spec fn view(&self) -> Map<u64, u64> {
        self.locks@
    }
}

fn contains_u64(v: &Vec<u64>, x: u64) -> (r: bool)
    ensures
        r == v@.contains(x),
{
    let mut i: usize = 0;
    while i < v.len()
        invariant
            i <= v@.len(),
            forall|j: int| 0 <= j < i ==> #[trigger] v@[j] != x,
        decreases v@.len() - i,
    {
        if v[i] == x {
            return true;
        }
        i += 1;
    }
    false
}

/// The keys of a table, in some order.
fn keys_of(table: &HashMap<u64, u64>) -> (r: Vec<u64>)
    ensures
        forall|key: u64| #[trigger] r@.contains(key) <==> table@.contains_key(key),
{
    broadcast use vstd::std_specs::hash::group_hash_axioms;

    let mut out: Vec<u64> = Vec::new();
    for key in it: table.keys()
        invariant
            out@ == it.seq().unref().take(it.index() as int),
            it.seq().unref().to_set() == table@.dom(),
            it.index() == it.seq().len() ==> out@ =~= it.seq().unref(),
    {
        out.push(*key);
    }
    assert forall|key: u64| #[trigger] out@.contains(key) <==> table@.contains_key(key) by {
        assert(out@.to_set().contains(key) <==> table@.dom().contains(key));
    }
    out
}

impl LockTable {
    /// The number that the next new lock gets.
    pub closed spec fn next_lock(&self) -> u64 {
        self.next
    }

    /// No lock number was given out that is still to come.
    pub open spec fn wf(&self) -> bool {
        forall|key: u64| #[trigger] self@.contains_key(key) ==> self@[key] < self.next_lock()
    }

    pub fn new() -> (r: LockTable)
        ensures
            r.wf(),
            r@ == Map::<u64, u64>::empty(),
            r.next_lock() == 0,
    {
        LockTable { locks: HashMap::new(), next: 0 }
    }

    /// Whether all numbers for locks were given out.
    pub fn is_full(&self) -> (r: bool)
        ensures
            r == (self.next_lock() == u64::MAX),
    {
        self.next == u64::MAX
    }

    /// The lock of the file `key`, where `live` are the locks that somebody holds on to: the
    /// one in the table if it is live, else a new one.
    pub fn wal_lock_for(&mut self, key: u64, live: &Vec<u64>) -> (lock: u64)
        requires
            old(self).wf(),
            old(self).next_lock() < u64::MAX,
        ensures
            final(self).wf(),
            if old(self)@.contains_key(key) && live@.contains(old(self)@[key]) {
                &&& lock == old(self)@[key]
                &&& final(self)@ == old(self)@
                &&& final(self).next_lock() == old(self).next_lock()
            } else {
                &&& lock == old(self).next_lock()
                &&& final(self)@ == swept(old(self)@, live@).insert(key, lock)
                &&& final(self).next_lock() == old(self).next_lock() + 1
            },
    {
        broadcast use vstd::std_specs::hash::group_hash_axioms;

        let known: Option<u64> = match self.locks.get(&key) {
            Some(lock) => Some(*lock),
            None => None,
        };
        if let Some(lock) = known {
            if contains_u64(live, lock) {
                return lock;
            }
        }
        let ghost before = self.locks@;
        let keys = keys_of(&self.locks);
        let mut i: usize = 0;
        while i < keys.len()
            invariant
                i <= keys@.len(),
                self.next == old(self).next_lock(),
                forall|k: u64| #[trigger] keys@.contains(k) <==> before.contains_key(k),
                forall|k: u64|
                    #[trigger] self.locks@.contains_key(k) <==> before.contains_key(k) && (
                    live@.contains(before[k]) || !keys@.take(i as int).contains(k)),
                forall|k: u64| #[trigger] self.locks@.contains_key(k) ==> self.locks@[k] == before[k],
            decreases keys@.len() - i,
        {
            broadcast use vstd::std_specs::hash::group_hash_axioms;

            let k: u64 = keys[i];
            let ghost seen = keys@.take(i as int);
            let ghost more = keys@.take(i + 1);
            proof {
                assert(more =~= seen.push(k));
                assert(keys@.contains(k));
                assert forall|j: u64| #[trigger] more.contains(j) <==> seen.contains(j) || j == k by {
                    if seen.contains(j) {
                        assert(more[seen.index_of(j)] == j);
                    }
                    if j == k {
                        assert(more[i as int] == k);
                    }
                    if more.contains(j) && j != k {
                        assert(seen[more.index_of(j)] == j);
                    }
                }
            }
            let dead: bool = match self.locks.get(&k) {
                Some(lock) => !contains_u64(live, *lock),
                None => false,
            };
            if dead {
                self.locks.remove(&k);
            }
            i += 1;
        }
        assert(keys@.take(i as int) =~= keys@);
        let lock: u64 = self.next;
        proof {
            assert forall|k: u64| #[trigger] self.locks@.contains_key(k) <==> swept(
                before,
                live@,
            ).contains_key(k) by {
                assert(keys@.contains(k) <==> before.contains_key(k));
            }
            assert(self.locks@ =~= swept(before, live@));
        }
        self.locks.insert(key, lock);
        self.next = lock + 1;
        assert forall|k: u64| #[trigger] self@.contains_key(k) implies self@[k]
            < self.next_lock() by {
            assert(k == key || old(self)@.contains_key(k) && self@[k] == before[k]);
        }
        lock
    }
}

/// The table keeps no row of a lock that nobody holds on to, but for the one just made.
pub proof fn law_the_table_forgets_dead_locks(
    table: Map<u64, u64>,
    live: Seq<u64>,
    key: u64,
    lock: u64,
    other: u64,
)
    requires
        other != key,
        swept(table, live).insert(key, lock).contains_key(other),
    ensures
        live.contains(table[other]),
        swept(table, live).insert(key, lock)[other] == table[other],
{
}

} // verus!
