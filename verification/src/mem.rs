//! An allocator in memory: for trying things out, and for rehearsing a crash.
use vstd::prelude::*;
use vstd::slice::slice_subrange;

use crate::allocator::{
    bytes_view, ranges_view, writes_view, BStackRaiiAllocator, CounterOp, Event, Settings,
};
use crate::bytes::{get_u64, lemma_le_bytes_len, le_bytes, le_value, u64_le};
use crate::error::Error;
use crate::range::{BStackRange, FileId};

verus! {

/// A file that is a vector. Blocks are taken at its end and never reused, and a free only
/// strikes the block off the list of live ones.
pub struct MemAllocator {
    bytes: Vec<u8>,
    live: Vec<BStackRange>,
    limit: usize,
    settings: Settings,
    patience: Option<u64>,
    open_files: Vec<FileId>,
    host_freed: Vec<(FileId, BStackRange)>,
    log: Ghost<Seq<Event>>,
}

/// What a file in memory holds.
#[verifier::ext_equal]
pub struct MemView {
    /// The content of the file.
    pub bytes: Seq<u8>,
    /// The blocks in use, oldest first.
    pub live: Seq<BStackRange>,
    /// How many bytes the file may have.
    pub limit: int,
    /// How many requests are still let through, where that is limited.
    pub patience: Option<u64>,
    /// The other files that are open.
    pub open_files: Seq<FileId>,
    /// The blocks of other files that were freed from here.
    pub host_freed: Seq<(FileId, BStackRange)>,
}

/// The sum of the lengths.
pub open spec fn total(lens: Seq<u64>) -> int
    decreases lens.len(),
{
    if lens.len() == 0 {
        0
    } else {
        total(lens.drop_last()) + lens.last()
    }
}

impl MemView {
    /// Whether the next request is let through.
    pub open spec fn willing(self) -> bool {
        self.patience != Some(0u64)
    }

    /// The file after a request that changed nothing.
    pub open spec fn asked(self) -> MemView {
        match self.patience {
            Some(n) if n > 0 => MemView { patience: Some((n - 1) as u64), ..self },
            _ => self,
        }
    }

    pub open spec fn holds(self, off: int, len: int) -> bool {
        off + len <= self.bytes.len()
    }

    /// The reply to a request that reads or writes `len` bytes from `off` on.
    pub open spec fn access(self, off: int, len: int) -> Result<(), Error> {
        if !self.willing() {
            Err(Error::Outside { ticket: 0 })
        } else if !self.holds(off, len) {
            Err(Error::OutOfRange)
        } else {
            Ok(())
        }
    }

    /// The bytes from `off` on.
    pub open spec fn at(self, off: int, len: int) -> Seq<u8> {
        self.bytes.subrange(off, off + len)
    }

    /// The file with the bytes `with` from `off` on.
    pub open spec fn written(self, off: int, with: Seq<u8>) -> MemView {
        MemView {
            bytes: self.bytes.take(off) + with + self.bytes.skip(off + with.len()),
            ..self
        }
    }

    /// The file after all these writes, in order.
    pub open spec fn written_all(self, writes: Seq<(u64, Seq<u8>)>) -> MemView
        decreases writes.len(),
    {
        if writes.len() == 0 {
            self
        } else {
            self.written_all(writes.drop_last()).written(writes.last().0 as int, writes.last().1)
        }
    }

    pub open spec fn holds_all(self, writes: Seq<(u64, Seq<u8>)>) -> bool {
        forall|j: int|
            0 <= j < writes.len() ==> self.holds(
                (#[trigger] writes[j]).0 as int,
                writes[j].1.len() as int,
            )
    }

    /// The block that is taken next.
    pub open spec fn next_block(self, len: u64) -> BStackRange {
        BStackRange { start: self.bytes.len() as u64, len }
    }

    /// The file with one more block, all zero.
    pub open spec fn grown(self, len: u64) -> MemView {
        MemView {
            bytes: self.bytes + Seq::new(len as nat, |i: int| 0u8),
            live: self.live.push(self.next_block(len)),
            ..self
        }
    }

    /// The file with a block for each length.
    pub open spec fn grown_all(self, lens: Seq<u64>) -> MemView
        decreases lens.len(),
    {
        if lens.len() == 0 {
            self
        } else {
            self.grown_all(lens.drop_last()).grown(lens.last())
        }
    }

    /// The file with the block struck off.
    pub open spec fn struck(self, range: BStackRange) -> MemView {
        MemView { live: self.live.remove_value(range), ..self }
    }

    /// The file with all these blocks struck off.
    pub open spec fn struck_all(self, ranges: Seq<BStackRange>) -> MemView
        decreases ranges.len(),
    {
        if ranges.len() == 0 {
            self
        } else {
            self.struck_all(ranges.drop_last()).struck(ranges.last())
        }
    }

    /// Whether each of these blocks is in use when its turn comes.
    pub open spec fn strikable(self, ranges: Seq<BStackRange>) -> bool
        decreases ranges.len(),
    {
        ranges.len() == 0 || {
            &&& self.strikable(ranges.drop_last())
            &&& self.struck_all(ranges.drop_last()).live.contains(ranges.last())
        }
    }

    /// The reply to a request for blocks of `len` bytes together.
    pub open spec fn taking(self, len: int) -> Result<(), Error> {
        if !self.willing() {
            Err(Error::Outside { ticket: 0 })
        } else if self.bytes.len() + len > self.limit {
            Err(Error::NoSpace)
        } else {
            Ok(())
        }
    }
}

impl View for MemAllocator {
    type V = MemView;

    closed spec fn view(&self) -> MemView {
        MemView {
            bytes: self.bytes@,
            live: self.live@,
            limit: self.limit as int,
            patience: self.patience,
            open_files: self.open_files@,
            host_freed: self.host_freed@,
        }
    }
}

impl MemAllocator {
    /// An empty file that keeps its first `reserved` bytes to itself and never takes a block
    /// that would end after `limit` bytes.
    pub fn new(settings: Settings, reserved: usize, limit: usize) -> (r: MemAllocator)
        ensures
            r.spec_settings() == settings,
            r.trace() == Seq::<Event>::empty(),
            r@ == (MemView {
                bytes: Seq::new(reserved as nat, |i: int| 0u8),
                live: Seq::empty(),
                limit: limit as int,
                patience: None,
                open_files: Seq::empty(),
                host_freed: Seq::empty(),
            }),
    {
        let mut bytes: Vec<u8> = Vec::new();
        bytes.resize(reserved, 0);
        assert(bytes@ =~= Seq::new(reserved as nat, |i: int| 0u8));
        MemAllocator {
            bytes,
            live: Vec::new(),
            limit,
            settings,
            patience: None,
            open_files: Vec::new(),
            host_freed: Vec::new(),
            log: Ghost(Seq::empty()),
        }
    }

    /// Let `steps` more requests through, and refuse every one after them.
    pub fn fail_after(&mut self, steps: u64)
        ensures
            final(self)@ == (MemView { patience: Some(steps), ..old(self)@ }),
            final(self).trace() == old(self).trace(),
            final(self).spec_settings() == old(self).spec_settings(),
    {
        self.patience = Some(steps);
    }

    /// Let all requests through again.
    pub fn repair(&mut self)
        ensures
            final(self)@ == (MemView { patience: None, ..old(self)@ }),
            final(self).trace() == old(self).trace(),
            final(self).spec_settings() == old(self).spec_settings(),
    {
        self.patience = None;
    }

    /// Declare the file `id` open, so that its blocks can be freed from here.
    pub fn open_file(&mut self, id: FileId)
        ensures
            final(self)@ == (MemView { open_files: old(self)@.open_files.push(id), ..old(self)@ }),
            final(self).trace() == old(self).trace(),
            final(self).spec_settings() == old(self).spec_settings(),
    {
        self.open_files.push(id);
    }

    /// The blocks in use, oldest first.
    pub fn live(&self) -> (r: &[BStackRange])
        ensures
            r@ == self@.live,
    {
        self.live.as_slice()
    }

    /// The content of the file.
    pub fn data(&self) -> (r: &[u8])
        ensures
            r@ == self@.bytes,
    {
        self.bytes.as_slice()
    }

    /// The blocks of other files that were freed from here.
    pub fn freed_elsewhere(&self) -> (r: &[(FileId, BStackRange)])
        ensures
            r@ == self@.host_freed,
    {
        self.host_freed.as_slice()
    }

    fn tick(&mut self) -> (r: bool)
        ensures
            r == old(self)@.willing(),
            final(self)@ == old(self)@.asked(),
            final(self).settings == old(self).settings,
            final(self).log == old(self).log,
    {
        match self.patience {
            None => true,
            Some(n) => if n == 0 {
                false
            } else {
                self.patience = Some(n - 1);
                true
            },
        }
    }

    fn record(&mut self, Ghost(e): Ghost<Event>)
        ensures
            final(self)@ == old(self)@,
            final(self).settings == old(self).settings,
            final(self).log@ == old(self).log@.push(e),
    {
        self.log = Ghost(self.log@.push(e));
    }

    /// Lets one request through, if it stays inside the file.
    fn reach(&mut self, off: u64, len: u64) -> (r: Result<(), Error>)
        ensures
            r == old(self)@.access(off as int, len as int),
            final(self)@ == old(self)@.asked(),
            final(self).settings == old(self).settings,
            final(self).log == old(self).log,
    {
        if !self.tick() {
            return Err(Error::Outside { ticket: 0 });
        }
        let n: u64 = self.bytes.len() as u64;
        if off > n || len > n - off {
            return Err(Error::OutOfRange);
        }
        Ok(())
    }

    fn piece(&self, off: u64, len: u64) -> (r: Vec<u8>)
        requires
            self@.holds(off as int, len as int),
        ensures
            r@ == self@.at(off as int, len as int),
    {
        let _n: usize = self.bytes.len();
        let mut out: Vec<u8> = Vec::new();
        out.extend_from_slice(slice_subrange(
            self.bytes.as_slice(),
            off as usize,
            (off + len) as usize,
        ));
        assert(out@ =~= self.bytes@.subrange(off as int, off + len));
        out
    }

    fn read_at(&mut self, off: u64, len: u64) -> (r: Result<Vec<u8>, Error>)
        ensures
            bytes_view(r) == (match old(self)@.access(off as int, len as int) {
                Ok(_) => Ok(old(self)@.at(off as int, len as int)),
                Err(e) => Err(e),
            }),
            final(self)@ == old(self)@.asked(),
            final(self).settings == old(self).settings,
            final(self).log == old(self).log,
    {
        match self.reach(off, len) {
            Ok(_) => Ok(self.piece(off, len)),
            Err(e) => Err(e),
        }
    }

    fn put(&mut self, off: u64, bytes: &Vec<u8>)
        requires
            old(self)@.holds(off as int, bytes@.len() as int),
        ensures
            final(self)@ == old(self)@.written(off as int, bytes@),
            final(self)@.bytes.len() == old(self)@.bytes.len(),
            final(self).settings == old(self).settings,
            final(self).log == old(self).log,
    {
        let _n: usize = self.bytes.len();
        let at: usize = off as usize;
        let ghost before = self.bytes@;
        let mut i: usize = 0;
        while i < bytes.len()
            invariant
                i <= bytes@.len(),
                at == off,
                at + bytes@.len() <= before.len(),
                before == old(self)@.bytes,
                self.bytes@.len() == before.len(),
                self@ =~= old(self)@.written(at as int, bytes@.take(i as int)),
                self.settings == old(self).settings,
                self.log == old(self).log,
            decreases bytes@.len() - i,
        {
            let _m: usize = self.bytes.len();
            self.bytes.set(at + i, bytes[i]);
            i += 1;
        }
        assert(bytes@.take(i as int) =~= bytes@);
    }

    fn grow(&mut self, len: u64)
        requires
            old(self)@.bytes.len() + len <= old(self)@.limit,
        ensures
            final(self)@ == old(self)@.grown(len),
            final(self)@.bytes.len() == old(self)@.bytes.len() + len,
            final(self).settings == old(self).settings,
            final(self).log == old(self).log,
    {
        let n: usize = self.bytes.len();
        let ghost before = self.bytes@;
        self.bytes.resize(n + len as usize, 0);
        assert(self.bytes@ =~= before + Seq::new(len as nat, |i: int| 0u8));
        self.live.push(BStackRange { start: n as u64, len });
    }

    fn strike(&mut self, range: BStackRange) -> (r: bool)
        ensures
            r == old(self)@.live.contains(range),
            final(self)@ == old(self)@.struck(range),
            final(self).settings == old(self).settings,
            final(self).log == old(self).log,
    {
        let mut i: usize = 0;
        while i < self.live.len()
            invariant
                i <= self.live@.len(),
                *self == *old(self),
                forall|j: int| 0 <= j < i ==> #[trigger] self.live@[j] != range,
            decreases self.live@.len() - i,
        {
            if self.live[i] == range {
                proof {
                    self.live@.index_of_first_ensures(range);
                }
                self.live.remove(i);
                return true;
            }
            i += 1;
        }
        proof {
            self.live@.index_of_first_ensures(range);
        }
        false
    }
}

/// What is written is what is read back, and nothing else in the file changes.
pub proof fn law_read_gives_back_what_was_written(m: MemView, off: int, with: Seq<u8>)
    requires
        0 <= off,
        m.holds(off, with.len() as int),
    ensures
        m.written(off, with).at(off, with.len() as int) == with,
        m.written(off, with).bytes.len() == m.bytes.len(),
        forall|i: int|
            0 <= i < off || off + with.len() <= i < m.bytes.len() ==> #[trigger] m.written(
                off,
                with,
            ).bytes[i] == m.bytes[i],
{
    assert(m.written(off, with).at(off, with.len() as int) =~= with);
}

proof fn lemma_total_prefix(lens: Seq<u64>, i: int)
    requires
        0 <= i <= lens.len(),
    ensures
        total(lens.take(i)) <= total(lens),
    decreases lens.len() - i,
{
    if i < lens.len() {
        lemma_total_prefix(lens, i + 1);
        assert(lens.take(i + 1).drop_last() =~= lens.take(i));
    } else {
        assert(lens.take(i) =~= lens);
    }
}

impl BStackRaiiAllocator for MemAllocator {
    closed spec fn trace(&self) -> Seq<Event> {
        self.log@
    }

    closed spec fn spec_settings(&self) -> Settings {
        self.settings
    }

    fn settings(&self) -> (r: Settings) {
        self.settings
    }

    /// Reads what is there.
    fn get(&mut self, off: u64, len: u64) -> (r: Result<Vec<u8>, Error>)
        ensures
            bytes_view(r) == (match old(self)@.access(off as int, len as int) {
                Ok(_) => Ok(old(self)@.at(off as int, len as int)),
                Err(e) => Err(e),
            }),
            final(self)@ == old(self)@.asked(),
    {
        let r = self.read_at(off, len);
        self.record(Ghost(Event::Read { off, len, reply: bytes_view(r) }));
        r
    }

    /// Writes exactly these bytes, or nothing.
    fn set(&mut self, off: u64, bytes: Vec<u8>) -> (r: Result<(), Error>)
        ensures
            r == old(self)@.access(off as int, bytes@.len() as int),
            final(self)@ == (if r is Ok {
                old(self)@.asked().written(off as int, bytes@)
            } else {
                old(self)@.asked()
            }),
    {
        let r = self.reach(off, bytes.len() as u64);
        if r.is_ok() {
            self.put(off, &bytes);
        }
        self.record(Ghost(Event::Write { off, bytes: bytes@, reply: r }));
        r
    }

    /// Makes all the writes, in order, or none.
    fn set_batched(&mut self, writes: Vec<(u64, Vec<u8>)>) -> (r: Result<(), Error>)
        ensures
            r == (if !old(self)@.willing() {
                Err(Error::Outside { ticket: 0 })
            } else if !old(self)@.holds_all(writes_view(writes@)) {
                Err(Error::OutOfRange)
            } else {
                Ok(())
            }),
            final(self)@ == (if r is Ok {
                old(self)@.asked().written_all(writes_view(writes@))
            } else {
                old(self)@.asked()
            }),
    {
        let willing: bool = self.tick();
        let ghost m = self@;
        let ghost w = writes_view(writes@);
        let n: u64 = self.bytes.len() as u64;
        let mut fits: bool = true;
        let mut i: usize = 0;
        while i < writes.len()
            invariant
                i <= writes@.len(),
                n == m.bytes.len(),
                w == writes_view(writes@),
                fits == forall|j: int|
                    0 <= j < i ==> m.holds((#[trigger] w[j]).0 as int, w[j].1.len() as int),
            decreases writes@.len() - i,
        {
            let off: u64 = writes[i].0;
            let len: u64 = writes[i].1.len() as u64;
            assert(w[i as int].0 == off && w[i as int].1.len() == len);
            if off > n || len > n - off {
                fits = false;
            }
            i += 1;
        }
        let r: Result<(), Error> = if !willing {
            Err(Error::Outside { ticket: 0 })
        } else if !fits {
            Err(Error::OutOfRange)
        } else {
            let mut k: usize = 0;
            assert(w.take(0) =~= Seq::empty());
            while k < writes.len()
                invariant
                    k <= writes@.len(),
                    w == writes_view(writes@),
                    m.holds_all(w),
                    self@ == m.written_all(w.take(k as int)),
                    self@.bytes.len() == m.bytes.len(),
                    self.log == old(self).log,
                    self.settings == old(self).settings,
                decreases writes@.len() - k,
            {
                let at: u64 = writes[k].0;
                assert(w[k as int] == (at, writes@[k as int].1@));
                assert(w.take(k + 1).drop_last() =~= w.take(k as int));
                self.put(at, &writes[k].1);
                k += 1;
            }
            assert(w.take(k as int) =~= w);
            Ok(())
        };
        self.record(Ghost(Event::WriteBatch { writes: writes_view(writes@), reply: r }));
        r
    }

    /// Reads what is there, and writes exactly these bytes, or nothing.
    fn swap(&mut self, off: u64, bytes: Vec<u8>) -> (r: Result<Vec<u8>, Error>)
        ensures
            bytes_view(r) == (match old(self)@.access(off as int, bytes@.len() as int) {
                Ok(_) => Ok(old(self)@.at(off as int, bytes@.len() as int)),
                Err(e) => Err(e),
            }),
            final(self)@ == (if r is Ok {
                old(self)@.asked().written(off as int, bytes@)
            } else {
                old(self)@.asked()
            }),
    {
        let r = self.read_at(off, bytes.len() as u64);
        if r.is_ok() {
            self.put(off, &bytes);
        }
        self.record(Ghost(Event::Swap { off, bytes: bytes@, reply: bytes_view(r) }));
        r
    }

    /// Writes at `to` exactly the bytes that are at `from`, or nothing.
    fn copy(&mut self, from: u64, to: u64, len: u64) -> (r: Result<(), Error>)
        ensures
            r == (match old(self)@.access(from as int, len as int) {
                Ok(_) => old(self)@.access(to as int, len as int),
                Err(e) => Err(e),
            }),
            final(self)@ == (if r is Ok {
                old(self)@.asked().written(
                    to as int,
                    old(self)@.at(from as int, len as int),
                )
            } else {
                old(self)@.asked()
            }),
    {
        let r: Result<(), Error> = match self.reach(from, len) {
            Ok(u) => {
                let n: u64 = self.bytes.len() as u64;
                if len <= n && to <= n - len {
                    let piece = self.piece(from, len);
                    self.put(to, &piece);
                    Ok(u)
                } else {
                    Err(Error::OutOfRange)
                }
            },
            Err(e) => Err(e),
        };
        self.record(Ghost(Event::Copy { from, to, len, reply: r }));
        r
    }

    /// Changes the eight bytes at `off` as `op` says, or nothing.
    fn process(&mut self, off: u64, op: CounterOp) -> (r: Result<u64, Error>)
        ensures
            match old(self)@.access(off as int, 8) {
                Ok(_) => {
                    &&& r is Ok
                    &&& r->Ok_0 == le_value(old(self)@.at(off as int, 8))
                    &&& final(self)@ == old(self)@.asked().written(
                        off as int,
                        le_bytes(op.spec_apply(r->Ok_0) as nat, 8),
                    )
                },
                Err(e) => r == Err::<u64, Error>(e) && final(self)@ == old(self)@.asked(),
            },
    {
        let r: Result<u64, Error> = match self.read_at(off, 8) {
            Ok(buf) => {
                let cur: u64 = get_u64(buf.as_slice());
                assert(buf@.subrange(0, 8) =~= buf@);
                let new = u64_le(op.apply(cur));
                proof {
                    lemma_le_bytes_len(op.spec_apply(cur) as nat, 8);
                }
                self.put(off, &new);
                Ok(cur)
            },
            Err(e) => Err(e),
        };
        self.record(Ghost(Event::Process { off, op, reply: r }));
        r
    }

    /// Sets the eight bytes at `off` to `new` where they are `expected`, or does nothing.
    fn cas(&mut self, off: u64, expected: u64, new: u64) -> (r: Result<bool, Error>)
        ensures
            match old(self)@.access(off as int, 8) {
                Ok(_) => {
                    &&& r is Ok
                    &&& r->Ok_0 == (le_value(old(self)@.at(off as int, 8)) == expected)
                    &&& final(self)@ == (if r->Ok_0 {
                        old(self)@.asked().written(off as int, le_bytes(new as nat, 8))
                    } else {
                        old(self)@.asked()
                    })
                },
                Err(e) => r == Err::<bool, Error>(e) && final(self)@ == old(self)@.asked(),
            },
    {
        let r: Result<bool, Error> = match self.read_at(off, 8) {
            Ok(buf) => {
                let cur: u64 = get_u64(buf.as_slice());
                assert(buf@.subrange(0, 8) =~= buf@);
                if cur == expected {
                    let image = u64_le(new);
                    proof {
                        lemma_le_bytes_len(new as nat, 8);
                    }
                    self.put(off, &image);
                    Ok(true)
                } else {
                    Ok(false)
                }
            },
            Err(e) => Err(e),
        };
        self.record(Ghost(Event::Cas { off, expected, new, reply: r }));
        r
    }

    /// Takes the block at the end of the file.
    fn alloc_range(&mut self, len: u64) -> (r: Result<BStackRange, Error>)
        ensures
            match old(self)@.taking(len as int) {
                Ok(_) => {
                    &&& r == Ok::<BStackRange, Error>(old(self)@.next_block(len))
                    &&& final(self)@ == old(self)@.asked().grown(len)
                },
                Err(e) => r == Err::<BStackRange, Error>(e) && final(self)@ == old(self)@.asked(),
            },
    {
        let r: Result<BStackRange, Error> = if !self.tick() {
            Err(Error::Outside { ticket: 0 })
        } else {
            let n: usize = self.bytes.len();
            if n > self.limit || len > (self.limit - n) as u64 {
                Err(Error::NoSpace)
            } else {
                self.grow(len);
                Ok(BStackRange { start: n as u64, len })
            }
        };
        self.record(Ghost(Event::Alloc { len, reply: r }));
        r
    }

    /// Strikes the block off the list, if it is there.
    fn dealloc(&mut self, range: BStackRange) -> (r: Result<(), Error>)
        ensures
            r == (if !old(self)@.willing() {
                Err(Error::Outside { ticket: 0 })
            } else if !old(self)@.live.contains(range) {
                Err(Error::NotAllocated)
            } else {
                Ok(())
            }),
            final(self)@ == (if r is Ok {
                old(self)@.asked().struck(range)
            } else {
                old(self)@.asked()
            }),
    {
        let r: Result<(), Error> = if !self.tick() {
            Err(Error::Outside { ticket: 0 })
        } else {
            let ghost m = self@;
            if self.strike(range) {
                Ok(())
            } else {
                proof {
                    m.live.index_of_first_ensures(range);
                }
                Err(Error::NotAllocated)
            }
        };
        self.record(Ghost(Event::Dealloc { range, reply: r }));
        r
    }

    /// Takes all the blocks, one after another at the end of the file, or none.
    fn alloc_bulk(&mut self, lens: Vec<u64>) -> (r: Result<Vec<BStackRange>, Error>)
        ensures
            match old(self)@.taking(total(lens@)) {
                Ok(_) => {
                    &&& r is Ok
                    &&& r->Ok_0@.len() == lens@.len()
                    &&& final(self)@ == old(self)@.asked().grown_all(lens@)
                    &&& final(self)@.live == old(self)@.live + r->Ok_0@
                },
                Err(e) => ranges_view(r) == Err::<Seq<BStackRange>, Error>(e) && final(self)@
                    == old(self)@.asked(),
            },
    {
        let willing: bool = self.tick();
        let ghost m = self@;
        let n: usize = self.bytes.len();
        let mut room: bool = n <= self.limit;
        let mut rest: u64 = if room {
            (self.limit - n) as u64
        } else {
            0
        };
        let mut i: usize = 0;
        assert(lens@.take(0) =~= Seq::empty());
        while i < lens.len()
            invariant
                i <= lens@.len(),
                m == self@,
                n == m.bytes.len(),
                room == (n + total(lens@.take(i as int)) <= m.limit),
                room ==> rest == m.limit - n - total(lens@.take(i as int)),
                self.log == old(self).log,
                self.settings == old(self).settings,
            decreases lens@.len() - i,
        {
            let len: u64 = lens[i];
            assert(lens@.take(i + 1).drop_last() =~= lens@.take(i as int));
            if room && len <= rest {
                rest = rest - len;
            } else {
                room = false;
            }
            i += 1;
        }
        assert(lens@.take(i as int) =~= lens@);
        let r: Result<Vec<BStackRange>, Error> = if !willing {
            Err(Error::Outside { ticket: 0 })
        } else if !room {
            Err(Error::NoSpace)
        } else {
            let mut out: Vec<BStackRange> = Vec::new();
            let mut k: usize = 0;
            while k < lens.len()
                invariant
                    k <= lens@.len(),
                    out@.len() == k,
                    m.bytes.len() + total(lens@) <= m.limit,
                    self@ == m.grown_all(lens@.take(k as int)),
                    self@.limit == m.limit,
                    self@.bytes.len() == m.bytes.len() + total(lens@.take(k as int)),
                    self@.live == m.live + out@,
                    self.log == old(self).log,
                    self.settings == old(self).settings,
                decreases lens@.len() - k,
            {
                let len: u64 = lens[k];
                let at: usize = self.bytes.len();
                proof {
                    lemma_total_prefix(lens@, k + 1);
                    assert(lens@.take(k + 1).drop_last() =~= lens@.take(k as int));
                }
                self.grow(len);
                out.push(BStackRange { start: at as u64, len });
                assert(self@.live =~= m.live + out@);
                k += 1;
            }
            assert(lens@.take(k as int) =~= lens@);
            Ok(out)
        };
        self.record(Ghost(Event::AllocBulk { lens: lens@, reply: ranges_view(r) }));
        r
    }

    /// Strikes all the blocks off the list, if each is there when its turn comes, or none.
    fn dealloc_bulk(&mut self, ranges: Vec<BStackRange>) -> (r: Result<(), Error>)
        ensures
            r == (if !old(self)@.willing() {
                Err(Error::Outside { ticket: 0 })
            } else if !old(self)@.asked().strikable(ranges@) {
                Err(Error::NotAllocated)
            } else {
                Ok(())
            }),
            final(self)@ == (if r is Ok {
                old(self)@.asked().struck_all(ranges@)
            } else {
                old(self)@.asked()
            }),
    {
        let r: Result<(), Error> = if !self.tick() {
            Err(Error::Outside { ticket: 0 })
        } else {
            let ghost m = self@;
            let mut kept: Vec<BStackRange> = Vec::new();
            kept.extend_from_slice(self.live.as_slice());
            assert(kept@ =~= m.live);
            let mut all: bool = true;
            let mut i: usize = 0;
            assert(ranges@.take(0) =~= Seq::empty());
            while i < ranges.len()
                invariant
                    i <= ranges@.len(),
                    all == m.strikable(ranges@.take(i as int)),
                    all ==> self@ == m.struck_all(ranges@.take(i as int)),
                    self@ == (MemView { live: self@.live, ..m }),
                    self.log == old(self).log,
                    self.settings == old(self).settings,
                decreases ranges@.len() - i,
            {
                assert(ranges@.take(i + 1).drop_last() =~= ranges@.take(i as int));
                if all {
                    all = self.strike(ranges[i]);
                }
                i += 1;
            }
            assert(ranges@.take(i as int) =~= ranges@);
            if all {
                Ok(())
            } else {
                self.live = kept;
                Err(Error::NotAllocated)
            }
        };
        self.record(Ghost(Event::DeallocBulk { ranges: ranges@, reply: r }));
        r
    }

    /// Notes the block down as freed, if its file is open.
    fn host_dealloc(&mut self, file: FileId, range: BStackRange) -> (r: Option<Result<(), Error>>)
        ensures
            if !old(self)@.open_files.contains(file) {
                r is None && final(self)@ == old(self)@
            } else if !old(self)@.willing() {
                r == Some(Err::<(), Error>(Error::Outside { ticket: 0 })) && final(self)@
                    == old(self)@.asked()
            } else {
                &&& r == Some(Ok::<(), Error>(()))
                &&& final(self)@ == (MemView {
                    host_freed: old(self)@.host_freed.push((file, range)),
                    ..old(self)@.asked()
                })
            },
    {
        let mut open: bool = false;
        let mut i: usize = 0;
        while i < self.open_files.len()
            invariant
                i <= self.open_files@.len(),
                open == self.open_files@.take(i as int).contains(file),
            decreases self.open_files@.len() - i,
        {
            let ghost seen = self.open_files@.take(i as int);
            let ghost more = self.open_files@.take(i + 1);
            assert(more =~= seen.push(self.open_files@[i as int]));
            if self.open_files[i] == file {
                open = true;
                assert(more[i as int] == file);
            }
            proof {
                if seen.contains(file) {
                    assert(more[seen.index_of(file)] == file);
                }
                if more.contains(file) && self.open_files@[i as int] != file {
                    assert(seen[more.index_of(file)] == file);
                }
            }
            i += 1;
        }
        assert(self.open_files@.take(i as int) =~= self.open_files@);
        let r: Option<Result<(), Error>> = if open {
            if self.tick() {
                self.host_freed.push((file, range));
                Some(Ok(()))
            } else {
                Some(Err(Error::Outside { ticket: 0 }))
            }
        } else {
            None
        };
        self.record(Ghost(Event::HostDealloc { file, range, reply: r }));
        r
    }
}

} // verus!
