//! Entries of the log, and the log in memory.
use vstd::array::array_len_matches_n;
use vstd::prelude::*;

use crate::bytes::{
    get_u32_at, get_u64_at, le_bytes, le_value, lemma_le_bytes_len, lemma_le_value_of_bytes,
    lemma_pow256_4_8, u32_le, u64_le,
};
use crate::range::{BStackRange, FileId};

verus! {

/// How far a logged operation, or a whole transaction, has come.
#[derive(Clone, Copy, Debug, PartialEq, Eq, Structural)]
pub enum WalStatus {
    /// Nothing is under way.
    Idle,
    Pending,
    Complete,
    Abandon,
}

impl WalStatus {
    pub open spec fn spec_advance(self) -> WalStatus {
        match self {
            WalStatus::Idle => WalStatus::Pending,
            WalStatus::Pending => WalStatus::Complete,
            other => other,
        }
    }

    pub open spec fn spec_recover(self) -> WalStatus {
        match self {
            WalStatus::Pending => WalStatus::Abandon,
            other => other,
        }
    }

    pub open spec fn spec_from_u8(v: u8) -> WalStatus {
        match v {
            0 => WalStatus::Idle,
            1 => WalStatus::Pending,
            2 => WalStatus::Complete,
            _ => WalStatus::Abandon,
        }
    }

    pub open spec fn spec_code(self) -> u8 {
        match self {
            WalStatus::Idle => 0,
            WalStatus::Pending => 1,
            WalStatus::Complete => 2,
            WalStatus::Abandon => 3,
        }
    }

    /// The place in the order of progress; `Abandon` lies beside `Complete` at the end.
    pub open spec fn rank(self) -> int {
        match self {
            WalStatus::Idle => 0,
            WalStatus::Pending => 1,
            WalStatus::Complete => 2,
            WalStatus::Abandon => 2,
        }
    }

    /// Normal progress: `Idle`, `Pending`, `Complete`; the last stays, and so does `Abandon`.
    pub fn advance(self) -> (r: WalStatus)
        ensures
            r == self.spec_advance(),
    {
        match self {
            WalStatus::Idle => WalStatus::Pending,
            WalStatus::Pending => WalStatus::Complete,
            other => other,
        }
    }

    /// What recovery makes of a status: `Pending` becomes `Abandon`, the others stay.
    pub fn recover(self) -> (r: WalStatus)
        ensures
            r == self.spec_recover(),
    {
        match self {
            WalStatus::Pending => WalStatus::Abandon,
            other => other,
        }
    }

    /// The status that a byte stands for. An unknown byte is `Abandon`: never acted on.
    pub fn from_u8(v: u8) -> (r: WalStatus)
        ensures
            r == WalStatus::spec_from_u8(v),
    {
        match v {
            0 => WalStatus::Idle,
            1 => WalStatus::Pending,
            2 => WalStatus::Complete,
            _ => WalStatus::Abandon,
        }
    }

    /// The byte that stands for a status.
    pub fn code(self) -> (r: u8)
        ensures
            r == self.spec_code(),
    {
        match self {
            WalStatus::Idle => 0,
            WalStatus::Pending => 1,
            WalStatus::Complete => 2,
            WalStatus::Abandon => 3,
        }
    }
}

/// Neither map ever takes a status back, each reaches its end after two steps at most, and
/// recovery leaves nothing pending.
pub proof fn law_status_maps_are_monotonic(s: WalStatus)
    ensures
        s.rank() <= s.spec_advance().rank(),
        s.rank() <= s.spec_recover().rank(),
        s.spec_recover().spec_recover() == s.spec_recover(),
        s.spec_advance().spec_advance().spec_advance() == s.spec_advance().spec_advance(),
        s.spec_recover() != WalStatus::Pending,
{
}

/// A status is read back from its byte as it was written.
pub proof fn law_status_round_trip(s: WalStatus)
    ensures
        WalStatus::spec_from_u8(s.spec_code()) == s,
{
}

/// Which outcome of the transaction orphans the block of an entry.
#[derive(Clone, Copy, Debug, PartialEq, Eq, Structural)]
pub enum WalOp {
    Alloc,
    Dealloc,
}

impl WalOp {
    pub open spec fn spec_from_u8(v: u8) -> Option<WalOp> {
        match v {
            0 => Some(WalOp::Alloc),
            1 => Some(WalOp::Dealloc),
            _ => None,
        }
    }

    pub open spec fn spec_code(self) -> u8 {
        match self {
            WalOp::Alloc => 0,
            WalOp::Dealloc => 1,
        }
    }

    /// The operation that a byte stands for. An unknown byte is none: never acted on.
    pub fn from_u8(v: u8) -> (r: Option<WalOp>)
        ensures
            r == WalOp::spec_from_u8(v),
    {
        match v {
            0 => Some(WalOp::Alloc),
            1 => Some(WalOp::Dealloc),
            _ => None,
        }
    }
}

/// How many bytes an entry takes.
pub const ENTRY_SIZE: u64 = 32;

/// One entry as it lies on disk.
#[derive(Clone, Copy, Debug)]
pub struct WalEntry {
    pub status: u8,
    pub op: u8,
    /// Kept for alignment.
    pub pad: [u8; 6],
    /// The file of the block; `0` is the file of the log.
    pub file_id: FileId,
    /// Kept for later; `0` in every entry made here.
    pub obj_id: u32,
    /// Where the block starts.
    pub word_a: u64,
    /// How long the block is.
    pub word_b: u64,
}

impl WalEntry {
    /// The entry that records `slice` of `file` with the given polarity.
    pub open spec fn made(
        self,
        status: WalStatus,
        op: WalOp,
        file: FileId,
        slice: BStackRange,
    ) -> bool {
        &&& self.status == status.spec_code()
        &&& self.op == op.spec_code()
        &&& self.pad@ == seq![0u8, 0, 0, 0, 0, 0]
        &&& self.file_id == file
        &&& self.obj_id == 0
        &&& self.word_a == slice.start
        &&& self.word_b == slice.len
    }

    pub open spec fn spec_status(self) -> WalStatus {
        WalStatus::spec_from_u8(self.status)
    }

    pub open spec fn spec_op(self) -> Option<WalOp> {
        WalOp::spec_from_u8(self.op)
    }

    /// The block that the entry records.
    pub open spec fn slice(self) -> BStackRange {
        BStackRange { start: self.word_a, len: self.word_b }
    }

    /// The bytes of the entry on disk.
    pub open spec fn image(self) -> Seq<u8> {
        seq![self.status, self.op] + self.pad@ + le_bytes(self.file_id.0 as nat, 4) + le_bytes(
            self.obj_id as nat,
            4,
        ) + le_bytes(self.word_a as nat, 8) + le_bytes(self.word_b as nat, 8)
    }

    /// Whether the entry is the one that `bytes` hold.
    pub open spec fn read_from(self, bytes: Seq<u8>) -> bool {
        &&& bytes.len() == 32
        &&& self.status == bytes[0]
        &&& self.op == bytes[1]
        &&& self.pad@ == bytes.subrange(2, 8)
        &&& self.file_id.0 == le_value(bytes.subrange(8, 12))
        &&& self.obj_id == le_value(bytes.subrange(12, 16))
        &&& self.word_a == le_value(bytes.subrange(16, 24))
        &&& self.word_b == le_value(bytes.subrange(24, 32))
    }

    /// An `Alloc` entry for a block of the log's own file.
    pub fn alloc_local(status: WalStatus, slice: BStackRange) -> (r: WalEntry)
        ensures
            r.made(status, WalOp::Alloc, FileId(0), slice),
    {
        WalEntry::alloc_in(status, FileId(0), slice)
    }

    /// An `Alloc` entry for a block of `file`: reclaimed if the transaction is abandoned.
    pub fn alloc_in(status: WalStatus, file: FileId, slice: BStackRange) -> (r: WalEntry)
        ensures
            r.made(status, WalOp::Alloc, file, slice),
    {
        let r = WalEntry {
            status: status.code(),
            op: 0,
            pad: [0, 0, 0, 0, 0, 0],
            file_id: file,
            obj_id: 0,
            word_a: slice.start,
            word_b: slice.len,
        };
        assert(r.pad@ =~= seq![0u8, 0, 0, 0, 0, 0]);
        r
    }

    /// A `Dealloc` entry for a block of the log's own file.
    pub fn dealloc(status: WalStatus, slice: BStackRange) -> (r: WalEntry)
        ensures
            r.made(status, WalOp::Dealloc, FileId(0), slice),
    {
        WalEntry::dealloc_in(status, FileId(0), slice)
    }

    /// A `Dealloc` entry for a block of `file`: reclaimed if the transaction is committed.
    pub fn dealloc_in(status: WalStatus, file: FileId, slice: BStackRange) -> (r: WalEntry)
        ensures
            r.made(status, WalOp::Dealloc, file, slice),
    {
        let r = WalEntry {
            status: status.code(),
            op: 1,
            pad: [0, 0, 0, 0, 0, 0],
            file_id: file,
            obj_id: 0,
            word_a: slice.start,
            word_b: slice.len,
        };
        assert(r.pad@ =~= seq![0u8, 0, 0, 0, 0, 0]);
        r
    }

    pub fn status(&self) -> (r: WalStatus)
        ensures
            r == self.spec_status(),
    {
        WalStatus::from_u8(self.status)
    }

    /// `None` for an unknown byte: such an entry is inert.
    pub fn op(&self) -> (r: Option<WalOp>)
        ensures
            r == self.spec_op(),
    {
        WalOp::from_u8(self.op)
    }

    /// The file of the block, widened.
    pub fn file_id(&self) -> (r: u64)
        ensures
            r == self.file_id.0,
    {
        self.file_id.as_u64()
    }

    /// The block, if this is an `Alloc` entry.
    pub fn as_alloc(&self) -> (r: Option<BStackRange>)
        ensures
            r == (if self.spec_op() == Some(WalOp::Alloc) {
                Some(self.slice())
            } else {
                None
            }),
    {
        match self.op() {
            Some(WalOp::Alloc) => Some(BStackRange::new(self.word_a, self.word_b)),
            _ => None,
        }
    }

    /// The block, if this is a `Dealloc` entry.
    pub fn as_dealloc(&self) -> (r: Option<BStackRange>)
        ensures
            r == (if self.spec_op() == Some(WalOp::Dealloc) {
                Some(self.slice())
            } else {
                None
            }),
    {
        match self.op() {
            Some(WalOp::Dealloc) => Some(BStackRange::new(self.word_a, self.word_b)),
            _ => None,
        }
    }

    /// The bytes of the entry on disk.
    pub fn to_bytes(&self) -> (r: Vec<u8>)
        ensures
            r@ == self.image(),
            r@.len() == 32,
    {
        let mut out: Vec<u8> = Vec::with_capacity(32);
        out.push(self.status);
        out.push(self.op);
        let mut i: usize = 0;
        while i < 6
            invariant
                i <= 6,
                out@ =~= seq![self.status, self.op] + self.pad@.take(i as int),
            decreases 6 - i,
        {
            out.push(self.pad[i]);
            i += 1;
        }
        assert(self.pad@.take(6) =~= self.pad@);
        out.extend_from_slice(u32_le(self.file_id.0).as_slice());
        out.extend_from_slice(u32_le(self.obj_id).as_slice());
        out.extend_from_slice(u64_le(self.word_a).as_slice());
        out.extend_from_slice(u64_le(self.word_b).as_slice());
        proof {
            lemma_le_bytes_len(self.file_id.0 as nat, 4);
            lemma_le_bytes_len(self.obj_id as nat, 4);
            lemma_le_bytes_len(self.word_a as nat, 8);
            lemma_le_bytes_len(self.word_b as nat, 8);
            assert(out@ =~= self.image());
        }
        out
    }

    /// The entry that the 32 bytes of `bytes` at `at` hold.
    pub fn from_bytes(bytes: &[u8], at: usize) -> (r: WalEntry)
        requires
            at + 32 <= bytes@.len(),
        ensures
            r.read_from(bytes@.subrange(at as int, at + 32)),
    {
        let _n: usize = bytes.len();
        let ghost mine = bytes@.subrange(at as int, at + 32);
        let r = WalEntry {
            status: bytes[at],
            op: bytes[at + 1],
            pad: [
                bytes[at + 2],
                bytes[at + 3],
                bytes[at + 4],
                bytes[at + 5],
                bytes[at + 6],
                bytes[at + 7],
            ],
            file_id: FileId(get_u32_at(bytes, at + 8)),
            obj_id: get_u32_at(bytes, at + 12),
            word_a: get_u64_at(bytes, at + 16),
            word_b: get_u64_at(bytes, at + 24),
        };
        proof {
            assert(r.pad@ =~= mine.subrange(2, 8));
            assert(bytes@.subrange(at + 8, at + 12) =~= mine.subrange(8, 12));
            assert(bytes@.subrange(at + 12, at + 16) =~= mine.subrange(12, 16));
            assert(bytes@.subrange(at + 16, at + 24) =~= mine.subrange(16, 24));
            assert(bytes@.subrange(at + 24, at + 32) =~= mine.subrange(24, 32));
        }
        r
    }
}

/// An entry is 32 bytes long.
pub proof fn law_entry_is_32_bytes(e: WalEntry)
    ensures
        e.image().len() == 32,
{
    broadcast use array_len_matches_n;

    lemma_le_bytes_len(e.file_id.0 as nat, 4);
    lemma_le_bytes_len(e.obj_id as nat, 4);
    lemma_le_bytes_len(e.word_a as nat, 8);
    lemma_le_bytes_len(e.word_b as nat, 8);
}

/// What is read back from the bytes of an entry is that entry, field by field.
pub proof fn law_entry_round_trip(e: WalEntry, back: WalEntry)
    requires
        back.read_from(e.image()),
    ensures
        back.status == e.status,
        back.op == e.op,
        back.pad@ == e.pad@,
        back.file_id == e.file_id,
        back.obj_id == e.obj_id,
        back.word_a == e.word_a,
        back.word_b == e.word_b,
        back.image() == e.image(),
{
    broadcast use array_len_matches_n;

    law_entry_is_32_bytes(e);
    lemma_pow256_4_8();
    lemma_le_bytes_len(e.file_id.0 as nat, 4);
    lemma_le_bytes_len(e.obj_id as nat, 4);
    lemma_le_bytes_len(e.word_a as nat, 8);
    lemma_le_bytes_len(e.word_b as nat, 8);
    lemma_le_value_of_bytes(e.file_id.0 as nat, 4);
    lemma_le_value_of_bytes(e.obj_id as nat, 4);
    lemma_le_value_of_bytes(e.word_a as nat, 8);
    lemma_le_value_of_bytes(e.word_b as nat, 8);
    let b = e.image();
    assert(b.subrange(2, 8) =~= e.pad@);
    assert(b.subrange(8, 12) =~= le_bytes(e.file_id.0 as nat, 4));
    assert(b.subrange(12, 16) =~= le_bytes(e.obj_id as nat, 4));
    assert(b.subrange(16, 24) =~= le_bytes(e.word_a as nat, 8));
    assert(b.subrange(24, 32) =~= le_bytes(e.word_b as nat, 8));
}

/// The bytes of entries one after another.
pub open spec fn entries_image(es: Seq<WalEntry>) -> Seq<u8>
    decreases es.len(),
{
    if es.len() == 0 {
        Seq::empty()
    } else {
        entries_image(es.drop_last()) + es.last().image()
    }
}

/// Whether `es` are the whole entries that `bytes` hold from the start on.
pub open spec fn entries_of(es: Seq<WalEntry>, bytes: Seq<u8>) -> bool {
    &&& es.len() == bytes.len() / 32
    &&& forall|i: int|
        0 <= i < es.len() ==> (#[trigger] es[i]).read_from(bytes.subrange(32 * i, 32 * i + 32))
}

pub proof fn lemma_entries_image(es: Seq<WalEntry>)
    ensures
        entries_image(es).len() == 32 * es.len(),
        forall|i: int|
            0 <= i < es.len() ==> #[trigger] entries_image(es).subrange(32 * i, 32 * i + 32)
                == es[i].image(),
    decreases es.len(),
{
    if es.len() > 0 {
        let init = es.drop_last();
        lemma_entries_image(init);
        law_entry_is_32_bytes(es.last());
        assert forall|i: int| 0 <= i < es.len() implies #[trigger] entries_image(es).subrange(
            32 * i,
            32 * i + 32,
        ) == es[i].image() by {
            if i < init.len() {
                assert(entries_image(es).subrange(32 * i, 32 * i + 32) =~= entries_image(
                    init,
                ).subrange(32 * i, 32 * i + 32));
            } else {
                assert(entries_image(es).subrange(32 * i, 32 * i + 32) =~= es.last().image());
            }
        }
    }
}

/// Two entries that agree in every field that anything reads.
pub open spec fn same_entry(a: WalEntry, b: WalEntry) -> bool {
    a.status == b.status && a.op == b.op && a.file_id == b.file_id && a.obj_id == b.obj_id
        && a.word_a == b.word_a && a.word_b == b.word_b
}

/// Reading the bytes of a log gives its entries back, each with its file.
pub proof fn law_log_round_trip(es: Seq<WalEntry>, back: Seq<WalEntry>)
    requires
        entries_of(back, entries_image(es)),
    ensures
        back.len() == es.len(),
        forall|i: int| 0 <= i < es.len() ==> same_entry(#[trigger] back[i], es[i]),
{
    lemma_entries_image(es);
    assert forall|i: int| 0 <= i < es.len() implies same_entry(#[trigger] back[i], es[i]) by {
        assert(entries_image(es).subrange(32 * i, 32 * i + 32) == es[i].image());
        law_entry_round_trip(es[i], back[i]);
    }
}

/// A log in memory.
pub struct WalLog {
    pub entries: Vec<WalEntry>,
    /// The next identity of a requirement.
    pub next_id: u64,
}

impl View for WalLog {
    type V = Seq<WalEntry>;

    open spec fn view(&self) -> Seq<WalEntry> {
        self.entries@
    }
}

impl WalLog {
    /// An empty log with room for `ops` entries.
    pub fn with_capacity(ops: usize) -> (r: WalLog)
        ensures
            r@ == Seq::<WalEntry>::empty(),
            r.next_id == 0,
    {
        WalLog { entries: Vec::with_capacity(ops), next_id: 0 }
    }

    /// The next identity of a requirement: counting up, and from the start again past the end.
    pub fn fresh_id(&mut self) -> (r: u64)
        ensures
            r == old(self).next_id,
            final(self).next_id == (if old(self).next_id == u64::MAX {
                0
            } else {
                (old(self).next_id + 1) as u64
            }),
            final(self)@ == old(self)@,
    {
        let id: u64 = self.next_id;
        self.next_id = self.next_id.wrapping_add(1);
        id
    }

    /// Put an operation at the end of the log.
    pub fn append(&mut self, entry: WalEntry)
        ensures
            final(self)@ == old(self)@.push(entry),
            final(self).next_id == old(self).next_id,
    {
        self.entries.push(entry);
    }

    pub fn entries(&self) -> (r: &[WalEntry])
        ensures
            r@ == self@,
    {
        self.entries.as_slice()
    }

    /// The bytes of the entries on disk.
    pub fn as_bytes(&self) -> (r: Vec<u8>)
        ensures
            r@ == entries_image(self@),
    {
        let mut out: Vec<u8> = Vec::new();
        let mut i: usize = 0;
        while i < self.entries.len()
            invariant
                i <= self.entries@.len(),
                out@ == entries_image(self.entries@.take(i as int)),
            decreases self.entries@.len() - i,
        {
            out.extend_from_slice(self.entries[i].to_bytes().as_slice());
            i += 1;
            proof {
                let now = self.entries@.take(i as int);
                assert(now.drop_last() =~= self.entries@.take(i - 1));
            }
        }
        assert(self.entries@.take(i as int) =~= self.entries@);
        out
    }

    /// The entries that `bytes` hold. Bytes at the end that are no whole entry are ignored.
    pub fn entries_from_bytes(bytes: &[u8]) -> (r: Vec<WalEntry>)
        ensures
            entries_of(r@, bytes@),
    {
        let count: usize = bytes.len() / 32;
        let mut out: Vec<WalEntry> = Vec::with_capacity(count);
        let mut i: usize = 0;
        while i < count
            invariant
                i <= count,
                count == bytes@.len() / 32,
                out@.len() == i,
                forall|k: int|
                    0 <= k < i ==> (#[trigger] out@[k]).read_from(
                        bytes@.subrange(32 * k, 32 * k + 32),
                    ),
            decreases count - i,
        {
            let _n: usize = bytes.len();
            out.push(WalEntry::from_bytes(bytes, 32 * i));
            i += 1;
        }
        out
    }
}

} // verus!
