//! Where a block lies: a range of the file, and the identity of the file.
use vstd::prelude::*;

verus! {

/// A range of a file: `len` bytes from `start` on.
#[derive(Clone, Copy, Debug, PartialEq, Eq, Structural)]
pub struct BStackRange {
    pub start: u64,
    pub len: u64,
}

impl BStackRange {
    pub fn new(start: u64, len: u64) -> (r: BStackRange)
        ensures
            r == (BStackRange { start, len }),
    {
        BStackRange { start, len }
    }

    pub fn start(&self) -> (r: u64)
        ensures
            r == self.start,
    {
        self.start
    }

    pub fn len(&self) -> (r: u64)
        ensures
            r == self.len,
    {
        self.len
    }
}

/// The stable identity of a file. `0` is the file at hand; the ordinary identities count up
/// from `1`; those from [`SPECIAL_FLOOR`] on are set aside.
#[derive(Clone, Copy, Debug, PartialEq, Eq, Structural)]
pub struct FileId(pub u32);

/// The first identity that is set aside and never given to a file.
pub const SPECIAL_FLOOR: u32 = 0xffff_ff00;

impl FileId {
    /// The file at hand.
    pub fn self_file() -> (r: FileId)
        ensures
            r == FileId(0),
    {
        FileId(0)
    }

    /// Whether this is the file at hand.
    pub open spec fn spec_is_self(self) -> bool {
        self.0 == 0
    }

    pub fn is_self(&self) -> (r: bool)
        ensures
            r == self.spec_is_self(),
    {
        self.0 == 0
    }

    /// The identity written as `v`, if a file can have it.
    pub open spec fn spec_from_u64(v: u64) -> Option<FileId> {
        if v <= u32::MAX {
            Some(FileId(v as u32))
        } else {
            None
        }
    }

    pub fn from_u64(v: u64) -> (r: Option<FileId>)
        ensures
            r == FileId::spec_from_u64(v),
    {
        if v <= 0xffff_ffff {
            Some(FileId(v as u32))
        } else {
            None
        }
    }

    pub fn from_raw(v: u32) -> (r: FileId)
        ensures
            r == FileId(v),
    {
        FileId(v)
    }

    pub fn as_u64(&self) -> (r: u64)
        ensures
            r == self.0,
    {
        self.0 as u64
    }

    pub open spec fn spec_table_index(self) -> Option<int> {
        if 1 <= self.0 < SPECIAL_FLOOR {
            Some(self.0 - 1)
        } else {
            None
        }
    }

    /// The row of the registry's table that this identity names: none for the file at hand
    /// and for the identities set aside.
    pub fn table_index(&self) -> (r: Option<usize>)
        ensures
            match r {
                Some(i) => self.spec_table_index() == Some(i as int),
                None => self.spec_table_index() is None,
            },
    {
        if self.0 >= 1 && self.0 < SPECIAL_FLOOR {
            Some((self.0 - 1) as usize)
        } else {
            None
        }
    }
}

/// Every identity survives being widened and narrowed again.
pub proof fn law_file_id_round_trip(id: FileId)
    ensures
        FileId::spec_from_u64(id.0 as u64) == Some(id),
{
}

} // verus!
