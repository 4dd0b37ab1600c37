//! How a block is laid out: the header, and the counters right behind it.
use vstd::prelude::*;

use crate::allocator::{extends, group_talk, since, BStackRaiiAllocator, Event};
use crate::bytes::{
    get_u64_at, le_bytes, le_value, lemma_le_bytes_len, lemma_le_value_of_bytes, lemma_pow256_4_8,
    u64_le,
};
use crate::error::Error;
use crate::range::BStackRange;

verus! {

/// The eight bytes that name the type of a block.
#[derive(Clone, Copy, Debug)]
pub struct EightCC(pub [u8; 8]);

impl View for EightCC {
    type V = Seq<u8>;

    open spec fn view(&self) -> Seq<u8> {
        self.0@
    }
}

impl EightCC {
    pub fn new(tag: [u8; 8]) -> (r: EightCC)
        ensures
            r@ == tag@,
    {
        EightCC(tag)
    }

    /// The name of the control block of a block with this name: the same, but for the lowest bit
    /// of its last byte.
    pub fn with_ctrl_bit(&self) -> (r: EightCC)
        ensures
            r@ == ctrl_name(self@),
    {
        let mut tag = self.0;
        tag[7] = tag[7] ^ 1;
        assert(tag@ =~= ctrl_name(self@));
        EightCC(tag)
    }

    /// Whether two names are the same.
    pub fn same(&self, other: &EightCC) -> (r: bool)
        ensures
            r == (self@ == other@),
    {
        let mut i: usize = 0;
        while i < 8
            invariant
                i <= 8,
                forall|j: int| 0 <= j < i ==> self@[j] == other@[j],
            decreases 8 - i,
        {
            if self.0[i] != other.0[i] {
                return false;
            }
            i += 1;
        }
        assert(self@ =~= other@);
        true
    }
}

/// The name of the control block of a block with this name.
pub open spec fn ctrl_name(tag: Seq<u8>) -> Seq<u8> {
    tag.update(7, tag[7] ^ 1)
}

/// The name of a control block is never that of its block, and gives it back.
pub proof fn law_control_name_is_another(tag: Seq<u8>)
    requires
        tag.len() == 8,
    ensures
        ctrl_name(tag) != tag,
        ctrl_name(tag).take(7) == tag.take(7),
        ctrl_name(ctrl_name(tag)) == tag,
{
    let b = tag[7];
    assert(b ^ 1 != b) by (bit_vector);
    assert((b ^ 1) ^ 1 == b) by (bit_vector);
    assert(ctrl_name(tag)[7] != tag[7]);
    assert(ctrl_name(tag).take(7) =~= tag.take(7));
    assert(ctrl_name(ctrl_name(tag)) =~= tag);
}

/// How many bytes the header takes: where the payload of a block starts.
pub const HEADER_SIZE: u64 = 16;

/// In a counted block: where the count is.
pub const RC_REFCOUNT_OFFSET: u64 = 16;

/// In a counted block with weak references: where the offset of the control block is.
pub const CTRL_BACKPTR_OFFSET: u64 = 16;

/// In a control block: where the strong count is.
pub const CTRL_STRONG_OFFSET: u64 = 16;

/// In a control block: where the weak count is. It starts at one, for the strong owners
/// together.
pub const CTRL_WEAK_OFFSET: u64 = 24;

/// In a control block: where the offset of the data block is.
pub const CTRL_DATA_OFFSET: u64 = 32;

/// How many bytes a control block takes.
pub const CTRL_SIZE: u64 = 40;

/// `base + delta`; refused where it does not fit, which only a damaged offset can cause.
pub fn checked_off(base: u64, delta: u64) -> (r: Result<u64, Error>)
    ensures
        r == (if base + delta <= u64::MAX {
            Ok::<u64, Error>((base + delta) as u64)
        } else {
            Err(Error::BlockOffsetOverflow)
        }),
{
    match base.checked_add(delta) {
        Some(v) => Ok(v),
        None => Err(Error::BlockOffsetOverflow),
    }
}

/// The header of every block: how long the block is, and of which type.
#[derive(Clone, Copy, Debug)]
pub struct BlockHeader {
    pub size: u64,
    pub tag: EightCC,
}

impl BlockHeader {
    /// The bytes of a header on disk.
    pub open spec fn image(size: u64, tag: Seq<u8>) -> Seq<u8> {
        le_bytes(size as nat, 8) + tag
    }

    /// The bytes of the header on disk.
    pub fn to_bytes(&self) -> (r: Vec<u8>)
        ensures
            r@ == BlockHeader::image(self.size, self.tag@),
            r@.len() == 16,
    {
        let mut out = u64_le(self.size);
        proof {
            lemma_le_bytes_len(self.size as nat, 8);
        }
        let mut i: usize = 0;
        while i < 8
            invariant
                i <= 8,
                out@ =~= le_bytes(self.size as nat, 8) + self.tag@.take(i as int),
            decreases 8 - i,
        {
            out.push(self.tag.0[i]);
            i += 1;
        }
        assert(self.tag@.take(8) =~= self.tag@);
        out
    }

    /// The header that the first 16 bytes of `bytes` hold.
    pub fn from_bytes(bytes: &[u8]) -> (r: BlockHeader)
        requires
            bytes@.len() >= 16,
        ensures
            r.size == le_value(bytes@.subrange(0, 8)),
            r.tag@ == bytes@.subrange(8, 16),
    {
        let r = BlockHeader {
            size: get_u64_at(bytes, 0),
            tag: EightCC(
                [
                    bytes[8],
                    bytes[9],
                    bytes[10],
                    bytes[11],
                    bytes[12],
                    bytes[13],
                    bytes[14],
                    bytes[15],
                ],
            ),
        };
        assert(r.tag@ =~= bytes@.subrange(8, 16));
        r
    }
}

/// A header is read back as it was written.
pub proof fn law_block_header_round_trip(size: u64, tag: Seq<u8>, rest: Seq<u8>)
    requires
        tag.len() == 8,
    ensures
        le_value((BlockHeader::image(size, tag) + rest).subrange(0, 8)) == size,
        (BlockHeader::image(size, tag) + rest).subrange(8, 16) == tag,
{
    let b = BlockHeader::image(size, tag) + rest;
    lemma_pow256_4_8();
    lemma_le_bytes_len(size as nat, 8);
    lemma_le_value_of_bytes(size as nat, 8);
    assert(b.subrange(0, 8) =~= le_bytes(size as nat, 8));
    assert(b.subrange(8, 16) =~= tag);
}

/// The bytes of a fresh control block: the header, one strong and one weak reference, the
/// offset of the data block, and zeros up to its size.
pub open spec fn control_image(tag: Seq<u8>, data_start: u64, control_size: u64) -> Seq<u8> {
    BlockHeader::image(control_size, tag) + le_bytes(1, 8) + le_bytes(1, 8) + le_bytes(
        data_start as nat,
        8,
    ) + Seq::new((control_size - 40) as nat, |i: int| 0u8)
}

/// The bytes of a fresh control block of `control_size` bytes for the data block at
/// `data_start`.
pub fn build_control_payload(ctrl_tag: EightCC, data_start: u64, control_size: u64) -> (r: Vec<u8>)
    requires
        40 <= control_size <= usize::MAX,
    ensures
        r@ == control_image(ctrl_tag@, data_start, control_size),
        r@.len() == control_size,
{
    let header = BlockHeader { size: control_size, tag: ctrl_tag };
    let mut out = header.to_bytes();
    out.extend_from_slice(u64_le(1).as_slice());
    out.extend_from_slice(u64_le(1).as_slice());
    out.extend_from_slice(u64_le(data_start).as_slice());
    proof {
        lemma_le_bytes_len(1, 8);
        lemma_le_bytes_len(data_start as nat, 8);
    }
    let ghost head = out@;
    out.resize(control_size as usize, 0);
    proof {
        assert(out@ =~= head + Seq::new((control_size - 40) as nat, |i: int| 0u8));
        assert(out@ =~= control_image(ctrl_tag@, data_start, control_size));
    }
    out
}

/// What a fresh control block says: its size and type, one strong reference, one weak
/// reference, and where the data block is.
pub proof fn law_control_block_starts_with_one_owner(
    tag: Seq<u8>,
    data_start: u64,
    control_size: u64,
)
    requires
        tag.len() == 8,
        40 <= control_size,
    ensures
        ({
            let b = control_image(tag, data_start, control_size);
            &&& b.len() == control_size
            &&& le_value(b.subrange(0, 8)) == control_size
            &&& b.subrange(8, 16) == tag
            &&& le_value(b.subrange(16, 24)) == 1
            &&& le_value(b.subrange(24, 32)) == 1
            &&& le_value(b.subrange(32, 40)) == data_start
        }),
{
    let b = control_image(tag, data_start, control_size);
    lemma_pow256_4_8();
    lemma_le_bytes_len(control_size as nat, 8);
    lemma_le_bytes_len(1, 8);
    lemma_le_bytes_len(data_start as nat, 8);
    lemma_le_value_of_bytes(control_size as nat, 8);
    lemma_le_value_of_bytes(1, 8);
    lemma_le_value_of_bytes(data_start as nat, 8);
    assert(b.subrange(0, 8) =~= le_bytes(control_size as nat, 8));
    assert(b.subrange(8, 16) =~= tag);
    assert(b.subrange(16, 24) =~= le_bytes(1, 8));
    assert(b.subrange(24, 32) =~= le_bytes(1, 8));
    assert(b.subrange(32, 40) =~= le_bytes(data_start as nat, 8));
}

/// The conversation that makes a block with a header: a block that cannot be written is given
/// back.
pub open spec fn alloc_block_talk(
    tag: Seq<u8>,
    size: u64,
    t: Seq<Event>,
    r: Result<BStackRange, Error>,
) -> bool {
    &&& t.len() >= 1
    &&& t[0] matches Event::Alloc { len, reply: taken }
    &&& len == size
    &&& match taken {
        Err(e) => t.len() == 1 && r == Err::<BStackRange, Error>(e),
        Ok(range) => {
            &&& t.len() >= 2
            &&& t[1] matches Event::Write { off, bytes, reply: wrote }
            &&& off == range.start
            &&& bytes == BlockHeader::image(size, tag)
            &&& match wrote {
                Ok(_) => t.len() == 2 && r == Ok::<BStackRange, Error>(range),
                Err(e) => {
                    &&& t.len() == 3
                    &&& t[2] matches Event::Dealloc { range: back, reply: _ }
                    &&& back == range
                    &&& r == Err::<BStackRange, Error>(e)
                },
            }
        },
    }
}

/// Take a block of `size` bytes and write its header. The rest is left as it comes.
pub fn alloc_block<A: BStackRaiiAllocator>(a: &mut A, tag: EightCC, size: u64) -> (r: Result<
    BStackRange,
    Error,
>)
    ensures
        final(a).spec_settings() == old(a).spec_settings(),
        extends(old(a).trace(), final(a).trace()),
        alloc_block_talk(tag@, size, since(old(a).trace(), final(a).trace()), r),
{
    broadcast use group_talk;

    let ghost before = a.trace();
    let taken = a.alloc_range(size);
    let ghost mut t: Seq<Event> = seq![Event::Alloc { len: size, reply: taken }];
    assert(a.trace() =~= before + t);
    let range = match taken {
        Err(e) => {
            return Err(e);
        },
        Ok(range) => range,
    };
    let header = BlockHeader { size, tag };
    let wrote = a.set(range.start, header.to_bytes());
    proof {
        t = t.push(
            Event::Write {
                off: range.start,
                bytes: BlockHeader::image(size, tag@),
                reply: wrote,
            },
        );
        assert(a.trace() =~= before + t);
    }
    if let Err(e) = wrote {
        let back = a.dealloc(range);
        proof {
            t = t.push(Event::Dealloc { range, reply: back });
            assert(a.trace() =~= before + t);
        }
        return Err(e);
    }
    Ok(range)
}

} // verus!
