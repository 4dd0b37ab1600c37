//! A file in memory: what is written is read back, and a block is in use from when it is taken
//! until it goes.
use vstd::prelude::*;

use crate::allocator::{BStackRaiiAllocator, CounterOp};
use crate::bytes::{
    le_bytes, le_value, lemma_le_bytes_len, lemma_le_value_of_bytes, lemma_pow256_4_8,
};
use crate::error::Error;
use crate::mem::{MemAllocator, MemView};
use crate::range::{BStackRange, FileId};

verus! {

/// Whether the file lets one more request through.
pub open spec fn lets_through(m: MemView) -> bool {
    m.patience matches Some(n) ==> n > 0
}

/// Whether these bytes lie in the file.
pub open spec fn lies_within(m: MemView, off: int, len: int) -> bool {
    off + len <= m.bytes.len()
}

/// Whether only the bytes from `off` on changed, and are `with` now.
pub open spec fn only_changed(m: MemView, new: MemView, off: int, with: Seq<u8>) -> bool {
    &&& new.bytes.len() == m.bytes.len()
    &&& new.live == m.live
    &&& new.host_freed == m.host_freed
    &&& forall|i: int|
        0 <= i < m.bytes.len() ==> #[trigger] new.bytes[i] == (if off <= i < off + with.len() {
            with[i - off]
        } else {
            m.bytes[i]
        })
}

/// Whether nothing in the file changed.
pub open spec fn unchanged(m: MemView, new: MemView) -> bool {
    new.bytes == m.bytes && new.live == m.live && new.host_freed == m.host_freed
}

/// What is read is what lies there, and reading changes nothing.
pub proof fn law_a_read_gives_what_lies_there(
    a: &mut MemAllocator,
    off: u64,
    len: u64,
    r: Result<Vec<u8>, Error>,
)
    requires
        call_ensures(MemAllocator::get, (a, off, len), r),
    ensures
        unchanged(old(a)@, final(a)@),
        r is Ok <==> lets_through(old(a)@) && lies_within(old(a)@, off as int, len as int),
        r matches Ok(v) ==> v@.len() == len && forall|i: int|
            0 <= i < len ==> #[trigger] v@[i] == old(a)@.bytes[off + i],
{
}

/// What is written lies there, and nothing else changes; what is refused changes nothing.
pub proof fn law_a_write_changes_what_it_says(
    a: &mut MemAllocator,
    off: u64,
    bytes: Vec<u8>,
    r: Result<(), Error>,
)
    requires
        call_ensures(MemAllocator::set, (a, off, bytes), r),
    ensures
        r is Ok <==> lets_through(old(a)@) && lies_within(old(a)@, off as int, bytes@.len() as int),
        r is Ok ==> only_changed(old(a)@, final(a)@, off as int, bytes@),
        r is Err ==> unchanged(old(a)@, final(a)@),
{
}

/// An exchange gives what lay there, and writes what was given.
pub proof fn law_an_exchange_gives_what_lay_there(
    a: &mut MemAllocator,
    off: u64,
    bytes: Vec<u8>,
    r: Result<Vec<u8>, Error>,
)
    requires
        call_ensures(MemAllocator::swap, (a, off, bytes), r),
    ensures
        r is Ok <==> lets_through(old(a)@) && lies_within(old(a)@, off as int, bytes@.len() as int),
        r matches Ok(v) ==> only_changed(old(a)@, final(a)@, off as int, bytes@) && v@.len()
            == bytes@.len() && forall|i: int|
            0 <= i < v@.len() ==> #[trigger] v@[i] == old(a)@.bytes[off + i],
        r is Err ==> unchanged(old(a)@, final(a)@),
{
}

/// A copy lies where it was put, as the bytes were before.
pub proof fn law_a_copy_lies_where_it_was_put(
    a: &mut MemAllocator,
    from: u64,
    to: u64,
    len: u64,
    r: Result<(), Error>,
)
    requires
        call_ensures(MemAllocator::copy, (a, from, to, len), r),
    ensures
        r is Ok <==> lets_through(old(a)@) && lies_within(old(a)@, from as int, len as int)
            && lies_within(old(a)@, to as int, len as int),
        r is Ok ==> only_changed(
            old(a)@,
            final(a)@,
            to as int,
            old(a)@.bytes.subrange(from as int, from + len),
        ),
        r is Err ==> unchanged(old(a)@, final(a)@),
{
}

/// A step of a counter gives what it was, and leaves it stepped.
pub proof fn law_a_step_leaves_the_counter_stepped(
    a: &mut MemAllocator,
    off: u64,
    op: CounterOp,
    r: Result<u64, Error>,
    after: u64,
)
    requires
        call_ensures(MemAllocator::process, (a, off, op), r),
        r matches Ok(n) ==> call_ensures(CounterOp::apply, (&op, n), after),
    ensures
        r is Ok <==> lets_through(old(a)@) && lies_within(old(a)@, off as int, 8),
        r matches Ok(n) ==> n == le_value(old(a)@.bytes.subrange(off as int, off + 8))
            && only_changed(old(a)@, final(a)@, off as int, le_bytes(after as nat, 8))
            && le_value(final(a)@.bytes.subrange(off as int, off + 8)) == after,
        r is Err ==> unchanged(old(a)@, final(a)@),
{
    lemma_le_bytes_len(after as nat, 8);
    lemma_pow256_4_8();
    lemma_le_value_of_bytes(after as nat, 8);
    if r is Ok {
        assert(final(a)@.bytes.subrange(off as int, off + 8) =~= le_bytes(after as nat, 8));
    }
}

/// A counter is set exactly where it is what was expected.
pub proof fn law_a_counter_is_set_as_expected(
    a: &mut MemAllocator,
    off: u64,
    expected: u64,
    new: u64,
    r: Result<bool, Error>,
)
    requires
        call_ensures(MemAllocator::cas, (a, off, expected, new), r),
    ensures
        r is Ok <==> lets_through(old(a)@) && lies_within(old(a)@, off as int, 8),
        r matches Ok(was) ==> (was <==> le_value(old(a)@.bytes.subrange(off as int, off + 8))
            == expected),
        r == Ok::<bool, Error>(true) ==> only_changed(
            old(a)@,
            final(a)@,
            off as int,
            le_bytes(new as nat, 8),
        ),
        r != Ok::<bool, Error>(true) ==> unchanged(old(a)@, final(a)@),
{
    lemma_le_bytes_len(new as nat, 8);
}

/// A block that is taken lies at the end of the file, is all zero and is in use; nothing that was
/// there changes.
pub proof fn law_a_block_is_taken_at_the_end(
    a: &mut MemAllocator,
    len: u64,
    r: Result<BStackRange, Error>,
)
    requires
        old(a)@.bytes.len() <= u64::MAX,
        call_ensures(MemAllocator::alloc_range, (a, len), r),
    ensures
        r is Ok <==> lets_through(old(a)@) && old(a)@.bytes.len() + len <= old(a)@.limit,
        r matches Ok(x) ==> {
            &&& x.start == old(a)@.bytes.len() && x.len == len
            &&& final(a)@.bytes.len() == x.start + len
            &&& forall|i: int|
                0 <= i < x.start ==> #[trigger] final(a)@.bytes[i] == old(a)@.bytes[i]
            &&& forall|i: int| x.start <= i < x.start + len ==> #[trigger] final(a)@.bytes[i] == 0
            &&& final(a)@.live == old(a)@.live.push(x)
        },
        r is Err ==> unchanged(old(a)@, final(a)@),
{
}

/// A block goes exactly where it is in use, and its bytes stay as they are.
pub proof fn law_a_block_in_use_goes(
    a: &mut MemAllocator,
    range: BStackRange,
    r: Result<(), Error>,
)
    requires
        call_ensures(MemAllocator::dealloc, (a, range), r),
    ensures
        r is Ok <==> lets_through(old(a)@) && old(a)@.live.contains(range),
        r is Ok ==> final(a)@.bytes == old(a)@.bytes && final(a)@.live.to_multiset()
            == old(a)@.live.to_multiset().remove(range),
        r is Err ==> unchanged(old(a)@, final(a)@),
{
    if r is Ok {
        broadcast use vstd::seq_lib::group_to_multiset_ensures;

        let live = old(a)@.live;
        live.index_of_first_ensures(range);
        let i = live.index_of_first(range)->0;
        assert(live.remove_value(range) == live.remove(i));
        assert(live.remove(i).to_multiset() =~= live.to_multiset().remove(range));
    }
}

/// A block of another file is noted as freed exactly where that file is open.
pub proof fn law_a_block_of_an_open_file_goes(
    a: &mut MemAllocator,
    file: FileId,
    range: BStackRange,
    r: Option<Result<(), Error>>,
)
    requires
        call_ensures(MemAllocator::host_dealloc, (a, file, range), r),
    ensures
        r is Some <==> old(a)@.open_files.contains(file),
        r == Some(Ok::<(), Error>(())) ==> lets_through(old(a)@) && final(a)@.host_freed
            == old(a)@.host_freed.push((file, range)),
        r != Some(Ok::<(), Error>(())) ==> unchanged(old(a)@, final(a)@),
        final(a)@.bytes == old(a)@.bytes && final(a)@.live == old(a)@.live,
{
}

} // verus!
