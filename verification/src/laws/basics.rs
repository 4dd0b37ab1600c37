//! Numbers, names and failures: the small things that everything else rests on.
use vstd::prelude::*;

use crate::allocator::{BStackRaiiAllocator, Event};
use crate::bytes::{
    get_u32_at, get_u64_at, le_value, lemma_le_bytes_of_value, lemma_pow256_4_8, pow256,
};
use crate::derive::attr::Repr;
use crate::derive::disc::{infer_disc_ty, parse_literal};
use crate::derive::words::{law_shown_number_reads_back, repr_name, show, shown_nat};
use crate::error::{Error, ErrorKind};
use crate::layout::{checked_off, ctrl_name, law_control_name_is_another, EightCC};
use crate::range::FileId;
use crate::refcount::cas;
use crate::registry::{host_mut, FileRegistry};

use super::numbers::{has_value, name_of};

verus! {

/// A place in a block is where the block starts and so far behind that; where that is no place,
/// it is refused.
pub proof fn law_a_place_is_so_far_behind_the_start(base: u64, delta: u64, r: Result<u64, Error>)
    requires
        call_ensures(checked_off, (base, delta), r),
    ensures
        r matches Ok(x) ==> x == base + delta,
        r is Err <==> base + delta > u64::MAX,
        r matches Err(e) ==> e == Error::BlockOffsetOverflow,
{
}

/// A counter is set where it is what was expected, in one request.
pub proof fn law_a_counter_is_set_where_it_is_as_expected<A: BStackRaiiAllocator>(
    a: &mut A,
    off: u64,
    expected: u64,
    new: u64,
    r: Result<bool, Error>,
)
    requires
        call_ensures(cas::<A>, (a, off, expected, new), r),
    ensures
        final(a).trace() == old(a).trace().push(Event::Cas { off, expected, new, reply: r }),
{
}

/// The name of a control block differs from that of its block in the last byte alone, and gives
/// it back; and two names are the same where all their bytes are.
pub proof fn law_a_control_block_has_a_name_of_its_own(
    tag: &EightCC,
    other: &EightCC,
    c: EightCC,
    back: EightCC,
    s: bool,
)
    requires
        call_ensures(EightCC::with_ctrl_bit, (tag,), c),
        call_ensures(EightCC::with_ctrl_bit, (&c,), back),
        call_ensures(EightCC::same, (tag, other), s),
    ensures
        c@ != tag@,
        forall|i: int| 0 <= i < 7 ==> #[trigger] c@[i] == tag@[i],
        back@ == tag@,
        s <==> tag@ == other@,
{
    assert(tag@.len() == 8);
    law_control_name_is_another(tag@);
    assert forall|i: int| 0 <= i < 7 implies #[trigger] c@[i] == tag@[i] by {
        assert(ctrl_name(tag@)[i] == tag@[i]);
    }
}

/// A number is that of a file where it fits; a row of the table belongs to every number but that
/// of the file at hand and those that are set aside.
pub proof fn law_numbers_of_files(v: u64, r: Option<FileId>, id: FileId, row: Option<usize>)
    requires
        call_ensures(FileId::from_u64, (v,), r),
        call_ensures(FileId::table_index, (&id,), row),
    ensures
        r is Some <==> v <= u32::MAX,
        r matches Some(x) ==> x.0 == v,
        row is Some <==> 1 <= id.0 < 0xffff_ff00,
        row matches Some(i) ==> i == id.0 - 1,
{
}

/// A failure has a class, unless only the file below knows it: what is damaged, what is not
/// supported, what is used up, what was asked wrongly, and what is not there.
pub proof fn law_a_failure_has_its_class(e: Error, r: Option<ErrorKind>)
    requires
        call_ensures(Error::kind, (&e,), r),
    ensures
        r is None <==> e is Outside,
        r == Some(ErrorKind::InvalidData) <==> e is BlockOffsetOverflow || e is RefcountOverflow
            || e is RefcountUnderflow || e is RefcountOffsetOverflow || e is CorruptWalCapacity || e
            is CloneMalformedFile || e is InvalidDiscriminant || e is CastMismatch,
        r == Some(ErrorKind::Unsupported) <==> e is CloneCountedBlock || e is CloneCountedEnum,
        r == Some(ErrorKind::WouldBlock) <==> e is CloneReentry,
        r == Some(ErrorKind::OutOfMemory) <==> e is RegistryExhausted || e is NoSpace,
        r == Some(ErrorKind::InvalidInput) <==> e is HostAttachedElsewhere || e
            is ForeignHomeMismatch || e is ArrayIndexOutOfBounds || e is OutOfRange || e
            is NotAllocated,
        r == Some(ErrorKind::AlreadyExists) <==> e is RegistryAlreadyInitialized,
        r == Some(ErrorKind::NotFound) <==> e is RegistryNotInitialized || e is ForeignNotAttached
            || e is CloneOwnedNotAttached || e is CloneStrongNotAttached || e
            is CloneWeakNotAttached,
        r == Some(ErrorKind::Other) <==> e is NoWalAnchor || e is TeardownTooDeep,
{
}

/// A number that is shown is read back as that number, and one below zero as its opposite behind a
/// sign.
pub proof fn law_a_shown_number_is_read_back(
    n: i128,
    text: String,
    digits: &str,
    back: Option<i128>,
)
    requires
        call_ensures(show, (n,), text),
        n >= 0 ==> digits@ == text@,
        n < 0 ==> text@ == seq!['-'] + digits@,
        call_ensures(parse_literal, (digits,), back),
    ensures
        n >= 0 ==> back == Some(n),
        n < 0 && n > i128::MIN ==> (back matches Some(v) && v == -n),
        text@.len() > 0 && (text@[0] == '-' <==> n < 0),
{
    if n >= 0 {
        law_shown_number_reads_back(n as nat);
    } else {
        law_shown_number_reads_back((-n) as nat);
        assert((seq!['-'] + digits@).skip(1) =~= digits@);
        assert((seq!['-'] + shown_nat((-n) as nat)).skip(1) =~= shown_nat((-n) as nat));
    }
}

/// An integer type is called by its name.
pub proof fn law_an_integer_type_has_its_name(ty: Repr, r: &'static str)
    requires
        call_ensures(repr_name, (ty,), r),
    ensures
        r@ == name_of(ty),
{
}

/// The type that is chosen for numbers from `min` to `max` has a sign exactly where that is
/// needed, has them all where some type does, and is no wider than that one.
pub proof fn law_a_chosen_type_is_no_wider_than_needed(min: i128, max: i128, r: Repr, ty: Repr)
    requires
        call_ensures(infer_disc_ty, (min, max), r),
    ensures
        has_value(r, -1) <==> min < 0,
        min <= max && (has_value(ty, -1) <==> min < 0) && has_value(ty, min as int) && has_value(
            ty,
            max as int,
        ) ==> has_value(r, min as int) && has_value(r, max as int) && forall|v: int| #[trigger]
            has_value(r, v) ==> has_value(ty, v),
{
}

/// An open file that is worked with is the one under its number, and no other file and no path is
/// affected.
pub proof fn law_one_open_file_is_worked_with<H: BStackRaiiAllocator>(
    reg: &mut FileRegistry<H>,
    id: FileId,
    r: Option<&mut H>,
)
    requires
        call_ensures(FileRegistry::<H>::host_mut, (reg, id), r),
    ensures
        final(reg)@.paths == old(reg)@.paths,
        final(reg)@.by_stack == old(reg)@.by_stack,
        final(reg).hosts().len() == old(reg).hosts().len(),
        forall|k: int|
            0 <= k < old(reg).hosts().len() && k != id.0 - 1 ==> #[trigger] final(reg).hosts()[k]
                == old(reg).hosts()[k],
        r is None ==> final(reg).hosts() == old(reg).hosts(),
{
}

/// Numbers lie with their lowest byte first.
pub proof fn law_the_lowest_byte_comes_first(
    b: &[u8],
    at: usize,
    small: u32,
    large: u64,
)
    requires
        at + 8 <= b@.len(),
        call_ensures(get_u32_at, (b, at), small),
        call_ensures(get_u64_at, (b, at), large),
    ensures
        small == b@[at as int] + 0x100 * b@[at + 1] + 0x1_0000 * b@[at + 2] + 0x100_0000 * b@[at
            + 3],
        large == small + 0x1_0000_0000 * (b@[at + 4] + 0x100 * b@[at + 5] + 0x1_0000 * b@[at + 6]
            + 0x100_0000 * b@[at + 7]),
{
    reveal_with_fuel(le_value, 9);
    lemma_pow256_4_8();
    let four = b@.subrange(at as int, at + 4);
    let eight = b@.subrange(at as int, at + 8);
    assert(four.len() == 4 && eight.len() == 8);
    assert(forall|i: int| 0 <= i < 4 ==> #[trigger] four[i] == b@[at + i]);
    assert(forall|i: int| 0 <= i < 8 ==> #[trigger] eight[i] == b@[at + i]);
    lemma_le_bytes_of_value(four);
    lemma_le_bytes_of_value(eight);
    lemma_four(four);
    lemma_four(eight.skip(4));
    lemma_eight(eight);
    assert(eight.take(4) =~= four);
}

proof fn lemma_four(s: Seq<u8>)
    requires
        s.len() == 4,
    ensures
        le_value(s) == s[0] + 0x100 * s[1] + 0x1_0000 * s[2] + 0x100_0000 * s[3],
{
    reveal_with_fuel(le_value, 5);
    reveal_with_fuel(pow256, 5);
}

proof fn lemma_eight(s: Seq<u8>)
    requires
        s.len() == 8,
    ensures
        le_value(s) == le_value(s.take(4)) + 0x1_0000_0000 * le_value(s.skip(4)),
{
    reveal_with_fuel(le_value, 9);
    reveal_with_fuel(pow256, 9);
}

} // verus!
