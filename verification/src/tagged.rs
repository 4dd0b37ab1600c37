//! Enums as blocks: the number of the variant, and room for the largest payload.
//!
//! A variant holds plain bytes, refers to one block, or has one in it. The same value that makes
//! a block comes out again when the block is taken apart.
use vstd::prelude::*;
use vstd::slice::slice_subrange;

use crate::allocator::{
    bytes_view, extends, lemma_extends, lemma_since, since, BStackRaiiAllocator, Event, Settings,
};
use crate::bytes::{
    get_u64, le_bytes, le_value, lemma_le_bytes_len, lemma_le_bytes_prefix,
    lemma_le_value_of_bytes, lemma_le_value_zero_extend, lemma_pow256_4_8, pow256, u64_le,
};
use crate::construct::{
    build_block, build_pair, build_pair_talk, build_talk, fresh_bytes, fresh_image, whole_size,
    Built,
};
use crate::derive::attr::Repr;
use crate::derive::disc::{holds, signed, width};
use crate::derive::kind::Mode;
use crate::duplicate::{store_copy, store_talk, HomeClone};
use crate::embed::{embed_one, move_talk, Move};
use crate::error::Error;
use crate::handback::{ConstructError, ReplaceError};
use crate::handle::{ctrl_talk, read_ctrl_ref};
use crate::layout::EightCC;
use crate::range::BStackRange;
use crate::slot::Strong;
use crate::teardown::{dealloc_range, dealloc_talk, kept, Teardown, TeardownView};

verus! {

/// What a variant holds.
#[derive(Clone, Copy, Debug, PartialEq, Eq, Structural)]
pub enum Part {
    /// Plain bytes, this many.
    Pod(u64),
    /// A block of its own, of this size.
    Owned(u64),
    /// A counted block of this size, and the size of its control block if it has one.
    Strong(u64, Option<u64>),
    /// A weak reference to a block with a control block of this size.
    Weak(u64),
    /// A borrowed block of this size.
    Ref(u64),
    /// A block of this size that lies in the payload.
    Embed(u64),
}

/// A variant: its number, and what it holds.
#[derive(Clone, Copy, Debug, PartialEq, Eq, Structural)]
pub struct Arm {
    pub disc: i128,
    pub part: Part,
}

/// How many bytes of the payload a variant uses.
pub open spec fn part_size(part: Part) -> int {
    match part {
        Part::Pod(n) => n as int,
        Part::Embed(n) => n as int,
        _ => 8,
    }
}

/// An enum: its tag, how it is owned, the type of its numbers, the room for a payload, and its
/// variants.
pub struct EnumLayout {
    pub tag: EightCC,
    pub mode: Mode,
    pub repr: Repr,
    pub payload: usize,
    pub arms: Vec<Arm>,
}

impl EnumLayout {
    /// Every number fits and is there once; every variant has the room that it needs.
    pub open spec fn wf(&self) -> bool {
        &&& self.payload + 32 <= usize::MAX
        &&& forall|i: int|
            0 <= i < self.arms@.len() ==> holds(
                self.repr,
                (#[trigger] self.arms@[i]).disc as int,
                self.arms@[i].disc as int,
            ) && part_size(self.arms@[i].part) <= self.payload
        &&& forall|i: int, j: int|
            0 <= i < j < self.arms@.len() ==> (#[trigger] self.arms@[i]).disc != (
            #[trigger] self.arms@[j]).disc
    }

    /// How many bytes the number and the payload take.
    pub open spec fn body_len(&self) -> int {
        width(self.repr) + self.payload
    }
}

/// The value of a variant.
pub enum Data {
    Pod(Vec<u8>),
    Owned(BStackRange),
    Strong(Strong),
    Weak(Option<BStackRange>),
    Ref(BStackRange),
    /// A block of its own: before it is put into the payload, and after it was taken out again.
    Embed(BStackRange),
}

/// [`Data`], as a value.
pub enum DataView {
    Pod(Seq<u8>),
    Owned(BStackRange),
    Strong(Strong),
    Weak(Option<BStackRange>),
    Ref(BStackRange),
    /// A block of its own: before it is put into the payload, and after it was taken out again.
    Embed(BStackRange),
}

impl View for Data {
    type V = DataView;

    open spec fn view(&self) -> DataView {
        match self {
            Data::Pod(b) => DataView::Pod(b@),
            Data::Owned(r) => DataView::Owned(*r),
            Data::Strong(s) => DataView::Strong(*s),
            Data::Weak(w) => DataView::Weak(*w),
            Data::Ref(r) => DataView::Ref(*r),
            Data::Embed(r) => DataView::Embed(*r),
        }
    }
}

/// Whether a value is one that the variant can have.
pub open spec fn suits(part: Part, d: DataView) -> bool {
    match (part, d) {
        (Part::Pod(n), DataView::Pod(b)) => b.len() == n,
        (Part::Owned(size), DataView::Owned(r)) => r.len == size,
        (Part::Strong(size, control), DataView::Strong(s)) => s.data.len == size && match control {
            None => s.ctrl is None,
            Some(c) => s.ctrl matches Some(r) && r.len == c,
        },
        (Part::Weak(c), DataView::Weak(w)) => w matches Some(r) ==> r.len == c && r.start != 0,
        (Part::Ref(size), DataView::Ref(r)) => r.len == size,
        (Part::Embed(size), DataView::Embed(r)) => r.len == size,
        _ => false,
    }
}

/// Whether variant number `i` of the enum can hold this value.
pub fn is_suitable(layout: &EnumLayout, i: usize, d: &Data) -> (r: bool)
    ensures
        r == (i < layout.arms@.len() && suits(layout.arms@[i as int].part, d@)),
{
    if i >= layout.arms.len() {
        return false;
    }
    match (&layout.arms[i].part, d) {
        (Part::Pod(n), Data::Pod(b)) => b.len() as u64 == *n,
        (Part::Owned(size), Data::Owned(r)) => r.len == *size,
        (Part::Strong(size, control), Data::Strong(s)) => {
            s.data.len == *size && match (control, &s.ctrl) {
                (None, None) => true,
                (Some(c), Some(r)) => r.len == *c,
                _ => false,
            }
        },
        (Part::Weak(c), Data::Weak(w)) => match w {
            Some(r) => r.len == *c && r.start != 0,
            None => true,
        },
        (Part::Ref(size), Data::Ref(r)) => r.len == *size,
        (Part::Embed(size), Data::Embed(r)) => r.len == *size,
        _ => false,
    }
}

/// The bytes of the payload that a value says. A block that lies in the payload comes later.
pub open spec fn head(d: DataView) -> Seq<u8> {
    match d {
        DataView::Pod(b) => b,
        DataView::Owned(r) => le_bytes(r.start as nat, 8),
        DataView::Strong(s) => le_bytes(s.data.start as nat, 8),
        DataView::Weak(Some(r)) => le_bytes(r.start as nat, 8),
        DataView::Weak(None) => le_bytes(0, 8),
        DataView::Ref(r) => le_bytes(r.start as nat, 8),
        DataView::Embed(_) => Seq::empty(),
    }
}

/// The payload for a value: its bytes, and zeros up to `n`.
pub open spec fn payload_of(d: DataView, n: int) -> Seq<u8> {
    head(d) + Seq::new((n - head(d).len()) as nat, |i: int| 0u8)
}

/// The number of a variant as a natural number: two's complement.
pub open spec fn disc_word(repr: Repr, d: int) -> nat {
    if d < 0 {
        (d + pow256(width(repr) as nat)) as nat
    } else {
        d as nat
    }
}

/// The bytes of the number of a variant.
pub open spec fn disc_bytes(repr: Repr, d: int) -> Seq<u8> {
    le_bytes(disc_word(repr, d), width(repr) as nat)
}

/// The number that bytes spell.
pub open spec fn disc_value(repr: Repr, s: Seq<u8>) -> int {
    let v = le_value(s) as int;
    let m = pow256(width(repr) as nat) as int;
    if signed(repr) && 2 * v >= m {
        v - m
    } else {
        v
    }
}

proof fn lemma_moduli()
    ensures
        pow256(1) == 0x100,
        pow256(2) == 0x1_0000,
        pow256(4) == 0x1_0000_0000,
        pow256(8) == 0x1_0000_0000_0000_0000,
{
    lemma_pow256_4_8();
    reveal_with_fuel(pow256, 3);
}

/// The number of a variant is read as it was written.
pub proof fn law_discriminant_round_trip(repr: Repr, d: int)
    requires
        holds(repr, d, d),
    ensures
        disc_value(repr, disc_bytes(repr, d)) == d,
        disc_bytes(repr, d).len() == width(repr),
{
    lemma_moduli();
    lemma_le_bytes_len(disc_word(repr, d), width(repr) as nat);
    lemma_le_value_of_bytes(disc_word(repr, d), width(repr) as nat);
}

fn disc_width(repr: Repr) -> (r: usize)
    ensures
        r == width(repr),
        r <= 8,
{
    match repr {
        Repr::U8 => 1,
        Repr::I8 => 1,
        Repr::U16 => 2,
        Repr::I16 => 2,
        Repr::U32 => 4,
        Repr::I32 => 4,
        Repr::U64 => 8,
        Repr::I64 => 8,
    }
}

fn disc_modulus(repr: Repr) -> (r: i128)
    ensures
        r == pow256(width(repr) as nat),
        r <= 0x1_0000_0000_0000_0000,
{
    proof {
        lemma_moduli();
    }
    match repr {
        Repr::U8 => 0x100,
        Repr::I8 => 0x100,
        Repr::U16 => 0x1_0000,
        Repr::I16 => 0x1_0000,
        Repr::U32 => 0x1_0000_0000,
        Repr::I32 => 0x1_0000_0000,
        Repr::U64 => 0x1_0000_0000_0000_0000,
        Repr::I64 => 0x1_0000_0000_0000_0000,
    }
}

fn disc_to_bytes(repr: Repr, d: i128) -> (r: Vec<u8>)
    requires
        holds(repr, d as int, d as int),
    ensures
        r@ == disc_bytes(repr, d as int),
{
    let m: i128 = disc_modulus(repr);
    proof {
        lemma_moduli();
        lemma_le_bytes_len(disc_word(repr, d as int), 8);
        lemma_le_bytes_prefix(disc_word(repr, d as int), 8, width(repr) as nat);
    }
    let word: u64 = if d < 0 {
        (d + m) as u64
    } else {
        d as u64
    };
    let mut out = u64_le(word);
    out.truncate(disc_width(repr));
    assert(out@ =~= le_bytes(word as nat, 8).take(width(repr)));
    out
}

fn is_signed(repr: Repr) -> (r: bool)
    ensures
        r == signed(repr),
{
    match repr {
        Repr::I8 => true,
        Repr::I16 => true,
        Repr::I32 => true,
        Repr::I64 => true,
        _ => false,
    }
}

fn disc_from_bytes(repr: Repr, b: &[u8]) -> (r: i128)
    requires
        b@.len() == width(repr),
    ensures
        r == disc_value(repr, b@),
{
    let mut wide: Vec<u8> = Vec::new();
    wide.extend_from_slice(b);
    assert(wide@ =~= b@);
    while wide.len() < 8
        invariant
            width(repr) <= wide@.len() <= 8,
            wide@ =~= b@ + Seq::new((wide@.len() - b@.len()) as nat, |i: int| 0u8),
            b@.len() == width(repr),
        decreases 8 - wide@.len(),
    {
        wide.push(0);
    }
    proof {
        lemma_le_value_zero_extend(b@, (8 - b@.len()) as nat);
        assert(wide@.subrange(0, 8) =~= wide@);
        lemma_moduli();
    }
    let v: i128 = get_u64(wide.as_slice()) as i128;
    let m: i128 = disc_modulus(repr);
    if is_signed(repr) && 2 * v >= m {
        v - m
    } else {
        v
    }
}

/// The bytes behind the header for a value of variant number `i`.
pub open spec fn body_of(layout: EnumLayout, i: int, d: DataView) -> Seq<u8> {
    disc_bytes(layout.repr, layout.arms@[i].disc as int) + payload_of(d, layout.payload as int)
}

pub(crate) proof fn lemma_body_len(layout: EnumLayout, i: int, d: DataView)
    requires
        layout.wf(),
        0 <= i < layout.arms@.len(),
        suits(layout.arms@[i].part, d),
    ensures
        head(d).len() <= part_size(layout.arms@[i].part),
        d !is Embed ==> head(d).len() == part_size(layout.arms@[i].part),
        payload_of(d, layout.payload as int).len() == layout.payload,
        body_of(layout, i, d).len() == layout.body_len(),
{
    lemma_le_bytes_len(disc_word(layout.repr, layout.arms@[i].disc as int), width(
        layout.repr,
    ) as nat);
    match d {
        DataView::Pod(b) => {},
        DataView::Owned(r) => lemma_le_bytes_len(r.start as nat, 8),
        DataView::Strong(s) => lemma_le_bytes_len(s.data.start as nat, 8),
        DataView::Weak(Some(r)) => lemma_le_bytes_len(r.start as nat, 8),
        DataView::Weak(None) => lemma_le_bytes_len(0, 8),
        DataView::Ref(r) => lemma_le_bytes_len(r.start as nat, 8),
        DataView::Embed(_) => {},
    }
}

/// The bytes behind the header for a value of variant number `i`.
pub fn encode(layout: &EnumLayout, i: usize, d: &Data) -> (r: Vec<u8>)
    requires
        layout.wf(),
        i < layout.arms@.len(),
        suits(layout.arms@[i as int].part, d@),
    ensures
        r@ == body_of(*layout, i as int, d@),
        r@.len() == layout.body_len(),
{
    proof {
        lemma_body_len(*layout, i as int, d@);
    }
    let mut out = disc_to_bytes(layout.repr, layout.arms[i].disc);
    let ghost disc = out@;
    match d {
        Data::Pod(b) => out.extend_from_slice(b.as_slice()),
        Data::Owned(r) => out.extend_from_slice(u64_le(r.start).as_slice()),
        Data::Strong(s) => out.extend_from_slice(u64_le(s.data.start).as_slice()),
        Data::Weak(Some(r)) => out.extend_from_slice(u64_le(r.start).as_slice()),
        Data::Weak(None) => out.extend_from_slice(u64_le(0).as_slice()),
        Data::Ref(r) => out.extend_from_slice(u64_le(r.start).as_slice()),
        Data::Embed(_) => {},
    }
    assert(out@ =~= disc + head(d@));
    let want: usize = disc_width(layout.repr) + layout.payload;
    let ghost start = out@;
    while out.len() < want
        invariant
            start.len() <= out@.len() <= want,
            out@ =~= start + Seq::new((out@.len() - start.len()) as nat, |i: int| 0u8),
        decreases want - out@.len(),
    {
        out.push(0);
    }
    assert(out@ =~= body_of(*layout, i as int, d@));
    out
}

/// The variant with this number.
pub open spec fn arm_of(arms: Seq<Arm>, disc: int) -> Option<int>
    decreases arms.len(),
{
    if arms.len() == 0 {
        None
    } else {
        match arm_of(arms.drop_last(), disc) {
            Some(i) => Some(i),
            None => if arms.last().disc == disc {
                Some(arms.len() - 1)
            } else {
                None
            },
        }
    }
}

proof fn lemma_arm_stays(arms: Seq<Arm>, n: int, disc: int)
    requires
        0 <= n <= arms.len(),
        arm_of(arms.take(n), disc) is Some,
    ensures
        arm_of(arms, disc) == arm_of(arms.take(n), disc),
    decreases arms.len(),
{
    if n == arms.len() {
        assert(arms.take(n) =~= arms);
    } else {
        assert(arms.drop_last().take(n) =~= arms.take(n));
        lemma_arm_stays(arms.drop_last(), n, disc);
    }
}

proof fn lemma_arm_found(arms: Seq<Arm>, i: int)
    requires
        0 <= i < arms.len(),
        forall|j: int, k: int|
            0 <= j < k < arms.len() ==> (#[trigger] arms[j]).disc != (#[trigger] arms[k]).disc,
    ensures
        arm_of(arms, arms[i].disc as int) == Some(i),
    decreases arms.len(),
{
    let init = arms.drop_last();
    if i < init.len() {
        assert forall|j: int, k: int| 0 <= j < k < init.len() implies (#[trigger] init[j]).disc != (
        #[trigger] init[k]).disc by {
            assert(init[j] == arms[j] && init[k] == arms[k]);
        }
        lemma_arm_found(init, i);
    } else {
        lemma_arm_absent(init, arms[i].disc as int);
    }
}

proof fn lemma_arm_absent(arms: Seq<Arm>, disc: int)
    requires
        forall|j: int| 0 <= j < arms.len() ==> (#[trigger] arms[j]).disc != disc,
    ensures
        arm_of(arms, disc) is None,
    decreases arms.len(),
{
    if arms.len() > 0 {
        let init = arms.drop_last();
        assert forall|j: int| 0 <= j < init.len() implies (#[trigger] init[j]).disc != disc by {
            assert(init[j] == arms[j]);
        }
        lemma_arm_absent(init, disc);
    }
}

fn pick(arms: &Vec<Arm>, disc: i128) -> (r: Option<usize>)
    ensures
        match arm_of(arms@, disc as int) {
            Some(i) => r matches Some(j) && j == i && 0 <= i < arms@.len(),
            None => r is None,
        },
{
    let mut i: usize = 0;
    assert(arms@.take(0) =~= Seq::empty());
    while i < arms.len()
        invariant
            i <= arms@.len(),
            arm_of(arms@.take(i as int), disc as int) is None,
        decreases arms@.len() - i,
    {
        assert(arms@.take(i + 1).drop_last() =~= arms@.take(i as int));
        if arms[i].disc == disc {
            proof {
                lemma_arm_stays(arms@, i + 1, disc as int);
            }
            return Some(i);
        }
        i += 1;
    }
    assert(arms@.take(i as int) =~= arms@);
    None
}

/// What the bytes behind a header say, before any other block is looked at.
pub enum Seen {
    /// A number that no variant has.
    Unknown,
    /// This value of this variant.
    Value(usize, Data),
    /// A strong reference of this variant, to a block with a control block of this size.
    Counted(usize, BStackRange, u64),
    /// A block of this size in the payload of this variant.
    Embedded(usize, u64),
}

/// [`Seen`], as a value.
pub enum SeenView {
    Unknown,
    Value(int, DataView),
    Counted(int, BStackRange, u64),
    Embedded(int, u64),
}

impl View for Seen {
    type V = SeenView;

    open spec fn view(&self) -> SeenView {
        match self {
            Seen::Unknown => SeenView::Unknown,
            Seen::Value(i, d) => SeenView::Value(*i as int, d@),
            Seen::Counted(i, r, c) => SeenView::Counted(*i as int, *r, *c),
            Seen::Embedded(i, n) => SeenView::Embedded(*i as int, *n),
        }
    }
}

/// What a payload says of variant number `i`.
pub open spec fn seen_part(i: int, part: Part, payload: Seq<u8>) -> SeenView {
    let off = le_value(payload.take(8)) as u64;
    match part {
        Part::Pod(n) => SeenView::Value(i, DataView::Pod(payload.take(n as int))),
        Part::Owned(size) => SeenView::Value(
            i,
            DataView::Owned(BStackRange { start: off, len: size }),
        ),
        Part::Strong(size, None) => SeenView::Value(
            i,
            DataView::Strong(Strong { data: BStackRange { start: off, len: size }, ctrl: None }),
        ),
        Part::Strong(size, Some(c)) => SeenView::Counted(
            i,
            BStackRange { start: off, len: size },
            c,
        ),
        Part::Weak(c) => SeenView::Value(
            i,
            DataView::Weak(
                if off == 0 {
                    None
                } else {
                    Some(BStackRange { start: off, len: c })
                },
            ),
        ),
        Part::Ref(size) => SeenView::Value(i, DataView::Ref(BStackRange { start: off, len: size })),
        Part::Embed(n) => SeenView::Embedded(i, n),
    }
}

/// What the bytes behind a header say.
pub open spec fn seen(layout: EnumLayout, body: Seq<u8>) -> SeenView {
    let w = width(layout.repr);
    match arm_of(layout.arms@, disc_value(layout.repr, body.take(w))) {
        None => SeenView::Unknown,
        Some(i) => seen_part(i, layout.arms@[i].part, body.skip(w)),
    }
}

/// What the bytes behind a header say.
pub fn look(layout: &EnumLayout, body: &[u8]) -> (r: Seen)
    requires
        layout.wf(),
        body@.len() == layout.body_len(),
    ensures
        r@ == seen(*layout, body@),
        r matches Seen::Embedded(_, n) ==> n <= layout.payload,
{
    let w: usize = disc_width(layout.repr);
    let first = slice_subrange(body, 0, w);
    assert(first@ =~= body@.take(w as int));
    let i: usize = match pick(&layout.arms, disc_from_bytes(layout.repr, first)) {
        None => {
            return Seen::Unknown;
        },
        Some(i) => i,
    };
    let payload = slice_subrange(body, w, body.len());
    assert(payload@ =~= body@.skip(w as int));
    let part: Part = layout.arms[i].part;
    if let Part::Pod(n) = part {
        let bytes = slice_subrange(payload, 0, n as usize);
        let mut out: Vec<u8> = Vec::new();
        out.extend_from_slice(bytes);
        assert(out@ =~= payload@.take(n as int));
        return Seen::Value(i, Data::Pod(out));
    }
    if let Part::Embed(n) = part {
        return Seen::Embedded(i, n);
    }
    assert(payload@.subrange(0, 8) =~= payload@.take(8));
    let off: u64 = get_u64(payload);
    match part {
        Part::Pod(_) => Seen::Unknown,
        Part::Embed(n) => Seen::Embedded(i, n),
        Part::Owned(size) => Seen::Value(i, Data::Owned(BStackRange::new(off, size))),
        Part::Strong(size, None) => Seen::Value(
            i,
            Data::Strong(Strong { data: BStackRange::new(off, size), ctrl: None }),
        ),
        Part::Strong(size, Some(c)) => Seen::Counted(i, BStackRange::new(off, size), c),
        Part::Weak(c) => Seen::Value(
            i,
            Data::Weak(
                if off == 0 {
                    None
                } else {
                    Some(BStackRange::new(off, c))
                },
            ),
        ),
        Part::Ref(size) => Seen::Value(i, Data::Ref(BStackRange::new(off, size))),
    }
}

/// What is written for a value says that value: making a block and taking it apart undo each
/// other. Of a strong reference with a control block the bytes say the data block; where the
/// control block is, the data block says. A block in the payload is put there afterwards.
pub proof fn law_value_round_trip(layout: EnumLayout, i: int, d: DataView)
    requires
        layout.wf(),
        0 <= i < layout.arms@.len(),
        suits(layout.arms@[i].part, d),
    ensures
        seen(layout, body_of(layout, i, d)) == (match (layout.arms@[i].part, d) {
            (Part::Strong(_, Some(c)), DataView::Strong(s)) => SeenView::Counted(i, s.data, c),
            (Part::Embed(n), _) => SeenView::Embedded(i, n),
            _ => SeenView::Value(i, d),
        }),
{
    let arm = layout.arms@[i];
    let w = width(layout.repr);
    let body = body_of(layout, i, d);
    let payload = payload_of(d, layout.payload as int);
    lemma_body_len(layout, i, d);
    law_discriminant_round_trip(layout.repr, arm.disc as int);
    lemma_arm_found(layout.arms@, i);
    assert(body.take(w) =~= disc_bytes(layout.repr, arm.disc as int));
    assert(body.skip(w) =~= payload);
    lemma_moduli();
    assert(payload.take(head(d).len() as int) =~= head(d));
    match d {
        DataView::Pod(b) => {},
        DataView::Owned(r) => lemma_le_value_of_bytes(r.start as nat, 8),
        DataView::Strong(s) => lemma_le_value_of_bytes(s.data.start as nat, 8),
        DataView::Weak(Some(r)) => lemma_le_value_of_bytes(r.start as nat, 8),
        DataView::Weak(None) => lemma_le_value_of_bytes(0, 8),
        DataView::Ref(r) => lemma_le_value_of_bytes(r.start as nat, 8),
        DataView::Embed(_) => {},
    }
}

/// A variant and its value.
pub open spec fn value_view(v: (usize, Data)) -> (int, DataView) {
    (v.0 as int, v.1@)
}

/// The outcome of taking a value apart.
pub open spec fn taken_view(r: Result<(usize, Data), Error>) -> Result<(int, DataView), Error> {
    match r {
        Ok(v) => Ok(value_view(v)),
        Err(e) => Err(e),
    }
}

/// The conversation that takes the bytes behind a header apart: nothing is asked, but for the
/// control block of a strong reference that has one; and a block that lies in the payload is
/// stored in a place of its own.
pub open spec fn decode_talk(
    layout: EnumLayout,
    body: Seq<u8>,
    t: Seq<Event>,
    r: Result<(int, DataView), Error>,
) -> bool {
    match seen(layout, body) {
        SeenView::Unknown => t.len() == 0 && r == Err::<(int, DataView), Error>(
            Error::InvalidDiscriminant,
        ),
        SeenView::Value(i, d) => t.len() == 0 && r == Ok::<(int, DataView), Error>((i, d)),
        SeenView::Counted(i, data, c) => match r {
            Ok((j, d)) => {
                &&& j == i
                &&& d matches DataView::Strong(s)
                &&& s.data == data
                &&& s.ctrl matches Some(ctrl)
                &&& ctrl_talk(data, c, t, Ok(ctrl))
            },
            Err(e) => ctrl_talk(data, c, t, Err(e)),
        },
        SeenView::Embedded(i, n) => {
            let child = body.skip(width(layout.repr)).take(n as int);
            match r {
                Ok((j, d)) => {
                    &&& j == i
                    &&& d matches DataView::Embed(block)
                    &&& store_talk(child, t, Ok(block))
                },
                Err(e) => store_talk(child, t, Err(e)),
            }
        },
    }
}

/// Take the bytes behind a header apart. A number that no variant has is an error.
pub fn decode<A: BStackRaiiAllocator>(a: &mut A, layout: &EnumLayout, body: &[u8]) -> (r: Result<
    (usize, Data),
    Error,
>)
    requires
        layout.wf(),
        body@.len() == layout.body_len(),
    ensures
        final(a).spec_settings() == old(a).spec_settings(),
        extends(old(a).trace(), final(a).trace()),
        decode_talk(
            *layout,
            body@,
            since(old(a).trace(), final(a).trace()),
            taken_view(r),
        ),
{
    proof {
        lemma_since(a.trace(), Seq::empty());
        assert(a.trace() + Seq::empty() =~= a.trace());
    }
    match look(layout, body) {
        Seen::Unknown => Err(Error::InvalidDiscriminant),
        Seen::Value(i, d) => Ok((i, d)),
        Seen::Counted(i, data, c) => match read_ctrl_ref(a, data, c) {
            Ok(ctrl) => Ok((i, Data::Strong(Strong { data, ctrl: Some(ctrl) }))),
            Err(e) => Err(e),
        },
        Seen::Embedded(i, n) => {
            let w: usize = disc_width(layout.repr);
            let child = slice_subrange(body, w, w + n as usize);
            assert(child@ =~= body@.skip(w as int).take(n as int));
            let mut bytes: Vec<u8> = Vec::new();
            bytes.extend_from_slice(child);
            assert(bytes@ =~= child@);
            match store_copy(a, bytes) {
                Ok(block) => Ok((i, Data::Embed(block))),
                Err(e) => Err(e),
            }
        },
    }
}

/// Whether a variant owns a block, or a count of one.
pub open spec fn owns(part: Part) -> bool {
    part is Owned || part is Strong || part is Weak || part is Embed
}

/// Whether the block of some variant lies in the payload.
pub open spec fn embeds_any(arms: Seq<Arm>) -> bool {
    exists|i: int| 0 <= i < arms.len() && (#[trigger] arms[i]).part is Embed
}

/// Whether any variant owns something.
pub open spec fn owns_any(arms: Seq<Arm>) -> bool {
    exists|i: int| 0 <= i < arms.len() && owns((#[trigger] arms[i]).part)
}

fn has_owner(arms: &Vec<Arm>) -> (r: bool)
    ensures
        r == owns_any(arms@),
{
    let mut i: usize = 0;
    while i < arms.len()
        invariant
            i <= arms@.len(),
            forall|j: int| 0 <= j < i ==> !owns((#[trigger] arms@[j]).part),
        decreases arms@.len() - i,
    {
        let owner: bool = match arms[i].part {
            Part::Owned(_) => true,
            Part::Strong(_, _) => true,
            Part::Weak(_) => true,
            Part::Embed(_) => true,
            _ => false,
        };
        if owner {
            assert(owns(arms@[i as int].part));
            return true;
        }
        i += 1;
    }
    false
}

/// A failure, and the value that is given back.
pub open spec fn failure(e: ConstructError<(usize, Data)>) -> (Error, Option<(int, DataView)>) {
    (
        e.source,
        match e.fields {
            Some(v) => Some(value_view(v)),
            None => None,
        },
    )
}

/// The outcome of making a block.
pub open spec fn made_view(r: Result<Built, ConstructError<(usize, Data)>>) -> Result<
    Built,
    (Error, Option<(int, DataView)>),
> {
    match r {
        Ok(b) => Ok(b),
        Err(e) => Err(failure(e)),
    }
}

/// What the making of a block came to, without the value that is given back.
pub open spec fn built_of(r: Result<Built, (Error, Option<(int, DataView)>)>) -> Result<
    Built,
    Error,
> {
    match r {
        Ok(b) => Ok(b),
        Err(e) => Err(e.0),
    }
}

/// The value that a failed construction gives back: the one that was to be stored, where some
/// variant owns something.
pub open spec fn given_back(layout: EnumLayout, i: int, d: DataView) -> Option<(int, DataView)> {
    if owns_any(layout.arms@) {
        Some((i, d))
    } else {
        None
    }
}

fn give_back(layout: &EnumLayout, i: usize, d: Data, e: Error) -> (r: ConstructError<(usize, Data)>)
    ensures
        failure(r) == (e, given_back(*layout, i as int, d@)),
{
    if has_owner(&layout.arms) {
        ConstructError::recovered(e, (i, d))
    } else {
        ConstructError::lost(e)
    }
}

/// What is to be moved into the payload of a block for this value.
pub open spec fn moved_in(layout: EnumLayout, d: DataView) -> Option<Move> {
    match d {
        DataView::Embed(child) => Some(
            Move { child, size: child.len, at: payload_offset(layout) as u64 },
        ),
        _ => None,
    }
}

/// How two blocks are given back: the first in the first `k` events.
pub struct Unbuilding {
    pub k: int,
    pub ctx: TeardownView,
    pub first: Result<(), Error>,
    pub second: Result<(), Error>,
}

/// The conversation that gives a block and its control block back, whatever is replied.
pub open spec fn unbuilt_both(
    data: BStackRange,
    ctrl: BStackRange,
    before: TeardownView,
    new: TeardownView,
    s: Settings,
    t: Seq<Event>,
    u: Unbuilding,
) -> bool {
    &&& 0 <= u.k <= t.len()
    &&& dealloc_talk(before, u.ctx, s, data, t.take(u.k), u.first)
    &&& dealloc_talk(u.ctx, new, s, ctrl, t.skip(u.k), u.second)
}

/// The conversation that gives back what was built, whatever is replied.
pub open spec fn unbuilt_talk(
    built: Built,
    before: TeardownView,
    new: TeardownView,
    s: Settings,
    t: Seq<Event>,
) -> bool {
    match built.ctrl {
        None => exists|r: Result<(), Error>| #[trigger]
            dealloc_talk(before, new, s, built.data, t, r),
        Some(ctrl) => exists|u: Unbuilding| #[trigger]
            unbuilt_both(built.data, ctrl, before, new, s, t, u),
    }
}

fn unbuild<A: BStackRaiiAllocator>(ctx: &mut Teardown, a: &mut A, built: Built)
    ensures
        final(a).spec_settings() == old(a).spec_settings(),
        extends(old(a).trace(), final(a).trace()),
        kept(old(ctx)@, final(ctx)@),
        unbuilt_talk(
            built,
            old(ctx)@,
            final(ctx)@,
            old(a).spec_settings(),
            since(old(a).trace(), final(a).trace()),
        ),
{
    let ghost before = a.trace();
    let ghost was = ctx@;
    let ghost s = a.spec_settings();
    let first = dealloc_range(ctx, a, built.data);
    let ghost mid = a.trace();
    let ghost mid_ctx = ctx@;
    let ghost t1 = since(before, mid);
    if let Some(ctrl) = built.ctrl {
        let second = dealloc_range(ctx, a, ctrl);
        proof {
            lemma_extends(before, mid);
            lemma_extends(mid, a.trace());
            let t2 = since(mid, a.trace());
            assert(a.trace() =~= before + (t1 + t2));
            lemma_since(before, t1 + t2);
            assert((t1 + t2).take(t1.len() as int) =~= t1);
            assert((t1 + t2).skip(t1.len() as int) =~= t2);
            if let (Some(b), Some(m), Some(n)) = (was.sink, mid_ctx.sink, ctx@.sink) {
                assert(n.1.take(b.1.len() as int) =~= n.1.take(m.1.len() as int).take(
                    b.1.len() as int,
                ));
            }
            let u = Unbuilding { k: t1.len() as int, ctx: mid_ctx, first, second };
            assert(unbuilt_both(built.data, ctrl, was, ctx@, s, t1 + t2, u));
        }
    } else {
        assert(dealloc_talk(was, ctx@, s, built.data, t1, first));
    }
}

/// How a block that lies in the payload gets there: in the first `j` events.
pub struct Filling {
    pub j: int,
    pub moved: Result<(), Error>,
    pub ctx: TeardownView,
}

/// The conversation that follows once a block for a value is built: what is to lie in its payload
/// is moved there. Where that fails, what was built is given back.
pub open spec fn filled_talk(
    layout: EnumLayout,
    d: DataView,
    built: Built,
    before: TeardownView,
    new: TeardownView,
    s: Settings,
    t: Seq<Event>,
    r: Result<Built, Error>,
    f: Filling,
) -> bool {
    match moved_in(layout, d) {
        None => t.len() == 0 && new == before && r == Ok::<Built, Error>(built),
        Some(m) => if built.data.start + m.at > u64::MAX {
            r == Err::<Built, Error>(Error::BlockOffsetOverflow) && unbuilt_talk(
                built,
                before,
                new,
                s,
                t,
            )
        } else {
            &&& 0 <= f.j <= t.len()
            &&& move_talk(m, built.data.start, before, f.ctx, s, t.take(f.j), f.moved)
            &&& match f.moved {
                Ok(_) => f.j == t.len() && new == f.ctx && r == Ok::<Built, Error>(built),
                Err(e) => r == Err::<Built, Error>(e) && unbuilt_talk(
                    built,
                    f.ctx,
                    new,
                    s,
                    t.skip(f.j),
                ),
            }
        },
    }
}

fn fill<A: BStackRaiiAllocator>(
    ctx: &mut Teardown,
    a: &mut A,
    layout: &EnumLayout,
    built: Built,
    d: &Data,
) -> (r: Result<Built, Error>)
    ensures
        final(a).spec_settings() == old(a).spec_settings(),
        extends(old(a).trace(), final(a).trace()),
        kept(old(ctx)@, final(ctx)@),
        exists|f: Filling| #[trigger]
            filled_talk(
                *layout,
                d@,
                built,
                old(ctx)@,
                final(ctx)@,
                old(a).spec_settings(),
                since(old(a).trace(), final(a).trace()),
                r,
                f,
            ),
{
    let ghost before = a.trace();
    let ghost was = ctx@;
    let ghost s = a.spec_settings();
    proof {
        lemma_since(before, Seq::empty());
        assert(before + Seq::empty() =~= before);
        assert(was.sink matches Some(k) ==> k.1.take(k.1.len() as int) =~= k.1);
    }
    let ghost none = Filling { j: 0, moved: Ok(()), ctx: was };
    let child: BStackRange = match d {
        Data::Embed(child) => *child,
        _ => {
            let r = Ok(built);
            assert(filled_talk(*layout, d@, built, was, ctx@, s, Seq::empty(), r, none));
            return r;
        },
    };
    let m = Move { child, size: child.len, at: payload_at(layout) };
    if built.data.start > u64::MAX - m.at {
        unbuild(ctx, a, built);
        let r = Err(Error::BlockOffsetOverflow);
        assert(filled_talk(
            *layout,
            d@,
            built,
            was,
            ctx@,
            s,
            since(before, a.trace()),
            r,
            none,
        ));
        return r;
    }
    let moved = embed_one(ctx, a, built.data.start, m);
    let ghost mid = a.trace();
    let ghost mid_ctx = ctx@;
    let ghost t1 = since(before, mid);
    let ghost f = Filling { j: t1.len() as int, moved, ctx: mid_ctx };
    proof {
        lemma_extends(before, mid);
        assert(t1.take(t1.len() as int) =~= t1);
    }
    match moved {
        Ok(u) => {
            let r = Ok(built);
            assert(filled_talk(*layout, d@, built, was, ctx@, s, t1, r, f));
            r
        },
        Err(e) => {
            unbuild(ctx, a, built);
            let r = Err(e);
            proof {
                lemma_extends(mid, a.trace());
                let t2 = since(mid, a.trace());
                assert(a.trace() =~= before + (t1 + t2));
                lemma_since(before, t1 + t2);
                assert((t1 + t2).take(f.j) =~= t1);
                assert((t1 + t2).skip(f.j) =~= t2);
                if let (Some(b), Some(m), Some(n)) = (was.sink, mid_ctx.sink, ctx@.sink) {
                    assert(n.1.take(b.1.len() as int) =~= n.1.take(m.1.len() as int).take(
                        b.1.len() as int,
                    ));
                }
                assert(filled_talk(*layout, d@, built, was, ctx@, s, t1 + t2, r, f));
            }
            r
        },
    }
}

/// How a block without a control block is made: it is built in the first `k` events.
pub struct Making {
    pub k: int,
    pub built: Result<Built, Error>,
    pub fill: Filling,
}

/// The conversation that makes a block without a control block, and what is given back where
/// that fails.
pub open spec fn create_talk(
    layout: EnumLayout,
    before: TeardownView,
    new: TeardownView,
    s: Settings,
    i: int,
    d: DataView,
    t: Seq<Event>,
    r: Result<Built, (Error, Option<(int, DataView)>)>,
    m: Making,
) -> bool {
    &&& 0 <= m.k <= t.len()
    &&& build_talk(layout.mode, layout.tag@, body_of(layout, i, d), t.take(m.k), m.built)
    &&& match m.built {
        Err(e) => m.k == t.len() && new == before && built_of(r) == m.built,
        Ok(built) => filled_talk(
            layout,
            d,
            built,
            before,
            new,
            s,
            t.skip(m.k),
            built_of(r),
            m.fill,
        ),
    }
    &&& r matches Err(e) ==> e.1 == given_back(layout, i, d)
}

/// Make a plain or counted block that holds this value of variant number `i`. Where that fails
/// and some variant owns something, the value is given back.
pub fn create<A: BStackRaiiAllocator>(
    ctx: &mut Teardown,
    a: &mut A,
    layout: &EnumLayout,
    i: usize,
    d: Data,
) -> (r: Result<Built, ConstructError<(usize, Data)>>)
    requires
        layout.wf(),
        layout.mode != Mode::RcWeak,
        i < layout.arms@.len(),
        suits(layout.arms@[i as int].part, d@),
    ensures
        final(a).spec_settings() == old(a).spec_settings(),
        extends(old(a).trace(), final(a).trace()),
        exists|m: Making| #[trigger]
            create_talk(
                *layout,
                old(ctx)@,
                final(ctx)@,
                old(a).spec_settings(),
                i as int,
                d@,
                since(old(a).trace(), final(a).trace()),
                made_view(r),
                m,
            ),
{
    let ghost before = a.trace();
    let ghost s = a.spec_settings();
    let ghost was = ctx@;
    let ghost view = d@;
    let body = encode(layout, i, &d);
    let first = build_block(a, layout.mode, &layout.tag, &body);
    let ghost mid = a.trace();
    let ghost t1 = since(before, mid);
    let ghost k = t1.len() as int;
    proof {
        lemma_extends(before, mid);
        assert(t1.take(k) =~= t1);
    }
    let built = match first {
        Err(e) => {
            let r = Err(give_back(layout, i, d, e));
            proof {
                let m = Making {
                    k,
                    built: first,
                    fill: Filling { j: 0, moved: Ok(()), ctx: was },
                };
                assert(create_talk(*layout, was, ctx@, s, i as int, view, t1, made_view(r), m));
            }
            return r;
        },
        Ok(b) => b,
    };
    let filled = fill(ctx, a, layout, built, &d);
    let r = match filled {
        Ok(b) => Ok(b),
        Err(e) => Err(give_back(layout, i, d, e)),
    };
    proof {
        lemma_extends(mid, a.trace());
        let t2 = since(mid, a.trace());
        assert(a.trace() =~= before + (t1 + t2));
        lemma_since(before, t1 + t2);
        assert((t1 + t2).take(k) =~= t1);
        assert((t1 + t2).skip(k) =~= t2);
        let f = choose|f: Filling| #[trigger]
            filled_talk(*layout, view, built, was, ctx@, s, t2, filled, f);
        let m = Making { k, built: first, fill: f };
        assert(create_talk(*layout, was, ctx@, s, i as int, view, t1 + t2, made_view(r), m));
    }
    r
}

/// How a block with a control block is made: it is built in the first `k` events, and `j` of
/// these take the blocks.
pub struct PairMaking {
    pub j: int,
    pub blocks: Result<Seq<BStackRange>, Error>,
    pub k: int,
    pub built: Result<Built, Error>,
    pub ctx: TeardownView,
    pub fill: Filling,
}

/// The conversation that makes a block with a control block, and what is given back where that
/// fails.
pub open spec fn create_pair_talk(
    layout: EnumLayout,
    ctrl_tag: Seq<u8>,
    ctrl_size: u64,
    before: TeardownView,
    new: TeardownView,
    s: Settings,
    i: int,
    d: DataView,
    t: Seq<Event>,
    r: Result<Built, (Error, Option<(int, DataView)>)>,
    m: PairMaking,
) -> bool {
    &&& 0 <= m.k <= t.len()
    &&& build_pair_talk(
        layout.tag@,
        ctrl_tag,
        ctrl_size,
        body_of(layout, i, d),
        before,
        m.ctx,
        s,
        m.j,
        m.blocks,
        t.take(m.k),
        m.built,
    )
    &&& match m.built {
        Err(e) => m.k == t.len() && new == m.ctx && built_of(r) == m.built,
        Ok(built) => filled_talk(
            layout,
            d,
            built,
            m.ctx,
            new,
            s,
            t.skip(m.k),
            built_of(r),
            m.fill,
        ),
    }
    &&& r matches Err(e) ==> e.1 == given_back(layout, i, d)
}

/// Make a counted block with weak references that holds this value of variant number `i`. Where
/// that fails and some variant owns something, the value is given back.
pub fn create_pair<A: BStackRaiiAllocator>(
    ctx: &mut Teardown,
    a: &mut A,
    layout: &EnumLayout,
    ctrl_tag: EightCC,
    ctrl_size: u64,
    i: usize,
    d: Data,
) -> (r: Result<Built, ConstructError<(usize, Data)>>)
    requires
        layout.wf(),
        layout.mode == Mode::RcWeak,
        40 <= ctrl_size <= usize::MAX,
        i < layout.arms@.len(),
        suits(layout.arms@[i as int].part, d@),
    ensures
        final(a).spec_settings() == old(a).spec_settings(),
        extends(old(a).trace(), final(a).trace()),
        exists|m: PairMaking| #[trigger]
            create_pair_talk(
                *layout,
                ctrl_tag@,
                ctrl_size,
                old(ctx)@,
                final(ctx)@,
                old(a).spec_settings(),
                i as int,
                d@,
                since(old(a).trace(), final(a).trace()),
                made_view(r),
                m,
            ),
{
    let ghost before = a.trace();
    let ghost s = a.spec_settings();
    let ghost was = ctx@;
    let ghost view = d@;
    let body = encode(layout, i, &d);
    let first = build_pair(ctx, a, &layout.tag, ctrl_tag, ctrl_size, &body);
    let ghost mid = a.trace();
    let ghost mid_ctx = ctx@;
    let ghost t1 = since(before, mid);
    let ghost k = t1.len() as int;
    let ghost (j, blocks) = choose|j: int, blocks: Result<Seq<BStackRange>, Error>| #[trigger]
        build_pair_talk(
            layout.tag@,
            ctrl_tag@,
            ctrl_size,
            body@,
            was,
            mid_ctx,
            s,
            j,
            blocks,
            t1,
            first,
        );
    proof {
        lemma_extends(before, mid);
        assert(t1.take(k) =~= t1);
    }
    let built = match first {
        Err(e) => {
            let r = Err(give_back(layout, i, d, e));
            proof {
                let m = PairMaking {
                    j,
                    blocks,
                    k,
                    built: first,
                    ctx: mid_ctx,
                    fill: Filling { j: 0, moved: Ok(()), ctx: was },
                };
                assert(create_pair_talk(
                    *layout,
                    ctrl_tag@,
                    ctrl_size,
                    was,
                    ctx@,
                    s,
                    i as int,
                    view,
                    t1,
                    made_view(r),
                    m,
                ));
            }
            return r;
        },
        Ok(b) => b,
    };
    let filled = fill(ctx, a, layout, built, &d);
    let r = match filled {
        Ok(b) => Ok(b),
        Err(e) => Err(give_back(layout, i, d, e)),
    };
    proof {
        lemma_extends(mid, a.trace());
        let t2 = since(mid, a.trace());
        assert(a.trace() =~= before + (t1 + t2));
        lemma_since(before, t1 + t2);
        assert((t1 + t2).take(k) =~= t1);
        assert((t1 + t2).skip(k) =~= t2);
        let f = choose|f: Filling| #[trigger]
            filled_talk(*layout, view, built, mid_ctx, ctx@, s, t2, filled, f);
        let m = PairMaking {
            j,
            blocks,
            k,
            built: first,
            ctx: mid_ctx,
            fill: f,
        };
        assert(create_pair_talk(
            *layout,
            ctrl_tag@,
            ctrl_size,
            was,
            ctx@,
            s,
            i as int,
            view,
            t1 + t2,
            made_view(r),
            m,
        ));
    }
    r
}

/// Whether the look at the control block of a strong reference, where it has one, is answered
/// by that control block.
pub open spec fn control_found(part: Part, d: DataView, t: Seq<Event>) -> bool {
    match (part, d) {
        (Part::Strong(_, Some(c)), DataView::Strong(s)) => {
            &&& t.len() == 1
            &&& t[0] matches Event::Read { off: _, len: _, reply: Ok(b) }
            &&& s.ctrl == Some(BStackRange { start: le_value(b) as u64, len: c })
        },
        _ => true,
    }
}

/// A construction that fails gives the value back that was to be stored, wherever the enum owns
/// anything.
pub proof fn law_failed_enum_construction_gives_the_value_back(
    layout: EnumLayout,
    before: TeardownView,
    new: TeardownView,
    s: Settings,
    i: int,
    d: DataView,
    t: Seq<Event>,
    e: (Error, Option<(int, DataView)>),
    m: Making,
)
    requires
        create_talk(layout, before, new, s, i, d, t, Err(e), m),
        owns_any(layout.arms@),
    ensures
        e.1 == Some((i, d)),
{
}

/// A construction with a control block that fails gives the value back that was to be stored, in
/// the same way.
pub proof fn law_failed_pair_construction_gives_the_value_back(
    layout: EnumLayout,
    ctrl_tag: Seq<u8>,
    ctrl_size: u64,
    before: TeardownView,
    new: TeardownView,
    s: Settings,
    i: int,
    d: DataView,
    t: Seq<Event>,
    e: (Error, Option<(int, DataView)>),
    m: PairMaking,
)
    requires
        create_pair_talk(
            layout,
            ctrl_tag,
            ctrl_size,
            before,
            new,
            s,
            i,
            d,
            t,
            Err(e),
            m,
        ),
        owns_any(layout.arms@),
    ensures
        e.1 == Some((i, d)),
{
}

/// Where the number of the variant lies in a block.
pub open spec fn body_at(mode: Mode) -> int {
    if mode == Mode::Plain {
        16
    } else {
        24
    }
}

/// Where the payload lies in a block.
pub open spec fn payload_offset(layout: EnumLayout) -> int {
    body_at(layout.mode) + width(layout.repr)
}

/// Where the payload lies in a block.
pub fn payload_at(layout: &EnumLayout) -> (r: u64)
    ensures
        r == payload_offset(*layout),
        r <= 32,
{
    (body_offset(layout.mode) + disc_width(layout.repr)) as u64
}

/// Whether `range` is as long as a block of this enum.
pub open spec fn is_block(layout: EnumLayout, range: BStackRange) -> bool {
    range.len == whole_size(layout.mode, layout.body_len() as nat)
}

/// The conversation that reads a block and looks at its variant.
pub open spec fn read_talk(
    layout: EnumLayout,
    block: BStackRange,
    t: Seq<Event>,
    r: Result<SeenView, Error>,
) -> bool {
    &&& t.len() == 1
    &&& t[0] matches Event::Read { off, len, reply }
    &&& off == block.start && len == block.len
    &&& match reply {
        Err(e) => r == Err::<SeenView, Error>(e),
        Ok(b) => match seen(layout, b.skip(body_at(layout.mode))) {
            SeenView::Unknown => r == Err::<SeenView, Error>(Error::InvalidDiscriminant),
            v => r == Ok::<SeenView, Error>(v),
        },
    }
}

/// The outcome of reading.
pub open spec fn read_view(r: Result<Seen, Error>) -> Result<SeenView, Error> {
    match r {
        Ok(v) => Ok(v@),
        Err(e) => Err(e),
    }
}

fn body_offset(mode: Mode) -> (r: usize)
    ensures
        r == body_at(mode),
{
    match mode {
        Mode::Plain => 16,
        _ => 24,
    }
}

/// Read a block and look at its variant. A number that no variant has is an error.
pub fn read<A: BStackRaiiAllocator>(a: &mut A, layout: &EnumLayout, block: BStackRange) -> (r:
    Result<Seen, Error>)
    requires
        layout.wf(),
        is_block(*layout, block),
    ensures
        final(a).spec_settings() == old(a).spec_settings(),
        extends(old(a).trace(), final(a).trace()),
        read_talk(*layout, block, since(old(a).trace(), final(a).trace()), read_view(r)),
{
    let ghost before = a.trace();
    let got = a.get(block.start, block.len);
    proof {
        let t = seq![
            Event::Read { off: block.start, len: block.len, reply: bytes_view(got) },
        ];
        assert(a.trace() =~= before + t);
        lemma_since(before, t);
    }
    let buf = match got {
        Err(e) => {
            return Err(e);
        },
        Ok(b) => b,
    };
    let at: usize = body_offset(layout.mode);
    let body = slice_subrange(buf.as_slice(), at, buf.len());
    assert(body@ =~= buf@.skip(at as int));
    match look(layout, body) {
        Seen::Unknown => Err(Error::InvalidDiscriminant),
        v => Ok(v),
    }
}

/// Overwrite the whole value in one write. This is for an enum whose variants own nothing: what
/// was there before is not handed out.
pub fn set_value<A: BStackRaiiAllocator>(
    a: &mut A,
    layout: &EnumLayout,
    block: BStackRange,
    i: usize,
    d: &Data,
) -> (r: Result<(), Error>)
    requires
        layout.wf(),
        layout.mode == Mode::Plain,
        !owns_any(layout.arms@),
        i < layout.arms@.len(),
        suits(layout.arms@[i as int].part, d@),
    ensures
        final(a).spec_settings() == old(a).spec_settings(),
        final(a).trace() == old(a).trace().push(
            Event::Write {
                off: block.start,
                bytes: fresh_image(
                    Mode::Plain,
                    layout.tag@,
                    0,
                    body_of(*layout, i as int, d@),
                ),
                reply: r,
            },
        ),
{
    let body = encode(layout, i, d);
    let image = fresh_bytes(Mode::Plain, &layout.tag, 0, &body);
    a.set(block.start, image)
}

/// The block of a strong reference that could not be handed out.
pub open spec fn stranded(v: SeenView) -> Seq<BStackRange> {
    match v {
        SeenView::Counted(_, data, _) => seq![data],
        _ => Seq::empty(),
    }
}

/// A failed replacement: the new value where it could be given back, and where the new value is
/// in place, the blocks of the old one that could not be handed out.
pub struct SwapError {
    pub error: ReplaceError<(usize, Data)>,
    pub raw: Vec<BStackRange>,
}

/// [`SwapError`], as a value.
pub struct SwapErrorView {
    pub source: Error,
    pub value: Option<(int, DataView)>,
    pub raw: Seq<BStackRange>,
}

impl View for SwapError {
    type V = SwapErrorView;

    open spec fn view(&self) -> SwapErrorView {
        SwapErrorView {
            source: self.error.source,
            value: match self.error.value {
                Some(v) => Some(value_view(v)),
                None => None,
            },
            raw: self.raw@,
        }
    }
}

/// The outcome of a replacement.
pub open spec fn swapped_view(r: Result<(usize, Data), SwapError>) -> Result<
    (int, DataView),
    SwapErrorView,
> {
    match r {
        Ok(v) => Ok(value_view(v)),
        Err(e) => Err(e@),
    }
}

/// The conversation that replaces a whole value: one exchange, and then what came out is taken
/// apart. Where the exchange failed, nothing more is asked and the new value is given back.
pub open spec fn replace_value_talk(
    layout: EnumLayout,
    block: BStackRange,
    i: int,
    d: DataView,
    t: Seq<Event>,
    r: Result<(int, DataView), SwapErrorView>,
) -> bool {
    let body = body_of(layout, i, d);
    &&& t.len() >= 1
    &&& t[0] matches Event::Swap { off, bytes, reply }
    &&& off == block.start
    &&& bytes == fresh_image(Mode::Plain, layout.tag@, 0, body)
    &&& match reply {
        Err(e) => t.len() == 1 && r == Err::<(int, DataView), SwapErrorView>(
            SwapErrorView { source: e, value: Some((i, d)), raw: Seq::empty() },
        ),
        Ok(old) => match r {
            Ok(v) => decode_talk(layout, old.skip(16), t.skip(1), Ok(v)),
            Err(x) => x.value is None && x.raw == stranded(seen(layout, old.skip(16)))
                && decode_talk(layout, old.skip(16), t.skip(1), Err(x.source)),
        },
    }
}

/// Replace the whole value, and hand the old one out. Where the exchange fails the new value is
/// given back. This is for an enum with no block in its payload.
pub fn replace_value<A: BStackRaiiAllocator>(
    a: &mut A,
    layout: &EnumLayout,
    block: BStackRange,
    i: usize,
    d: Data,
) -> (r: Result<(usize, Data), SwapError>)
    requires
        layout.wf(),
        layout.mode == Mode::Plain,
        !embeds_any(layout.arms@),
        i < layout.arms@.len(),
        suits(layout.arms@[i as int].part, d@),
    ensures
        final(a).spec_settings() == old(a).spec_settings(),
        extends(old(a).trace(), final(a).trace()),
        replace_value_talk(
            *layout,
            block,
            i as int,
            d@,
            since(old(a).trace(), final(a).trace()),
            swapped_view(r),
        ),
{
    let ghost before = a.trace();
    let body = encode(layout, i, &d);
    let image = fresh_bytes(Mode::Plain, &layout.tag, 0, &body);
    let ghost bytes = image@;
    let got = a.swap(block.start, image);
    let ghost t1 = seq![Event::Swap { off: block.start, bytes, reply: bytes_view(got) }];
    let ghost mid = a.trace();
    proof {
        assert(mid =~= before + t1);
        lemma_since(before, t1);
    }
    match got {
        Err(e) => {
            let r = Err(SwapError { error: ReplaceError::recovered(e, (i, d)), raw: Vec::new() });
            assert(swapped_view(r)->Err_0.raw =~= Seq::empty());
            r
        },
        Ok(buf) => {
            let old_body = slice_subrange(buf.as_slice(), 16, buf.len());
            assert(old_body@ =~= buf@.skip(16));
            let out = decode(a, layout, old_body);
            proof {
                lemma_extends(mid, a.trace());
                let t2 = since(mid, a.trace());
                assert(a.trace() =~= before + (t1 + t2));
                lemma_since(before, t1 + t2);
                assert((t1 + t2).skip(1) =~= t2);
            }
            match out {
                Ok(v) => Ok(v),
                Err(e) => {
                    let mut raw: Vec<BStackRange> = Vec::new();
                    if let Seen::Counted(_, data, _) = look(layout, old_body) {
                        raw.push(data);
                    }
                    assert(raw@ =~= stranded(seen(*layout, old_body@)));
                    Err(SwapError { error: ReplaceError::lost(e), raw })
                },
            }
        },
    }
}

/// A replacement that fails gives the new value back, unless the new value is in place: then
/// the old one cannot be handed out, and its block is named.
pub proof fn law_replace_value_never_loses_the_new_value(
    layout: EnumLayout,
    block: BStackRange,
    i: int,
    d: DataView,
    t: Seq<Event>,
    e: SwapErrorView,
)
    requires
        replace_value_talk(layout, block, i, d, t, Err(e)),
    ensures
        t[0] matches Event::Swap { off: _, bytes: _, reply } && match reply {
            Err(_) => e.value == Some((i, d)) && t.len() == 1,
            Ok(old) => e.value is None && e.raw == stranded(seen(layout, old.skip(16))),
        },
{
}

/// What a replacement puts in place, the next one hands out again. Of a strong reference with
/// a control block this is so where the file says which that is.
pub proof fn law_replace_value_hands_out_what_was_put_in(
    layout: EnumLayout,
    block: BStackRange,
    i: int,
    d: DataView,
    j: int,
    e: DataView,
    t: Seq<Event>,
    out: (int, DataView),
)
    requires
        layout.wf(),
        layout.tag@.len() == 8,
        !embeds_any(layout.arms@),
        0 <= i < layout.arms@.len(),
        suits(layout.arms@[i].part, d),
        control_found(layout.arms@[i].part, d, t.skip(1)),
        replace_value_talk(layout, block, j, e, t, Ok(out)),
        t[0]->Swap_reply == Ok::<Seq<u8>, Error>(
            fresh_image(Mode::Plain, layout.tag@, 0, body_of(layout, i, d)),
        ),
    ensures
        out == (i, d),
{
    law_value_round_trip(layout, i, d);
    let body = body_of(layout, i, d);
    let image = fresh_image(Mode::Plain, layout.tag@, 0, body);
    lemma_le_bytes_len(whole_size(Mode::Plain, body.len()) as u64 as nat, 8);
    assert(image.skip(16) =~= body);
}

/// What releasing a block of an enum asks for.
#[derive(Clone, Copy, Debug, PartialEq, Eq, Structural)]
pub enum DropStep {
    /// Nothing.
    Nothing,
    /// Release the block at this place, and all that it owns.
    Owned(BStackRange),
    /// Release one strong reference to the block at this place.
    Strong(BStackRange),
    /// Release one weak reference in the control block at this place.
    Weak(BStackRange),
    /// Release all that the block owns which lies at this offset in the block of the enum, and
    /// is this long.
    Embedded(u64, u64),
}

/// What releasing a variant asks for.
pub open spec fn drop_of(layout: EnumLayout, v: SeenView) -> DropStep {
    match v {
        SeenView::Unknown => DropStep::Nothing,
        SeenView::Value(_, DataView::Owned(r)) => DropStep::Owned(r),
        SeenView::Value(_, DataView::Strong(s)) => DropStep::Strong(s.data),
        SeenView::Value(_, DataView::Weak(Some(r))) => DropStep::Weak(r),
        SeenView::Value(_, _) => DropStep::Nothing,
        SeenView::Counted(_, data, _) => DropStep::Strong(data),
        SeenView::Embedded(_, n) => DropStep::Embedded(payload_offset(layout) as u64, n),
    }
}

/// The number of the variant.
pub open spec fn number_of(v: SeenView) -> Option<int> {
    match v {
        SeenView::Unknown => None,
        SeenView::Value(i, _) => Some(i),
        SeenView::Counted(i, _, _) => Some(i),
        SeenView::Embedded(i, _) => Some(i),
    }
}

/// What releasing a block of an enum asks for, and of which variant it is: that says the type of
/// what is to be released. Where nothing is owned the variant is not looked at.
#[derive(Clone, Copy, Debug, PartialEq, Eq, Structural)]
pub struct DropPlan {
    pub variant: Option<usize>,
    pub step: DropStep,
}

/// Whether this is the plan for the variant that `v` shows.
pub open spec fn drop_planned(layout: EnumLayout, v: SeenView, p: DropPlan) -> bool {
    &&& p.step == drop_of(layout, v)
    &&& match number_of(v) {
        Some(i) => p.variant matches Some(j) && i == j,
        None => p.variant is None,
    }
}

fn drop_seen(layout: &EnumLayout, v: &Seen) -> (r: DropPlan)
    ensures
        drop_planned(*layout, v@, r),
{
    match v {
        Seen::Unknown => DropPlan { variant: None, step: DropStep::Nothing },
        Seen::Value(i, d) => {
            let step = match d {
                Data::Owned(r) => DropStep::Owned(*r),
                Data::Strong(s) => DropStep::Strong(s.data),
                Data::Weak(Some(r)) => DropStep::Weak(*r),
                _ => DropStep::Nothing,
            };
            DropPlan { variant: Some(*i), step }
        },
        Seen::Counted(i, data, _) => DropPlan { variant: Some(*i), step: DropStep::Strong(*data) },
        Seen::Embedded(i, n) => DropPlan {
            variant: Some(*i),
            step: DropStep::Embedded(payload_at(layout), *n),
        },
    }
}

/// The conversation that finds out what releasing the block at `block` asks for.
pub open spec fn drop_plan_talk(
    layout: EnumLayout,
    block: BStackRange,
    t: Seq<Event>,
    r: Result<DropPlan, Error>,
) -> bool {
    if owns_any(layout.arms@) {
        match r {
            Ok(p) => exists|v: SeenView| #[trigger]
                drop_planned(layout, v, p) && read_talk(layout, block, t, Ok(v)),
            Err(e) => read_talk(layout, block, t, Err(e)),
        }
    } else {
        t.len() == 0 && r == Ok::<DropPlan, Error>(
            DropPlan { variant: None, step: DropStep::Nothing },
        )
    }
}

/// What releasing the block at `block` asks for, and of which variant. An enum whose variants
/// own nothing is not even read; in any other, a number that no variant has is an error: to go
/// on would hide a leak.
pub fn drop_plan<A: BStackRaiiAllocator>(a: &mut A, layout: &EnumLayout, block: BStackRange) -> (r:
    Result<DropPlan, Error>)
    requires
        layout.wf(),
        is_block(*layout, block),
    ensures
        final(a).spec_settings() == old(a).spec_settings(),
        extends(old(a).trace(), final(a).trace()),
        drop_plan_talk(*layout, block, since(old(a).trace(), final(a).trace()), r),
{
    if !has_owner(&layout.arms) {
        proof {
            lemma_since(a.trace(), Seq::empty());
            assert(a.trace() + Seq::empty() =~= a.trace());
        }
        return Ok(DropPlan { variant: None, step: DropStep::Nothing });
    }
    match read(a, layout, block) {
        Err(e) => Err(e),
        Ok(v) => {
            let p = drop_seen(layout, &v);
            assert(drop_planned(*layout, v@, p));
            Ok(p)
        },
    }
}

/// What releasing the block at `block` asks for.
pub fn drop_step<A: BStackRaiiAllocator>(a: &mut A, layout: &EnumLayout, block: BStackRange) -> (r:
    Result<DropStep, Error>)
    requires
        layout.wf(),
        is_block(*layout, block),
    ensures
        final(a).spec_settings() == old(a).spec_settings(),
        extends(old(a).trace(), final(a).trace()),
        match r {
            Ok(step) => exists|p: DropPlan| #[trigger]
                drop_plan_talk(
                    *layout,
                    block,
                    since(old(a).trace(), final(a).trace()),
                    Ok(p),
                ) && p.step == step,
            Err(e) => drop_plan_talk(
                *layout,
                block,
                since(old(a).trace(), final(a).trace()),
                Err(e),
            ),
        },
{
    match drop_plan(a, layout, block) {
        Ok(p) => Ok(p.step),
        Err(e) => Err(e),
    }
}

/// What copying a variant asks for.
pub open spec fn clone_of(layout: EnumLayout, v: SeenView) -> HomeClone {
    match drop_of(layout, v) {
        DropStep::Nothing => HomeClone::Nothing,
        DropStep::Owned(r) => if r.start == 0 {
            HomeClone::Nothing
        } else {
            HomeClone::Deep(r)
        },
        DropStep::Strong(r) => if r.start == 0 {
            HomeClone::Nothing
        } else {
            HomeClone::Strong(r)
        },
        DropStep::Weak(r) => HomeClone::Weak(r.start),
        DropStep::Embedded(at, n) => HomeClone::Inline(at, n),
    }
}

/// What copying the variant that `v` shows asks for.
pub fn clone_step(layout: &EnumLayout, v: &Seen) -> (r: HomeClone)
    ensures
        r == clone_of(*layout, v@),
{
    match v {
        Seen::Unknown => HomeClone::Nothing,
        Seen::Value(_, Data::Owned(r)) => if r.start == 0 {
            HomeClone::Nothing
        } else {
            HomeClone::Deep(*r)
        },
        Seen::Value(_, Data::Strong(s)) => if s.data.start == 0 {
            HomeClone::Nothing
        } else {
            HomeClone::Strong(s.data)
        },
        Seen::Value(_, Data::Weak(Some(r))) => HomeClone::Weak(r.start),
        Seen::Value(_, _) => HomeClone::Nothing,
        Seen::Counted(_, data, _) => if data.start == 0 {
            HomeClone::Nothing
        } else {
            HomeClone::Strong(*data)
        },
        Seen::Embedded(_, n) => HomeClone::Inline(payload_at(layout), *n),
    }
}

/// Whether blocks of this enum can be copied: counted ones are shared instead.
pub fn check_clone(layout: &EnumLayout) -> (r: Result<(), Error>)
    ensures
        if layout.mode == Mode::Plain {
            r is Ok
        } else {
            r matches Err(e) && e == Error::CloneCountedEnum
        },
{
    match layout.mode {
        Mode::Plain => Ok(()),
        _ => Err(Error::CloneCountedEnum),
    }
}

/// What is copied of a block of an enum: all its bytes, and what is to be done about the block
/// that they refer to, which the variant says the type of.
pub struct ClonePlan {
    pub bytes: Vec<u8>,
    pub variant: Option<usize>,
    pub step: HomeClone,
}

/// [`ClonePlan`], as a value.
pub struct ClonePlanView {
    pub bytes: Seq<u8>,
    pub variant: Option<int>,
    pub step: HomeClone,
}

impl View for ClonePlan {
    type V = ClonePlanView;

    open spec fn view(&self) -> ClonePlanView {
        ClonePlanView {
            bytes: self.bytes@,
            variant: match self.variant {
                Some(i) => Some(i as int),
                None => None,
            },
            step: self.step,
        }
    }
}

/// What is copied of a block with these bytes. Where some variant owns something, a number that
/// no variant has is refused: what its bytes may refer to would have two owners.
pub open spec fn clone_planned(layout: EnumLayout, bytes: Seq<u8>) -> Result<ClonePlanView, Error> {
    if !owns_any(layout.arms@) {
        Ok(ClonePlanView { bytes, variant: None, step: HomeClone::Nothing })
    } else {
        let v = seen(layout, bytes.skip(16));
        match number_of(v) {
            None => Err(Error::InvalidDiscriminant),
            Some(i) => Ok(ClonePlanView { bytes, variant: Some(i), step: clone_of(layout, v) }),
        }
    }
}

/// The conversation that finds out what is copied of the block at `block`.
pub open spec fn clone_plan_talk(
    layout: EnumLayout,
    block: BStackRange,
    t: Seq<Event>,
    r: Result<ClonePlanView, Error>,
) -> bool {
    if layout.mode != Mode::Plain {
        t.len() == 0 && r == Err::<ClonePlanView, Error>(Error::CloneCountedEnum)
    } else {
        &&& t.len() == 1
        &&& t[0] matches Event::Read { off, len, reply }
        &&& off == block.start && len == block.len
        &&& match reply {
            Err(e) => r == Err::<ClonePlanView, Error>(e),
            Ok(b) => r == clone_planned(layout, b),
        }
    }
}

/// The outcome of planning a copy.
pub open spec fn clone_plan_view(r: Result<ClonePlan, Error>) -> Result<ClonePlanView, Error> {
    match r {
        Ok(p) => Ok(p@),
        Err(e) => Err(e),
    }
}

/// What is copied of the block at `block`. Counted blocks are shared instead; and in an enum
/// that owns anything, a number that no variant has is an error.
pub fn clone_plan<A: BStackRaiiAllocator>(a: &mut A, layout: &EnumLayout, block: BStackRange) -> (r:
    Result<ClonePlan, Error>)
    requires
        layout.wf(),
        is_block(*layout, block),
    ensures
        final(a).spec_settings() == old(a).spec_settings(),
        extends(old(a).trace(), final(a).trace()),
        clone_plan_talk(
            *layout,
            block,
            since(old(a).trace(), final(a).trace()),
            clone_plan_view(r),
        ),
{
    let ghost before = a.trace();
    proof {
        lemma_since(before, Seq::empty());
        assert(before + Seq::empty() =~= before);
    }
    if let Err(e) = check_clone(layout) {
        return Err(e);
    }
    let got = a.get(block.start, block.len);
    proof {
        let t = seq![
            Event::Read { off: block.start, len: block.len, reply: bytes_view(got) },
        ];
        assert(a.trace() =~= before + t);
        lemma_since(before, t);
    }
    let bytes = match got {
        Err(e) => {
            return Err(e);
        },
        Ok(b) => b,
    };
    if !has_owner(&layout.arms) {
        return Ok(ClonePlan { bytes, variant: None, step: HomeClone::Nothing });
    }
    let body = slice_subrange(bytes.as_slice(), 16, bytes.len());
    assert(body@ =~= bytes@.skip(16));
    let v = look(layout, body);
    let variant: Option<usize> = match &v {
        Seen::Unknown => {
            return Err(Error::InvalidDiscriminant);
        },
        Seen::Value(i, _) => Some(*i),
        Seen::Counted(i, _, _) => Some(*i),
        Seen::Embedded(i, _) => Some(*i),
    };
    let step = clone_step(layout, &v);
    Ok(ClonePlan { bytes, variant, step })
}

/// No copy of a block shares what the block owns without a count: where some variant owns
/// something, the plan names a known variant, and asks for a copy of what that owns, or for one
/// more count.
pub proof fn law_a_copied_enum_has_one_owner(layout: EnumLayout, bytes: Seq<u8>)
    requires
        owns_any(layout.arms@),
        clone_planned(layout, bytes) is Ok,
    ensures
        seen(layout, bytes.skip(16)) !is Unknown,
        match drop_of(layout, seen(layout, bytes.skip(16))) {
            DropStep::Owned(r) if r.start != 0 => clone_planned(layout, bytes)->Ok_0.step
                == HomeClone::Deep(r),
            DropStep::Strong(r) if r.start != 0 => clone_planned(layout, bytes)->Ok_0.step
                == HomeClone::Strong(r),
            DropStep::Weak(r) => clone_planned(layout, bytes)->Ok_0.step == HomeClone::Weak(
                r.start,
            ),
            DropStep::Embedded(at, n) => clone_planned(layout, bytes)->Ok_0.step
                == HomeClone::Inline(at, n),
            _ => clone_planned(layout, bytes)->Ok_0.step == HomeClone::Nothing,
        },
{
}

} // verus!
