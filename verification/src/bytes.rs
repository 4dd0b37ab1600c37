//! Little-endian integers: the one number format of every on-disk structure.
use vstd::prelude::*;
use vstd::slice::slice_subrange;

verus! {

/// The number that `s` spells, least significant byte first.
pub open spec fn le_value(s: Seq<u8>) -> nat
    decreases s.len(),
{
    if s.len() == 0 {
        0
    } else {
        s[0] as nat + 256 * le_value(s.drop_first())
    }
}

/// The low `n` bytes of `v`, least significant byte first.
pub open spec fn le_bytes(v: nat, n: nat) -> Seq<u8>
    decreases n,
{
    if n == 0 {
        Seq::empty()
    } else {
        seq![(v % 256) as u8] + le_bytes(v / 256, (n - 1) as nat)
    }
}

/// `256` to the power `n`: how many numbers `n` bytes can spell.
pub open spec fn pow256(n: nat) -> nat
    decreases n,
{
    if n == 0 {
        1
    } else {
        256 * pow256((n - 1) as nat)
    }
}

pub proof fn lemma_pow256_4_8()
    ensures
        pow256(4) == 0x1_0000_0000,
        pow256(8) == 0x1_0000_0000_0000_0000,
{
    reveal_with_fuel(pow256, 9);
}

pub proof fn lemma_le_bytes_len(v: nat, n: nat)
    ensures
        le_bytes(v, n).len() == n,
    decreases n,
{
    if n > 0 {
        lemma_le_bytes_len(v / 256, (n - 1) as nat);
    }
}

/// Reading back what was written gives the number that was written.
pub proof fn lemma_le_value_of_bytes(v: nat, n: nat)
    requires
        v < pow256(n),
    ensures
        le_value(le_bytes(v, n)) == v,
    decreases n,
{
    lemma_le_bytes_len(v, n);
    if n > 0 {
        let rest = le_bytes(v / 256, (n - 1) as nat);
        assert(le_bytes(v, n).drop_first() =~= rest);
        assert(v / 256 < pow256((n - 1) as nat)) by (nonlinear_arith)
            requires
                v < 256 * pow256((n - 1) as nat),
        ;
        lemma_le_value_of_bytes(v / 256, (n - 1) as nat);
    }
}

/// Writing back what was read gives the bytes that were read, and `s.len()` bytes spell a
/// number below `256` to that power.
pub proof fn lemma_le_bytes_of_value(s: Seq<u8>)
    ensures
        le_bytes(le_value(s), s.len()) == s,
        le_value(s) < pow256(s.len()),
    decreases s.len(),
{
    if s.len() == 0 {
        assert(s =~= Seq::empty());
    } else {
        let rest = s.drop_first();
        lemma_le_bytes_of_value(rest);
        assert(le_value(s) % 256 == s[0] as nat);
        assert(le_value(s) / 256 == le_value(rest));
        assert(le_bytes(le_value(s), s.len()) =~= seq![s[0]] + rest);
        assert(seq![s[0]] + rest =~= s);
    }
}

/// The low bytes of a number are a prefix of more bytes of it.
pub proof fn lemma_le_bytes_prefix(v: nat, n: nat, k: nat)
    requires
        k <= n,
    ensures
        le_bytes(v, n).take(k as int) == le_bytes(v, k),
    decreases k,
{
    lemma_le_bytes_len(v, n);
    lemma_le_bytes_len(v, k);
    if k > 0 {
        lemma_le_bytes_prefix(v / 256, (n - 1) as nat, (k - 1) as nat);
        lemma_le_bytes_len(v / 256, (n - 1) as nat);
        assert(le_bytes(v, n).take(k as int) =~= seq![(v % 256) as u8] + le_bytes(
            v / 256,
            (n - 1) as nat,
        ).take(k - 1));
    } else {
        assert(le_bytes(v, n).take(0) =~= Seq::empty());
    }
}

/// Leading zero bytes past the end of a number do not change it.
pub proof fn lemma_le_value_zero_extend(s: Seq<u8>, k: nat)
    ensures
        le_value(s + Seq::new(k, |i: int| 0u8)) == le_value(s),
    decreases s.len(), k,
{
    let z = Seq::new(k, |i: int| 0u8);
    if s.len() > 0 {
        assert((s + z).drop_first() =~= s.drop_first() + z);
        lemma_le_value_zero_extend(s.drop_first(), k);
    } else if k > 0 {
        let z1 = Seq::new((k - 1) as nat, |i: int| 0u8);
        assert((s + z).drop_first() =~= s + z1);
        lemma_le_value_zero_extend(s, (k - 1) as nat);
    } else {
        assert(s + z =~= s);
    }
}

/// `bytemuck::bytes_of` on the little-endian form of `v`: the eight bytes of `v`, least
/// significant first, on every machine.
#[verifier::external_body]
pub(crate) fn u64_le(v: u64) -> (r: Vec<u8>)
    ensures
        r@ == le_bytes(v as nat, 8),
{
    bytemuck::bytes_of(&v.to_le()).to_vec()
}

/// `bytemuck::pod_read_unaligned` of a little-endian `u64`: the number that the eight bytes
/// spell, on every machine. The outside function panics on any other length.
#[verifier::external_body]
fn read_u64_le(bytes: &[u8]) -> (r: u64)
    requires
        bytes@.len() == 8,
    ensures
        r as nat == le_value(bytes@),
{
    u64::from_le(bytemuck::pod_read_unaligned(bytes))
}

/// The number that the first eight bytes of `bytes` spell.
pub fn get_u64(bytes: &[u8]) -> (r: u64)
    requires
        bytes@.len() >= 8,
    ensures
        r as nat == le_value(bytes@.subrange(0, 8)),
{
    read_u64_le(slice_subrange(bytes, 0, 8))
}

/// The number that the eight bytes of `bytes` at `at` spell.
pub fn get_u64_at(bytes: &[u8], at: usize) -> (r: u64)
    requires
        at + 8 <= bytes@.len(),
    ensures
        r as nat == le_value(bytes@.subrange(at as int, at + 8)),
{
    let _n: usize = bytes.len();
    read_u64_le(slice_subrange(bytes, at, at + 8))
}

/// The number that the four bytes of `bytes` at `at` spell.
pub fn get_u32_at(bytes: &[u8], at: usize) -> (r: u32)
    requires
        at + 4 <= bytes@.len(),
    ensures
        r as nat == le_value(bytes@.subrange(at as int, at + 4)),
{
    let _n: usize = bytes.len();
    let mut word: Vec<u8> = Vec::with_capacity(8);
    word.extend_from_slice(slice_subrange(bytes, at, at + 4));
    word.push(0);
    word.push(0);
    word.push(0);
    word.push(0);
    proof {
        let four = bytes@.subrange(at as int, at + 4);
        assert(word@ =~= four + Seq::new(4, |i: int| 0u8));
        lemma_le_value_zero_extend(four, 4);
        lemma_le_bytes_of_value(four);
        lemma_pow256_4_8();
    }
    read_u64_le(word.as_slice()) as u32
}

/// The four bytes of `v`, least significant first.
pub fn u32_le(v: u32) -> (r: Vec<u8>)
    ensures
        r@ == le_bytes(v as nat, 4),
{
    let mut r = u64_le(v as u64);
    proof {
        lemma_le_bytes_len(v as nat, 8);
        lemma_le_bytes_prefix(v as nat, 8, 4);
    }
    r.truncate(4);
    assert(r@ =~= le_bytes(v as nat, 8).take(4));
    r
}

} // verus!
