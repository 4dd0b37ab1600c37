//! The eight bytes that name a type of block: a readable start over a hash.
use vstd::prelude::*;
use vstd::string::StringSliceAdditionalSpecFns;
use vstd::utf8::encode_utf8;

use crate::bytes::{le_bytes, lemma_le_bytes_len, u64_le};
use crate::layout::EightCC;
use super::syntax::text_of;
use super::problem::Problem;

verus! {

/// One step of the hash: the byte is mixed in, and the sum multiplied, modulo two to the 64.
pub open spec fn fnv_step(h: u64, b: u8) -> u64 {
    (((h ^ (b as u64)) as nat * 0x100_0000_01b3) % 0x1_0000_0000_0000_0000) as u64
}

/// The 64-bit hash of a byte string (FNV-1a).
pub open spec fn fnv(s: Seq<u8>) -> u64
    decreases s.len(),
{
    if s.len() == 0 {
        0xcbf2_9ce4_8422_2325
    } else {
        fnv_step(fnv(s.drop_last()), s.last())
    }
}

fn hash_on(start: u64, Ghost(done): Ghost<Seq<u8>>, bytes: &[u8]) -> (h: u64)
    requires
        start == fnv(done),
    ensures
        h == fnv(done + bytes@),
{
    let mut h: u64 = start;
    let mut i: usize = 0;
    assert(done + bytes@.take(0) =~= done);
    while i < bytes.len()
        invariant
            i <= bytes@.len(),
            h == fnv(done + bytes@.take(i as int)),
        decreases bytes@.len() - i,
    {
        proof {
            assert((done + bytes@.take(i + 1)).drop_last() =~= done + bytes@.take(i as int));
        }
        h = (h ^ (bytes[i] as u64)).wrapping_mul(0x100_0000_01b3);
        i += 1;
    }
    assert(bytes@.take(i as int) =~= bytes@);
    h
}

/// The hash of a text.
pub fn fnv1a64(s: &str) -> (h: u64)
    ensures
        h == fnv(s.spec_bytes()),
{
    let h: u64 = hash_on(0xcbf2_9ce4_8422_2325, Ghost(Seq::empty()), s.as_bytes());
    assert(Seq::<u8>::empty() + s.spec_bytes() =~= s.spec_bytes());
    h
}

/// What the hash of a type is taken of: the name of its package, a zero, and its name.
pub open spec fn type_key(package: Seq<u8>, name: Seq<u8>) -> Seq<u8> {
    package + seq![0u8] + name
}

/// The hash of the type `name` of `package`.
pub fn type_hash(package: &str, name: &str) -> (h: u64)
    ensures
        h == fnv(type_key(package.spec_bytes(), name.spec_bytes())),
{
    let h1: u64 = hash_on(0xcbf2_9ce4_8422_2325, Ghost(Seq::empty()), package.as_bytes());
    assert(Seq::<u8>::empty() + package.spec_bytes() =~= package.spec_bytes());
    let mut zero: Vec<u8> = Vec::new();
    zero.push(0);
    assert(zero@ =~= seq![0u8]);
    let h2: u64 = hash_on(h1, Ghost(package.spec_bytes()), zero.as_slice());
    hash_on(h2, Ghost(package.spec_bytes() + seq![0u8]), name.as_bytes())
}

/// A tag, and whether its readable start had to be cut off.
pub struct Tag {
    pub bytes: EightCC,
    pub truncated: bool,
}

/// How much of a readable start fits.
pub open spec fn fitting(prefix: Seq<u8>) -> int {
    if prefix.len() < 8 {
        prefix.len() as int
    } else {
        8
    }
}

/// The tag of a hash and a readable start: the start as far as it fits, and then the bytes of
/// the hash, each with its highest bit set.
pub open spec fn tag_bytes(hash: u64, prefix: Seq<u8>) -> Seq<u8> {
    Seq::new(
        8,
        |i: int|
            if i < fitting(prefix) {
                prefix[i]
            } else {
                le_bytes(hash as nat, 8)[i] | 0x80
            },
    )
}

fn tag_byte(hash: &Vec<u8>, prefix: &Vec<u8>, i: usize) -> (r: u8)
    requires
        hash@.len() == 8,
        i < 8,
    ensures
        r == (if i < fitting(prefix@) {
            prefix@[i as int]
        } else {
            hash@[i as int] | 0x80
        }),
{
    if i < prefix.len() {
        prefix[i]
    } else {
        hash[i] | 0x80
    }
}

/// The tag of a hash and a readable start.
pub fn build_tag(hash: u64, prefix: &Vec<u8>) -> (r: Tag)
    ensures
        r.bytes@ == tag_bytes(hash, prefix@),
        r.truncated == (prefix@.len() > 8),
{
    let h = u64_le(hash);
    proof {
        lemma_le_bytes_len(hash as nat, 8);
    }
    let bytes = EightCC(
        [
            tag_byte(&h, prefix, 0),
            tag_byte(&h, prefix, 1),
            tag_byte(&h, prefix, 2),
            tag_byte(&h, prefix, 3),
            tag_byte(&h, prefix, 4),
            tag_byte(&h, prefix, 5),
            tag_byte(&h, prefix, 6),
            tag_byte(&h, prefix, 7),
        ],
    );
    assert(bytes@ =~= tag_bytes(hash, prefix@));
    Tag { bytes, truncated: prefix.len() > 8 }
}

/// What follows the readable start of a tag is never readable: no byte of it is ASCII.
pub proof fn law_hash_bytes_are_not_ascii(hash: u64, prefix: Seq<u8>, i: int)
    requires
        fitting(prefix) <= i < 8,
    ensures
        tag_bytes(hash, prefix)[i] >= 0x80,
{
    let b = le_bytes(hash as nat, 8)[i];
    assert(b | 0x80 >= 0x80) by (bit_vector);
}

/// Two tags with one hash and readable starts that differ in a place that fits are different.
pub proof fn law_different_prefixes_give_different_tags(
    hash: u64,
    p: Seq<u8>,
    q: Seq<u8>,
    i: int,
)
    requires
        0 <= i < fitting(p),
        i < fitting(q),
        p[i] != q[i],
    ensures
        tag_bytes(hash, p) != tag_bytes(hash, q),
{
    assert(tag_bytes(hash, p)[i] == p[i]);
    assert(tag_bytes(hash, q)[i] == q[i]);
}

/// A tag with more bytes mixed in: its readable start as it is, and then a hash of the tag and
/// those bytes.
pub open spec fn mixed(tag: Seq<u8>, with: Seq<u8>) -> Seq<u8> {
    Seq::new(
        8,
        |i: int|
            if tag[i] < 0x80 {
                tag[i]
            } else {
                le_bytes(fnv(tag + with) as nat, 8)[i] | 0x80
            },
    )
}

fn mixed_byte(tag: u8, hash: u8) -> (r: u8)
    ensures
        r == (if tag < 0x80 {
            tag
        } else {
            hash | 0x80
        }),
{
    if tag < 0x80 {
        tag
    } else {
        hash | 0x80
    }
}

fn mix_bytes(tag: &EightCC, with: &[u8]) -> (r: EightCC)
    ensures
        r@ == mixed(tag@, with@),
{
    let h1: u64 = hash_on(0xcbf2_9ce4_8422_2325, Ghost(Seq::empty()), tag.0.as_slice());
    assert(Seq::<u8>::empty() + tag@ =~= tag@);
    let hash: u64 = hash_on(h1, Ghost(tag@), with);
    let h = u64_le(hash);
    proof {
        lemma_le_bytes_len(hash as nat, 8);
    }
    let t = tag.0;
    let out = EightCC(
        [
            mixed_byte(t[0], h[0]),
            mixed_byte(t[1], h[1]),
            mixed_byte(t[2], h[2]),
            mixed_byte(t[3], h[3]),
            mixed_byte(t[4], h[4]),
            mixed_byte(t[5], h[5]),
            mixed_byte(t[6], h[6]),
            mixed_byte(t[7], h[7]),
        ],
    );
    assert(out@ =~= mixed(tag@, with@));
    out
}

impl EightCC {
    /// The tag with another mixed in.
    pub fn mix(&self, other: EightCC) -> (r: EightCC)
        ensures
            r@ == mixed(self@, other@),
    {
        mix_bytes(self, other.0.as_slice())
    }

    /// The tag with a text mixed in.
    pub fn mix_str(&self, text: &str) -> (r: EightCC)
        ensures
            r@ == mixed(self@, text.spec_bytes()),
    {
        mix_bytes(self, text.as_bytes())
    }
}

/// Whatever is mixed into a tag, a readable start of ASCII bytes stays as it is.
pub proof fn law_mixing_keeps_the_readable_start(hash: u64, prefix: Seq<u8>, with: Seq<u8>, i: int)
    requires
        0 <= i < fitting(prefix),
        prefix[i] < 0x80,
    ensures
        mixed(tag_bytes(hash, prefix), with)[i] == prefix[i],
{
}

/// An ASCII letter in its large form; any other byte as it is.
pub open spec fn upper(b: u8) -> u8 {
    if 97 <= b <= 122 {
        (b - 32) as u8
    } else {
        b
    }
}

/// An ASCII letter in its small form; any other byte as it is.
pub open spec fn lower(b: u8) -> u8 {
    if 65 <= b <= 90 {
        (b + 32) as u8
    } else {
        b
    }
}

fn to_upper(b: u8) -> (r: u8)
    ensures
        r == upper(b),
{
    if 97 <= b && b <= 122 {
        b - 32
    } else {
        b
    }
}

fn to_lower(b: u8) -> (r: u8)
    ensures
        r == lower(b),
{
    if 65 <= b && b <= 90 {
        b + 32
    } else {
        b
    }
}

/// Whether a byte is one of the letters A, E, I, O, U and Y, large or small.
pub open spec fn is_vowel(b: u8) -> bool {
    let u = upper(b);
    u == 65 || u == 69 || u == 73 || u == 79 || u == 85 || u == 89
}

/// Whether a byte is one of the letters A, E, I, O, U and Y, large or small.
pub fn is_ascii_vowel(b: u8) -> (r: bool)
    ensures
        r == is_vowel(b),
{
    let u: u8 = to_upper(b);
    u == 65 || u == 69 || u == 73 || u == 79 || u == 85 || u == 89
}

/// Whether a byte is an ASCII letter or digit.
pub open spec fn is_alnum_byte(b: u8) -> bool {
    48 <= b <= 57 || 65 <= b <= 90 || 97 <= b <= 122
}

/// What `char::is_alphanumeric` says.
pub uninterp spec fn char_is_alphanumeric(c: char) -> bool;

/// What `char::is_uppercase` says.
pub uninterp spec fn char_is_uppercase(c: char) -> bool;

/// What `char::is_lowercase` says.
pub uninterp spec fn char_is_lowercase(c: char) -> bool;

/// `char::is_alphanumeric` depends on the character alone.
pub assume_specification[ char::is_alphanumeric ](c: char) -> (r: bool)
    ensures
        r == char_is_alphanumeric(c),
;

/// `char::is_uppercase` depends on the character alone.
pub assume_specification[ char::is_uppercase ](c: char) -> (r: bool)
    ensures
        r == char_is_uppercase(c),
;

/// `char::is_lowercase` depends on the character alone.
pub assume_specification[ char::is_lowercase ](c: char) -> (r: bool)
    ensures
        r == char_is_lowercase(c),
;

/// `String::push` puts the character at the end.
pub assume_specification[ String::push ](s: &mut String, c: char)
    ensures
        final(s)@ == old(s)@.push(c),
;

/// What matters of a character for the words of a name.
#[derive(Clone, Copy, Debug, PartialEq, Eq, Structural)]
pub struct Letter {
    pub c: char,
    pub alphanumeric: bool,
    pub uppercase: bool,
    pub lowercase: bool,
}

/// A character with its classes.
pub open spec fn letter(c: char) -> Letter {
    Letter {
        c,
        alphanumeric: char_is_alphanumeric(c),
        uppercase: char_is_uppercase(c),
        lowercase: char_is_lowercase(c),
    }
}

/// The characters of a name with their classes.
pub open spec fn letters(name: Seq<char>) -> Seq<Letter> {
    name.map_values(|c: char| letter(c))
}

/// Whether a new word starts at `i`, inside a run of letters and digits: at a large letter
/// after a small one, and at the last of several large letters before a small one.
pub open spec fn is_boundary(cs: Seq<Letter>, i: int) -> bool {
    cs[i].uppercase && (cs[i - 1].lowercase || (cs[i - 1].uppercase && i + 1 < cs.len() && cs[i
        + 1].lowercase))
}

/// The words that are complete after the first `n` characters, and the one under way.
pub open spec fn split_at(cs: Seq<Letter>, n: int) -> (Seq<Seq<char>>, Seq<char>)
    decreases n,
{
    if n <= 0 {
        (Seq::empty(), Seq::empty())
    } else {
        let (words, cur) = split_at(cs, n - 1);
        let c = cs[n - 1];
        if !c.alphanumeric {
            if cur.len() > 0 {
                (words.push(cur), Seq::empty())
            } else {
                (words, cur)
            }
        } else if cur.len() > 0 && is_boundary(cs, n - 1) {
            (words.push(cur), seq![c.c])
        } else {
            (words, cur.push(c.c))
        }
    }
}

/// The words of a name.
pub open spec fn words_of(cs: Seq<Letter>) -> Seq<Seq<char>> {
    let (words, cur) = split_at(cs, cs.len() as int);
    if cur.len() > 0 {
        words.push(cur)
    } else {
        words
    }
}

/// The texts of words.
pub open spec fn word_texts(v: Seq<String>) -> Seq<Seq<char>> {
    v.map_values(|s: String| s@)
}

proof fn lemma_under_way(cs: Seq<Letter>, n: int)
    requires
        0 <= n <= cs.len(),
    ensures
        split_at(cs, n).1.len() > 0 ==> n > 0,
        forall|k: int|
            0 <= k < split_at(cs, n).0.len() ==> (#[trigger] split_at(cs, n).0[k]).len() > 0,
    decreases n,
{
    if n > 0 {
        lemma_under_way(cs, n - 1);
    }
}

/// The characters of a name with their classes.
pub fn letters_in(name: &str) -> (r: Vec<Letter>)
    ensures
        r@ == letters(name@),
{
    let n: usize = name.unicode_len();
    let mut out: Vec<Letter> = Vec::new();
    let mut i: usize = 0;
    while i < n
        invariant
            i <= n,
            n == name@.len(),
            out@ =~= letters(name@).take(i as int),
        decreases n - i,
    {
        let c: char = name.get_char(i);
        out.push(
            Letter {
                c,
                alphanumeric: c.is_alphanumeric(),
                uppercase: c.is_uppercase(),
                lowercase: c.is_lowercase(),
            },
        );
        i += 1;
    }
    assert(letters(name@).take(i as int) =~= letters(name@));
    out
}

fn ends_word(cs: &Vec<Letter>, i: usize) -> (r: bool)
    requires
        0 < i < cs@.len(),
    ensures
        r == is_boundary(cs@, i as int),
{
    if !cs[i].uppercase {
        return false;
    }
    if cs[i - 1].lowercase {
        return true;
    }
    cs[i - 1].uppercase && i < cs.len() - 1 && cs[i + 1].lowercase
}

/// The words of a name whose characters have these classes: its runs of letters and digits, cut
/// where the case says so.
pub fn words_in(cs: &Vec<Letter>) -> (r: Vec<String>)
    ensures
        word_texts(r@) == words_of(cs@),
{
    let mut words: Vec<String> = Vec::new();
    let mut cur: String = String::new();
    let mut len: usize = 0;
    let mut i: usize = 0;
    assert(cur@ =~= Seq::empty());
    assert(word_texts(words@) =~= Seq::empty());
    while i < cs.len()
        invariant
            i <= cs@.len(),
            word_texts(words@) == split_at(cs@, i as int).0,
            cur@ == split_at(cs@, i as int).1,
            len == cur@.len(),
            len <= i,
        decreases cs@.len() - i,
    {
        let c: char = cs[i].c;
        let ghost before = words@;
        proof {
            lemma_under_way(cs@, i as int);
        }
        if !cs[i].alphanumeric {
            if len > 0 {
                let mut done: String = String::new();
                core::mem::swap(&mut cur, &mut done);
                let ghost text = done@;
                words.push(done);
                len = 0;
                assert(word_texts(words@) =~= word_texts(before).push(text));
                assert(cur@ =~= Seq::empty());
            }
        } else {
            if len > 0 && ends_word(cs, i) {
                let mut done: String = String::new();
                core::mem::swap(&mut cur, &mut done);
                let ghost text = done@;
                words.push(done);
                len = 0;
                assert(word_texts(words@) =~= word_texts(before).push(text));
                assert(cur@ =~= Seq::empty());
                assert(cur@.push(c) =~= seq![c]);
            }
            cur.push(c);
            len += 1;
        }
        i += 1;
    }
    if len > 0 {
        let ghost before = words@;
        let ghost text = cur@;
        words.push(cur);
        assert(word_texts(words@) =~= word_texts(before).push(text));
    }
    words
}

/// The words of a name.
pub fn split_words(name: &str) -> (r: Vec<String>)
    ensures
        word_texts(r@) == words_of(letters(name@)),
{
    words_in(&letters_in(name))
}

/// The characters of words one after another.
pub open spec fn joined(words: Seq<Seq<char>>) -> Seq<char>
    decreases words.len(),
{
    if words.len() == 0 {
        Seq::empty()
    } else {
        joined(words.drop_last()) + words.last()
    }
}

/// The letters and digits of a name.
pub open spec fn alphanumerics(cs: Seq<Letter>) -> Seq<char>
    decreases cs.len(),
{
    if cs.len() == 0 {
        Seq::empty()
    } else if cs.last().alphanumeric {
        alphanumerics(cs.drop_last()).push(cs.last().c)
    } else {
        alphanumerics(cs.drop_last())
    }
}

proof fn lemma_joined_push(words: Seq<Seq<char>>, w: Seq<char>)
    ensures
        joined(words.push(w)) == joined(words) + w,
{
    assert(words.push(w).drop_last() =~= words);
}

proof fn lemma_split_keeps(cs: Seq<Letter>, n: int)
    requires
        0 <= n <= cs.len(),
    ensures
        joined(split_at(cs, n).0) + split_at(cs, n).1 == alphanumerics(cs.take(n)),
    decreases n,
{
    if n == 0 {
        assert(cs.take(0) =~= Seq::empty());
        assert(joined(split_at(cs, 0).0) + split_at(cs, 0).1 =~= Seq::empty());
    } else {
        lemma_split_keeps(cs, n - 1);
        let (words, cur) = split_at(cs, n - 1);
        let (words2, cur2) = split_at(cs, n);
        let c = cs[n - 1];
        assert(cs.take(n).drop_last() =~= cs.take(n - 1));
        lemma_joined_push(words, cur);
        let before = alphanumerics(cs.take(n - 1));
        if !c.alphanumeric {
            assert(joined(words2) + cur2 =~= before);
        } else if cur.len() > 0 && is_boundary(cs, n - 1) {
            assert(joined(words2) + cur2 =~= before.push(c.c));
        } else {
            assert(joined(words2) + cur2 =~= before.push(c.c));
        }
    }
}

/// The words of a name hold all its letters and digits, in order, and nothing else; and no
/// word is empty.
pub proof fn law_words_lose_nothing(cs: Seq<Letter>)
    ensures
        joined(words_of(cs)) == alphanumerics(cs),
        forall|k: int| 0 <= k < words_of(cs).len() ==> (#[trigger] words_of(cs)[k]).len() > 0,
{
    let n = cs.len() as int;
    lemma_split_keeps(cs, n);
    lemma_under_way(cs, n);
    let (words, cur) = split_at(cs, n);
    assert(cs.take(n) =~= cs);
    lemma_joined_push(words, cur);
    if cur.len() == 0 {
        assert(joined(words) + cur =~= joined(words));
    }
}

/// The first bytes of words, in their large form.
pub open spec fn initials(words: Seq<Seq<char>>) -> Seq<u8> {
    words.map_values(|w: Seq<char>| upper(encode_utf8(w)[0]))
}

/// The ASCII letters and digits among bytes, in their large form.
pub open spec fn letters_of(bytes: Seq<u8>) -> Seq<u8>
    decreases bytes.len(),
{
    if bytes.len() == 0 {
        Seq::empty()
    } else if is_alnum_byte(bytes.last()) {
        letters_of(bytes.drop_last()).push(upper(bytes.last()))
    } else {
        letters_of(bytes.drop_last())
    }
}

/// The first letter, and of the others those that are no vowels.
pub open spec fn consonants(letters: Seq<u8>) -> Seq<u8>
    decreases letters.len(),
{
    if letters.len() == 0 {
        Seq::empty()
    } else if letters.len() == 1 || !is_vowel(letters.last()) {
        consonants(letters.drop_last()).push(letters.last())
    } else {
        consonants(letters.drop_last())
    }
}

/// The first `n` of some bytes, or all of them where there are fewer.
pub open spec fn at_most(s: Seq<u8>, n: int) -> Seq<u8> {
    if s.len() <= n {
        s
    } else {
        s.take(n)
    }
}

/// The letters of a name that is a single word, or none.
pub open spec fn only_letters(words: Seq<Seq<char>>) -> Seq<u8> {
    if words.len() == 0 {
        Seq::empty()
    } else {
        letters_of(encode_utf8(words[0]))
    }
}

/// A start that is too short, made two bytes long: a single byte is written twice, and where
/// there is none two `X` stand for it.
pub open spec fn filled(s: Seq<u8>) -> Seq<u8> {
    if s.len() == 0 {
        seq![88u8, 88u8]
    } else if s.len() == 1 {
        seq![s[0], s[0]]
    } else {
        s
    }
}

/// The readable start that a name gives: the initials of several words; of one word its first
/// letter and its consonants, or its first two letters where that leaves less than two. It is
/// filled up to two bytes.
pub open spec fn prefix_of(name: Seq<char>) -> Seq<u8> {
    prefix_by(letters(name))
}

/// The readable start that a name gives whose characters have these classes.
pub open spec fn prefix_by(cs: Seq<Letter>) -> Seq<u8> {
    let words = words_of(cs);
    if words.len() >= 2 {
        at_most(initials(words), 5)
    } else {
        let letters = only_letters(words);
        let short = at_most(consonants(letters), 5);
        if short.len() < 2 {
            filled(at_most(letters, 2))
        } else {
            short
        }
    }
}

proof fn lemma_word_has_a_byte(w: Seq<char>)
    requires
        w.len() > 0,
    ensures
        encode_utf8(w).len() > 0,
{
    assert(vstd::utf8::encode_scalar(w[0] as u32).len() > 0);
}

proof fn lemma_consonants_grow(letters: Seq<u8>, n: int)
    requires
        0 <= n <= letters.len(),
    ensures
        consonants(letters.take(n)).len() <= consonants(letters).len(),
        consonants(letters).take(consonants(letters.take(n)).len() as int) == consonants(
            letters.take(n),
        ),
    decreases letters.len(),
{
    if n == letters.len() {
        assert(letters.take(n) =~= letters);
        assert(consonants(letters).take(consonants(letters).len() as int) =~= consonants(letters));
    } else {
        let l2 = letters.drop_last();
        lemma_consonants_grow(l2, n);
        assert(l2.take(n) =~= letters.take(n));
        let k = consonants(letters.take(n)).len() as int;
        if letters.len() == 1 || !is_vowel(letters.last()) {
            assert(consonants(letters).take(k) =~= consonants(l2).take(k));
        }
    }
}

fn word_initials(words: &Vec<String>) -> (r: Vec<u8>)
    requires
        forall|k: int| 0 <= k < words@.len() ==> (#[trigger] words@[k])@.len() > 0,
    ensures
        r@ == at_most(initials(word_texts(words@)), 5),
{
    let mut out: Vec<u8> = Vec::new();
    let mut i: usize = 0;
    while i < words.len() && i < 5
        invariant
            i <= words@.len(),
            i <= 5,
            forall|k: int| 0 <= k < words@.len() ==> (#[trigger] words@[k])@.len() > 0,
            out@ =~= initials(word_texts(words@)).take(i as int),
        decreases words@.len() - i,
    {
        let bytes = words[i].as_str().as_bytes();
        proof {
            lemma_word_has_a_byte(words@[i as int]@);
        }
        out.push(to_upper(bytes[0]));
        i += 1;
    }
    proof {
        let all = initials(word_texts(words@));
        assert(all.len() == words@.len());
        if all.len() <= 5 {
            assert(all.take(i as int) =~= all);
        }
    }
    out
}

fn word_letters(word: &String) -> (r: Vec<u8>)
    ensures
        r@ == letters_of(encode_utf8(word@)),
{
    let bytes = word.as_str().as_bytes();
    let mut out: Vec<u8> = Vec::new();
    let mut i: usize = 0;
    assert(bytes@.take(0) =~= Seq::empty());
    while i < bytes.len()
        invariant
            i <= bytes@.len(),
            out@ =~= letters_of(bytes@.take(i as int)),
        decreases bytes@.len() - i,
    {
        let b: u8 = bytes[i];
        proof {
            assert(bytes@.take(i + 1).drop_last() =~= bytes@.take(i as int));
        }
        if (48 <= b && b <= 57) || (65 <= b && b <= 90) || (97 <= b && b <= 122) {
            out.push(to_upper(b));
        }
        i += 1;
    }
    assert(bytes@.take(i as int) =~= bytes@);
    out
}

fn drop_vowels(letters: &Vec<u8>) -> (r: Vec<u8>)
    ensures
        r@ == at_most(consonants(letters@), 5),
{
    let mut out: Vec<u8> = Vec::new();
    let mut i: usize = 0;
    assert(letters@.take(0) =~= Seq::empty());
    while i < letters.len() && out.len() < 5
        invariant
            i <= letters@.len(),
            out@.len() <= 5,
            out@ =~= consonants(letters@.take(i as int)),
        decreases letters@.len() - i,
    {
        let b: u8 = letters[i];
        proof {
            assert(letters@.take(i + 1).drop_last() =~= letters@.take(i as int));
        }
        if i == 0 || !is_ascii_vowel(b) {
            out.push(b);
        }
        i += 1;
    }
    proof {
        lemma_consonants_grow(letters@, i as int);
        assert(letters@.take(letters@.len() as int) =~= letters@);
    }
    out
}

/// The readable start that a name gives.
pub fn auto_prefix(name: &str) -> (r: Vec<u8>)
    ensures
        r@ == prefix_of(name@),
        2 <= r@.len() <= 5,
{
    prefix_in(&letters_in(name))
}

/// The readable start that a name gives whose characters have these classes.
pub fn prefix_in(cs: &Vec<Letter>) -> (r: Vec<u8>)
    ensures
        r@ == prefix_by(cs@),
        2 <= r@.len() <= 5,
{
    let words = words_in(cs);
    proof {
        law_words_lose_nothing(cs@);
        assert forall|k: int| 0 <= k < words@.len() implies (#[trigger] words@[k])@.len() > 0 by {
            assert(words_of(cs@)[k] == words@[k]@);
        }
    }
    if words.len() >= 2 {
        return word_initials(&words);
    }
    let letters: Vec<u8> = if words.len() == 0 {
        Vec::new()
    } else {
        word_letters(&words[0])
    };
    assert(letters@ =~= only_letters(words_of(cs@)));
    let short = drop_vowels(&letters);
    if short.len() >= 2 {
        return short;
    }
    let mut out: Vec<u8> = Vec::new();
    if letters.len() == 0 {
        out.push(88);
        out.push(88);
    } else {
        out.push(letters[0]);
        out.push(if letters.len() > 1 {
            letters[1]
        } else {
            letters[0]
        });
    }
    assert(out@ =~= filled(at_most(letters@, 2)));
    out
}

/// A readable start has two to five bytes, whatever the name, so a tag never cuts one that a
/// name gave.
pub proof fn law_prefix_is_short(cs: Seq<Letter>)
    ensures
        2 <= prefix_by(cs).len() <= 5,
{
}

/// Whether a character is an ASCII letter or digit.
pub open spec fn is_alnum_char(c: char) -> bool {
    (c as u32) < 128 && is_alnum_byte((c as u32) as u8)
}

/// Whether a byte is a large ASCII letter or a digit.
pub open spec fn is_large(b: u8) -> bool {
    48 <= b <= 57 || 65 <= b <= 90
}

proof fn lemma_letters_are_large(bytes: Seq<u8>)
    ensures
        forall|i: int|
            0 <= i < letters_of(bytes).len() ==> is_large(#[trigger] letters_of(bytes)[i]),
    decreases bytes.len(),
{
    if bytes.len() > 0 {
        lemma_letters_are_large(bytes.drop_last());
        let before = letters_of(bytes.drop_last());
        assert forall|i: int| 0 <= i < letters_of(bytes).len() implies is_large(
            #[trigger] letters_of(bytes)[i],
        ) by {
            if i < before.len() {
                assert(letters_of(bytes)[i] == before[i]);
            }
        }
    }
}

proof fn lemma_consonants_are_large(letters: Seq<u8>)
    requires
        forall|i: int| 0 <= i < letters.len() ==> is_large(#[trigger] letters[i]),
    ensures
        forall|i: int|
            0 <= i < consonants(letters).len() ==> is_large(#[trigger] consonants(letters)[i]),
    decreases letters.len(),
{
    if letters.len() > 0 {
        lemma_consonants_are_large(letters.drop_last());
        let before = consonants(letters.drop_last());
        assert forall|i: int| 0 <= i < consonants(letters).len() implies is_large(
            #[trigger] consonants(letters)[i],
        ) by {
            if i < before.len() {
                assert(consonants(letters)[i] == before[i]);
            } else {
                assert(is_large(letters[letters.len() - 1]));
            }
        }
    }
}

proof fn lemma_split_is_ascii(cs: Seq<Letter>, n: int)
    requires
        0 <= n <= cs.len(),
        forall|i: int|
            0 <= i < cs.len() ==> ((#[trigger] cs[i]).alphanumeric ==> is_alnum_char(cs[i].c)),
    ensures
        forall|k: int, j: int|
            0 <= k < split_at(cs, n).0.len() && 0 <= j < split_at(cs, n).0[k].len()
                ==> is_alnum_char(#[trigger] split_at(cs, n).0[k][j]),
        forall|j: int|
            0 <= j < split_at(cs, n).1.len() ==> is_alnum_char(#[trigger] split_at(cs, n).1[j]),
    decreases n,
{
    if n > 0 {
        lemma_split_is_ascii(cs, n - 1);
        let (words, cur) = split_at(cs, n - 1);
        let (now, open) = split_at(cs, n);
        assert(cs[n - 1].alphanumeric ==> is_alnum_char(cs[n - 1].c));
        assert forall|k: int, j: int| 0 <= k < now.len() && 0 <= j < now[k].len() implies
            is_alnum_char(#[trigger] now[k][j]) by {
            if k < words.len() {
                assert(now[k][j] == words[k][j]);
            } else {
                assert(now[k][j] == cur[j]);
            }
        }
        assert forall|j: int| 0 <= j < open.len() implies is_alnum_char(#[trigger] open[j]) by {
            if j < cur.len() && open.len() > cur.len() {
                assert(open[j] == cur[j]);
            } else if open == cur {
                assert(open[j] == cur[j]);
            }
        }
    }
}

proof fn lemma_ascii_start(w: Seq<char>)
    requires
        w.len() > 0,
        is_alnum_char(w[0]),
    ensures
        encode_utf8(w).len() > 0,
        is_alnum_byte(encode_utf8(w)[0]),
{
    let c = w[0] as u32;
    let b = c as u8;
    assert(c < 128 ==> vstd::utf8::leading_byte_width_1(c) == b) by {
        assert(c < 128 ==> (c & 0x7F) as u8 == c as u8) by (bit_vector);
    }
}

/// Where only ASCII letters and digits count as such in a name, as in a name of ASCII, every
/// byte of the readable start is a large letter or a digit.
pub proof fn law_prefix_is_readable(cs: Seq<Letter>)
    requires
        forall|i: int|
            0 <= i < cs.len() ==> ((#[trigger] cs[i]).alphanumeric ==> is_alnum_char(cs[i].c)),
    ensures
        forall|i: int| 0 <= i < prefix_by(cs).len() ==> is_large(#[trigger] prefix_by(cs)[i]),
{
    let words = words_of(cs);
    if words.len() >= 2 {
        law_words_lose_nothing(cs);
        lemma_split_is_ascii(cs, cs.len() as int);
        assert forall|i: int| 0 <= i < prefix_by(cs).len() implies is_large(
            #[trigger] prefix_by(cs)[i],
        ) by {
            assert(words[i].len() > 0);
            assert(is_alnum_char(words[i][0]));
            lemma_ascii_start(words[i]);
        }
    } else {
        let letters = only_letters(words);
        if words.len() > 0 {
            lemma_letters_are_large(encode_utf8(words[0]));
        }
        lemma_consonants_are_large(letters);
    }
}

/// The tags of a block and of its control block.
pub struct Tags {
    pub data: Tag,
    pub control: Tag,
}

/// The readable start of a block: what was asked for, or what the name gives.
pub open spec fn chosen_prefix(asked: Option<Seq<char>>, name: Seq<char>) -> Seq<u8> {
    match asked {
        Some(t) => encode_utf8(t),
        None => prefix_of(name),
    }
}

/// The readable start of a control block: what was asked for, or that of the block in small
/// letters.
pub open spec fn control_prefix(asked: Option<Seq<char>>, data: Seq<u8>) -> Seq<u8> {
    match asked {
        Some(t) => encode_utf8(t),
        None => data.map_values(|b: u8| lower(b)),
    }
}

fn bytes_of(s: &str) -> (r: Vec<u8>)
    ensures
        r@ == s.spec_bytes(),
{
    let bytes = s.as_bytes();
    let mut out: Vec<u8> = Vec::new();
    let mut i: usize = 0;
    while i < bytes.len()
        invariant
            i <= bytes@.len(),
            out@ =~= bytes@.take(i as int),
        decreases bytes@.len() - i,
    {
        out.push(bytes[i]);
        i += 1;
    }
    assert(bytes@.take(i as int) =~= bytes@);
    out
}

fn choose_prefix(asked: &Option<String>, name: &str) -> (r: Vec<u8>)
    ensures
        r@ == chosen_prefix(text_of(*asked), name@),
{
    match asked {
        Some(t) => bytes_of(t.as_str()),
        None => auto_prefix(name),
    }
}

fn small_letters(bytes: &Vec<u8>) -> (r: Vec<u8>)
    ensures
        r@ == bytes@.map_values(|b: u8| lower(b)),
{
    let mut out: Vec<u8> = Vec::new();
    let mut i: usize = 0;
    while i < bytes.len()
        invariant
            i <= bytes@.len(),
            out@ =~= bytes@.map_values(|b: u8| lower(b)).take(i as int),
        decreases bytes@.len() - i,
    {
        out.push(to_lower(bytes[i]));
        i += 1;
    }
    let ghost all = bytes@.map_values(|b: u8| lower(b));
    assert(all.take(all.len() as int) =~= all);
    out
}

/// The tags of the struct `name` of `package`, each with a readable start of its own or the
/// one that was asked for.
pub fn block_tags(
    package: &str,
    name: &str,
    tag: &Option<String>,
    ctrl_tag: &Option<String>,
) -> (r: Tags)
    ensures
        ({
            let hash = fnv(type_key(package.spec_bytes(), name.spec_bytes()));
            let data = chosen_prefix(text_of(*tag), name@);
            let control = control_prefix(text_of(*ctrl_tag), data);
            &&& r.data.bytes@ == tag_bytes(hash, data)
            &&& r.data.truncated == (data.len() > 8)
            &&& r.control.bytes@ == tag_bytes(hash, control)
            &&& r.control.truncated == (control.len() > 8)
        }),
{
    let hash: u64 = type_hash(package, name);
    let data = choose_prefix(tag, name);
    let control = match ctrl_tag {
        Some(t) => bytes_of(t.as_str()),
        None => small_letters(&data),
    };
    Tags { data: build_tag(hash, &data), control: build_tag(hash, &control) }
}

/// A control block without a tag of its own has another tag than its block wherever the
/// readable start of the block has a large letter among the bytes that fit.
pub proof fn law_control_tag_differs(hash: u64, data: Seq<u8>, i: int)
    requires
        0 <= i < fitting(data),
        65 <= data[i] <= 90,
    ensures
        tag_bytes(hash, control_prefix(None, data)) != tag_bytes(hash, data),
{
    let control = control_prefix(None, data);
    assert(control[i] == lower(data[i]));
    law_different_prefixes_give_different_tags(hash, control, data, i);
}

/// Whether a tag has this hash and this readable start.
pub open spec fn tag_is(tag: Tag, hash: u64, prefix: Seq<u8>) -> bool {
    tag.bytes@ == tag_bytes(hash, prefix) && tag.truncated == (prefix.len() > 8)
}

/// Whether the tag that was asked for the control block of an enum is the enum's own.
pub open spec fn same_control(
    hash: u64,
    name: Seq<char>,
    tag: Option<Seq<char>>,
    ctrl_tag: Option<Seq<char>>,
) -> bool {
    ctrl_tag matches Some(t) && tag_bytes(hash, encode_utf8(t)) == tag_bytes(
        hash,
        chosen_prefix(tag, name),
    )
}

/// Whether these are the tags of an enum and of its control block.
pub open spec fn enum_tags_are(
    hash: u64,
    name: Seq<char>,
    tag: Option<Seq<char>>,
    ctrl_tag: Option<Seq<char>>,
    tags: (Tag, Option<Tag>),
) -> bool {
    &&& tag_is(tags.0, hash, chosen_prefix(tag, name))
    &&& match ctrl_tag {
        None => tags.1 is None,
        Some(t) => tags.1 matches Some(c) && tag_is(c, hash, encode_utf8(t)),
    }
}

/// The tag of the enum `name` of `package`, and that of its control block where one was asked
/// for. One that is the same as the enum's own is refused. Where none was asked for, it comes
/// from the enum's own when the program runs.
pub fn enum_tags(
    package: &str,
    name: &str,
    tag: &Option<String>,
    ctrl_tag: &Option<String>,
) -> (r: Result<(Tag, Option<Tag>), Problem>)
    ensures
        ({
            let hash = fnv(type_key(package.spec_bytes(), name.spec_bytes()));
            if same_control(hash, name@, text_of(*tag), text_of(*ctrl_tag)) {
                r matches Err(p) && p == Problem::SameControlTag
            } else {
                r matches Ok(tags) && enum_tags_are(
                    hash,
                    name@,
                    text_of(*tag),
                    text_of(*ctrl_tag),
                    tags,
                )
            }
        }),
{
    let hash: u64 = type_hash(package, name);
    let data = build_tag(hash, &choose_prefix(tag, name));
    match ctrl_tag {
        None => Ok((data, None)),
        Some(t) => {
            let control = build_tag(hash, &bytes_of(t.as_str()));
            if control.bytes.same(&data.bytes) {
                Err(Problem::SameControlTag)
            } else {
                Ok((data, Some(control)))
            }
        },
    }
}

/// The tags of an enum and of its control block differ, where both are known.
pub proof fn law_enum_tags_differ(
    hash: u64,
    name: Seq<char>,
    tag: Option<Seq<char>>,
    ctrl_tag: Option<Seq<char>>,
    tags: (Tag, Option<Tag>),
)
    requires
        !same_control(hash, name, tag, ctrl_tag),
        enum_tags_are(hash, name, tag, ctrl_tag, tags),
    ensures
        tags.1 matches Some(c) ==> c.bytes@ != tags.0.bytes@,
{
}

/// Whether a tag that had to be cut off calls for a warning.
pub fn warns_of_length(truncated: bool, allow_overlong: bool, allow_deprecated: bool) -> (r: bool)
    ensures
        r == (truncated && !allow_overlong && !allow_deprecated),
{
    truncated && !(allow_overlong || allow_deprecated)
}

} // verus!
