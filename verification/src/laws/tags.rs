//! The eight bytes that name a type: what can be read of them, what they depend on, and that two
//! of one type differ.
use vstd::prelude::*;
use vstd::string::StringSliceAdditionalSpecFns;
use vstd::utf8::encode_utf8;

use crate::bytes::le_bytes;
use crate::derive::block::BlockPlan;
use crate::derive::mix::{control_mixes, enum_mixes, mix_views, tag_mixes, Mix};
use crate::derive::problem::Problem;
use crate::derive::tag::{
    alphanumerics, auto_prefix, block_tags, build_tag, consonants, enum_tags, fnv, fnv1a64,
    is_vowel, joined, law_words_lose_nothing, letters_of, prefix_in, split_at, type_hash, upper,
    warns_of_length, word_texts, words_in, Letter, Tag, Tags,
};
use crate::derive::ty::texts;
use crate::layout::EightCC;

verus! {

/// A hash is made byte by byte: each is mixed in, and the sum multiplied, in 64 bits.
pub proof fn law_a_hash_is_made_byte_by_byte(s: Seq<u8>, b: u8)
    ensures
        fnv(Seq::empty()) == 14_695_981_039_346_656_037,
        fnv(s.push(b)) as int == ((fnv(s) ^ (b as u64)) as int * 1_099_511_628_211)
            % 18_446_744_073_709_551_616,
{
    assert(s.push(b).drop_last() =~= s);
    assert(s.push(b).last() == b);
}

/// The hash of a text is that of its bytes; that of a type is of its package, a zero, and its
/// name.
pub proof fn law_a_type_is_hashed_with_its_package(
    package: &str,
    name: &str,
    text: &str,
    h: u64,
    k: u64,
)
    requires
        call_ensures(type_hash, (package, name), h),
        call_ensures(fnv1a64, (text,), k),
    ensures
        k == fnv(text.spec_bytes()),
        h == fnv(package.spec_bytes().push(0) + name.spec_bytes()),
        text.spec_bytes() == package.spec_bytes().push(0) + name.spec_bytes() ==> h == k,
{
    assert(package.spec_bytes() + seq![0u8] =~= package.spec_bytes().push(0));
}

/// Whether a byte is one of the hash, made unreadable.
pub open spec fn is_hash_byte(b: u8, hash: u64, i: int) -> bool {
    b == le_bytes(hash as nat, 8)[i] | 0x80 && b >= 128
}

/// A tag is its readable start as far as that fits, and then the hash, in bytes that are no text;
/// whether something did not fit is told.
pub proof fn law_a_tag_is_its_start_and_its_hash(hash: u64, prefix: &Vec<u8>, r: Tag, i: int)
    requires
        call_ensures(build_tag, (hash, prefix), r),
        0 <= i < 8,
    ensures
        r.bytes@.len() == 8,
        i < prefix@.len() ==> r.bytes@[i] == prefix@[i],
        i >= prefix@.len() ==> is_hash_byte(r.bytes@[i], hash, i),
        r.truncated <==> prefix@.len() > 8,
{
    let b = le_bytes(hash as nat, 8)[i];
    assert(b | 0x80 >= 0x80) by (bit_vector);
}

/// What is mixed into a tag changes what cannot be read of it, by a hash of both, and leaves what
/// can be read.
pub proof fn law_mixing_changes_the_hash_alone(
    tag: &EightCC,
    other: EightCC,
    text: &str,
    r: EightCC,
    q: EightCC,
    i: int,
)
    requires
        call_ensures(EightCC::mix, (tag, other), r),
        call_ensures(EightCC::mix_str, (tag, text), q),
        0 <= i < 8,
    ensures
        tag@[i] < 128 ==> r@[i] == tag@[i] && q@[i] == tag@[i],
        tag@[i] >= 128 ==> is_hash_byte(r@[i], fnv(tag@ + other@), i) && is_hash_byte(
            q@[i],
            fnv(tag@ + text.spec_bytes()),
            i,
        ),
{
    let x = le_bytes(fnv(tag@ + other@) as nat, 8)[i];
    assert(x | 0x80 >= 0x80) by (bit_vector);
    let y = le_bytes(fnv(tag@ + text.spec_bytes()) as nat, 8)[i];
    assert(y | 0x80 >= 0x80) by (bit_vector);
}

/// A byte in small letters.
pub open spec fn small(b: u8) -> u8 {
    if 65 <= b <= 90 {
        (b + 32) as u8
    } else {
        b
    }
}

/// Whether these are the bytes that a tag was asked to start with, or else those that the name
/// gives.
pub open spec fn starts_as_asked(asked: Option<String>, by_name: Seq<u8>, start: Seq<u8>) -> bool {
    match asked {
        Some(text) => start == encode_utf8(text@),
        None => start == by_name,
    }
}

/// The tags of a struct have one hash. Each starts as it was asked to; else that of the block
/// starts by the name, and that of the control block like that of the block, in small letters.
pub proof fn law_a_struct_is_tagged_by_its_name(
    package: &str,
    name: &str,
    tag: &Option<String>,
    ctrl_tag: &Option<String>,
    r: Tags,
    hash: u64,
    by_name: Vec<u8>,
    start: &Vec<u8>,
    data: Tag,
    small_start: &Vec<u8>,
    control: Tag,
)
    requires
        call_ensures(block_tags, (package, name, tag, ctrl_tag), r),
        call_ensures(type_hash, (package, name), hash),
        call_ensures(auto_prefix, (name,), by_name),
        starts_as_asked(*tag, by_name@, start@),
        call_ensures(build_tag, (hash, start), data),
        match *ctrl_tag {
            Some(text) => small_start@ == encode_utf8(text@),
            None => small_start@.len() == start@.len() && forall|i: int|
                0 <= i < start@.len() ==> #[trigger] small_start@[i] == small(start@[i]),
        },
        call_ensures(build_tag, (hash, small_start), control),
    ensures
        r.data.bytes@ == data.bytes@,
        r.data.truncated == data.truncated,
        r.control.bytes@ == control.bytes@,
        r.control.truncated == control.truncated,
{
    if ctrl_tag is None {
        let want = start@.map_values(|b: u8| crate::derive::tag::lower(b));
        assert(small_start@ =~= want);
    }
}

/// The tag of an enum starts as it was asked to, or by the name; that of its control block is made
/// only where it was asked for, and refused exactly where it would be the same.
pub proof fn law_an_enum_is_tagged_by_its_name(
    package: &str,
    name: &str,
    tag: &Option<String>,
    ctrl_tag: &Option<String>,
    r: Result<(Tag, Option<Tag>), Problem>,
    hash: u64,
    by_name: Vec<u8>,
    start: &Vec<u8>,
    data: Tag,
    other_start: &Vec<u8>,
    control: Tag,
)
    requires
        call_ensures(enum_tags, (package, name, tag, ctrl_tag), r),
        call_ensures(type_hash, (package, name), hash),
        call_ensures(auto_prefix, (name,), by_name),
        starts_as_asked(*tag, by_name@, start@),
        call_ensures(build_tag, (hash, start), data),
        *ctrl_tag matches Some(text) ==> other_start@ == encode_utf8(text@),
        call_ensures(build_tag, (hash, other_start), control),
    ensures
        r is Err <==> ctrl_tag is Some && control.bytes@ == data.bytes@,
        r matches Err(p) ==> p == Problem::SameControlTag,
        r matches Ok(t) ==> {
            &&& t.0.bytes@ == data.bytes@
            &&& t.0.truncated == data.truncated
            &&& t.1 is Some <==> ctrl_tag is Some
            &&& t.1 matches Some(c) ==> c.bytes@ == control.bytes@ && c.truncated
                == control.truncated && c.bytes@ != t.0.bytes@
        },
{
}

/// There is a warning exactly where a tag had to be cut off, and that was not let pass.
pub proof fn law_a_cut_tag_calls_for_a_warning(cut: bool, allowed: bool, passed: bool, r: bool)
    requires
        call_ensures(warns_of_length, (cut, allowed, passed), r),
    ensures
        r <==> cut && !allowed && !passed,
{
}

/// The tag of a struct takes in each of its parameters, in order: the tag of a block, the size of
/// plain bytes, and the value of a constant.
pub proof fn law_the_tag_of_a_struct_takes_in_its_parameters(plan: &BlockPlan, r: Vec<Mix>, i: int)
    requires
        plan.types@.len() == plan.names.types@.len(),
        call_ensures(tag_mixes, (plan,), r),
        0 <= i < r@.len(),
    ensures
        r@.len() == plan.names.types@.len() + plan.names.consts@.len(),
        ({
            let n = plan.names.types@.len();
            if i < n {
                if plan.types@[i].bounds.pod {
                    r@[i] matches Mix::Size(s) && s@ == plan.names.types@[i]@
                } else {
                    r@[i] matches Mix::Tag(s) && s@ == plan.names.types@[i]@
                }
            } else {
                r@[i] matches Mix::Value(s) && s@ == plan.names.consts@[i - n]@
            }
        }),
{
    assert(mix_views(r@).len() == r@.len());
    assert(mix_views(r@)[i] == r@[i]@);
    let n = plan.names.types@.len();
    assert(texts(plan.names.types@).len() == n);
    assert(texts(plan.names.consts@).len() == plan.names.consts@.len());
    if i < n {
        assert(texts(plan.names.types@)[i] == plan.names.types@[i]@);
    } else {
        assert(texts(plan.names.consts@)[i - n] == plan.names.consts@[i - n]@);
    }
}

/// The tag of an enum takes in each of its type parameters, in order, and then its module; that
/// of its control block, where it was asked for, its module alone.
pub proof fn law_the_tag_of_an_enum_takes_in_its_parameters(
    types: &Vec<String>,
    r: Vec<Mix>,
    c: Vec<Mix>,
    i: int,
)
    requires
        call_ensures(enum_mixes, (types,), r),
        call_ensures(control_mixes, (), c),
        0 <= i < types@.len(),
    ensures
        r@.len() == types@.len() + 1,
        r@[i] matches Mix::Tag(s) && s@ == types@[i]@,
        r@.last() is Module,
        c@.len() == 1 && c@[0] is Module,
{
    assert(mix_views(r@).len() == r@.len());
    assert(mix_views(c@).len() == c@.len());
    assert(mix_views(r@)[i] == r@[i]@);
    assert(texts(types@)[i] == types@[i]@);
    let n = types@.len() as int;
    assert(texts(types@).len() == n);
    assert(mix_views(r@)[n] == r@[n]@);
    assert(mix_views(c@)[0] == c@[0]@);
}

/// Whether a word starts at this character: one that is alphanumeric, at the start, behind one that
/// is not, at a large letter behind a small one, or at the last of several large letters before a
/// small one.
pub open spec fn starts_word(cs: Seq<Letter>, i: int) -> bool {
    cs[i].alphanumeric && (i == 0 || !cs[i - 1].alphanumeric || (cs[i].uppercase && (cs[i
        - 1].lowercase || (cs[i - 1].uppercase && i + 1 < cs.len() && cs[i + 1].lowercase))))
}

/// How many words start among the first `n` characters.
pub open spec fn word_starts(cs: Seq<Letter>, n: int) -> nat
    decreases n,
{
    if n <= 0 {
        0
    } else {
        word_starts(cs, n - 1) + if starts_word(cs, n - 1) {
            1nat
        } else {
            0
        }
    }
}

proof fn lemma_word_starts(cs: Seq<Letter>, n: int)
    requires
        0 <= n <= cs.len(),
    ensures
        split_at(cs, n).0.len() + (if split_at(cs, n).1.len() > 0 {
            1int
        } else {
            0
        }) == word_starts(cs, n),
        n > 0 ==> (split_at(cs, n).1.len() > 0 <==> cs[n - 1].alphanumeric),
        n == 0 ==> split_at(cs, n).1.len() == 0,
    decreases n,
{
    if n > 0 {
        lemma_word_starts(cs, n - 1);
    }
}

/// A name has as many words as start in it, and all its letters and digits are in them, in order.
pub proof fn law_a_name_has_the_words_that_start_in_it(cs: &Vec<Letter>, r: Vec<String>)
    requires
        call_ensures(words_in, (cs,), r),
    ensures
        r@.len() == word_starts(cs@, cs@.len() as int),
        joined(word_texts(r@)) == alphanumerics(cs@),
{
    lemma_word_starts(cs@, cs@.len() as int);
    law_words_lose_nothing(cs@);
    assert(word_texts(r@).len() == r@.len());
}

/// The first letter, and of the others those that are no vowels.
pub open spec fn skeleton(letters: Seq<u8>) -> Seq<u8> {
    if letters.len() == 0 {
        Seq::empty()
    } else {
        seq![letters[0]] + without_vowels(letters.skip(1))
    }
}

/// The bytes that are no vowels.
pub open spec fn without_vowels(s: Seq<u8>) -> Seq<u8>
    decreases s.len(),
{
    if s.len() == 0 {
        s
    } else if vowel(s.last()) {
        without_vowels(s.drop_last())
    } else {
        without_vowels(s.drop_last()).push(s.last())
    }
}

/// Whether a byte is a vowel, large or small.
pub open spec fn vowel(b: u8) -> bool {
    b == 65 || b == 69 || b == 73 || b == 79 || b == 85 || b == 89 || b == 97 || b == 101 || b
        == 105 || b == 111 || b == 117 || b == 121
}

proof fn lemma_skeleton(letters: Seq<u8>)
    ensures
        consonants(letters) == skeleton(letters),
    decreases letters.len(),
{
    if letters.len() == 1 {
        assert(letters.skip(1) =~= Seq::empty());
        assert(letters.drop_last() =~= Seq::empty());
        assert(consonants(letters.drop_last()) =~= Seq::empty());
        assert(without_vowels(letters.skip(1)) =~= Seq::empty());
        assert(letters.last() == letters[0]);
        assert(consonants(letters) =~= skeleton(letters));
    } else if letters.len() > 1 {
        let init = letters.drop_last();
        lemma_skeleton(init);
        let rest = letters.skip(1);
        assert(rest.drop_last() =~= init.skip(1));
        assert(rest.last() == letters.last());
        assert(is_vowel(letters.last()) == vowel(letters.last()));
        assert(init[0] == letters[0]);
        assert(without_vowels(rest) == if vowel(letters.last()) {
            without_vowels(init.skip(1))
        } else {
            without_vowels(init.skip(1)).push(letters.last())
        });
        assert(consonants(letters) =~= skeleton(letters));
    } else {
        assert(consonants(letters) =~= skeleton(letters));
    }
}

/// A name of several words starts its tag with their initials, five at most; a name of one word
/// with its first letter and its consonants, five at most, or with its first two letters where
/// that leaves less than two.
pub proof fn law_a_name_starts_its_tag(cs: &Vec<Letter>, words: Vec<String>, r: Vec<u8>)
    requires
        call_ensures(words_in, (cs,), words),
        call_ensures(prefix_in, (cs,), r),
    ensures
        words@.len() >= 2 ==> {
            &&& r@.len() == (if words@.len() < 5 {
                words@.len() as int
            } else {
                5
            })
            &&& forall|i: int|
                0 <= i < r@.len() ==> #[trigger] r@[i] == upper(encode_utf8(words@[i]@)[0])
        },
        words@.len() == 1 ==> {
            let letters = letters_of(encode_utf8(words@[0]@));
            let bones = skeleton(letters);
            if bones.len() >= 2 {
                r@ == (if bones.len() <= 5 {
                    bones
                } else {
                    bones.take(5)
                })
            } else if letters.len() >= 2 {
                r@ == letters.take(2)
            } else if letters.len() == 1 {
                r@ == seq![letters[0], letters[0]]
            } else {
                r@ == seq![88u8, 88u8]
            }
        },
        words@.len() == 0 ==> r@ == seq![88u8, 88u8],
{
    assert(word_texts(words@).len() == words@.len());
    if words@.len() >= 2 {
        assert forall|i: int| 0 <= i < r@.len() implies #[trigger] r@[i] == upper(
            encode_utf8(words@[i]@)[0],
        ) by {
            assert(word_texts(words@)[i] == words@[i]@);
        }
    } else if words@.len() == 1 {
        assert(word_texts(words@)[0] == words@[0]@);
        let letters = letters_of(encode_utf8(words@[0]@));
        lemma_skeleton(letters);
        if letters.len() == 2 {
            assert(letters.take(2) =~= letters);
        }
    } else {
        let none = Seq::<u8>::empty();
        lemma_skeleton(none);
    }
}

} // verus!
