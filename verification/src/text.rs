//! Shared utilities for reasoning about UTF-8 text: the correspondence
//! between a string's characters and its bytes, character boundaries, and a
//! few small conversions that the text types are built on.

use vstd::prelude::*;
use vstd::utf8::*;
use vstd::string::StringSliceAdditionalSpecFns;

verus! {

/// The UTF-8 bytes of a string value.
pub open spec fn string_bytes(s: String) -> Seq<u8> {
    encode_utf8(s@)
}

broadcast use {
    vstd::utf8::encode_utf8_valid_utf8,
    vstd::utf8::encode_utf8_decode_utf8,
    vstd::utf8::decode_utf8_encode_utf8,
    vstd::utf8::is_char_boundary_start_end_of_seq,
};

/// The encoding of a one-character sequence is the encoding of its scalar.
pub proof fn lemma_encode_singleton(c: char)
    ensures
        encode_utf8(seq![c]) == encode_scalar(c as u32),
{
    char_is_scalar(c);
    let s = seq![c];
    assert(s.len() == 1);
    assert(s[0] == c);
    assert(s.drop_first() =~= Seq::<char>::empty());
    assert(encode_utf8(s.drop_first()) =~= Seq::<u8>::empty());
    assert(encode_utf8(s) == encode_scalar(c as u32) + encode_utf8(s.drop_first()));
    assert(encode_scalar(c as u32) + Seq::<u8>::empty() =~= encode_scalar(c as u32));
}

/// The encoding of a concatenation is the concatenation of the encodings.
pub proof fn lemma_encode_utf8_concat(a: Seq<char>, b: Seq<char>)
    ensures
        encode_utf8(a + b) == encode_utf8(a) + encode_utf8(b),
    decreases a.len(),
{
    if a.len() == 0 {
        assert(a + b =~= b);
        assert(encode_utf8(a) =~= Seq::<u8>::empty());
        assert(encode_utf8(a) + encode_utf8(b) =~= encode_utf8(b));
    } else {
        assert((a + b).drop_first() =~= a.drop_first() + b);
        lemma_encode_utf8_concat(a.drop_first(), b);
        assert(encode_utf8(a + b) =~= encode_utf8(a) + encode_utf8(b));
    }
}

/// The encoding splits at any character index.
pub proof fn lemma_encode_utf8_split(chars: Seq<char>, k: int)
    requires
        0 <= k <= chars.len(),
    ensures
        encode_utf8(chars) == encode_utf8(chars.take(k)) + encode_utf8(chars.skip(k)),
{
    assert(chars =~= chars.take(k) + chars.skip(k));
    lemma_encode_utf8_concat(chars.take(k), chars.skip(k));
}

/// An encoding is empty exactly when the character sequence is empty.
pub proof fn lemma_encode_utf8_len_zero(chars: Seq<char>)
    ensures
        encode_utf8(chars).len() == 0 <==> chars.len() == 0,
{
    if chars.len() != 0 {
        proof_encode_scalar_len(chars[0]);
    }
}

proof fn proof_encode_scalar_len(c: char)
    ensures
        1 <= encode_scalar(c as u32).len() <= 4,
{
}

/// Adding one more character to a prefix extends its encoded length by the
/// byte width of that character.
pub proof fn lemma_encode_take_succ(chars: Seq<char>, k: int)
    requires
        0 <= k < chars.len(),
    ensures
        encode_utf8(chars.take(k + 1)).len() == encode_utf8(chars.take(k)).len() + encode_scalar(
            chars[k] as u32,
        ).len(),
{
    assert(chars.take(k + 1) =~= chars.take(k) + seq![chars[k]]);
    lemma_encode_utf8_concat(chars.take(k), seq![chars[k]]);
    lemma_encode_singleton(chars[k]);
}

/// The byte length of the encoding of every character prefix is a character
/// boundary of the full encoding.
pub proof fn lemma_char_prefix_is_boundary(chars: Seq<char>, k: int)
    requires
        0 <= k <= chars.len(),
    ensures
        is_char_boundary(encode_utf8(chars), encode_utf8(chars.take(k)).len() as int),
    decreases k,
{
    let bytes = encode_utf8(chars);
    if k == 0 {
        assert(encode_utf8(chars.take(0)) =~= Seq::<u8>::empty());
    } else {
        encode_utf8_first_scalar(chars);
        let w = encode_scalar(chars[0] as u32).len() as int;
        assert(pop_first_scalar(bytes) =~= encode_utf8(chars.drop_first()));
        lemma_char_prefix_is_boundary(chars.drop_first(), k - 1);
        assert(chars.take(k).drop_first() =~= chars.drop_first().take(k - 1));
        assert(encode_utf8(chars.take(k)).len() == w + encode_utf8(
            chars.drop_first().take(k - 1),
        ).len()) by {
            assert(chars.take(k) =~= seq![chars[0]] + chars.drop_first().take(k - 1));
            lemma_encode_utf8_concat(seq![chars[0]], chars.drop_first().take(k - 1));
            lemma_encode_singleton(chars[0]);
        }
        lemma_encode_utf8_len_zero(chars.take(k));
    }
}

/// Every character boundary of an encoding is the byte length of the encoding
/// of some character prefix.
pub proof fn lemma_boundary_is_char_prefix(chars: Seq<char>, i: int)
    requires
        is_char_boundary(encode_utf8(chars), i),
    ensures
        exists|k: int|
            0 <= k <= chars.len() && encode_utf8(chars.take(k)).len() == i,
    decreases chars.len(),
{
    let bytes = encode_utf8(chars);
    if i == 0 {
        assert(encode_utf8(chars.take(0)).len() == 0) by {
            assert(chars.take(0) =~= Seq::<char>::empty());
        }
    } else {
        assert(chars.len() > 0) by {
            lemma_encode_utf8_len_zero(chars);
        }
        encode_utf8_first_scalar(chars);
        let w = length_of_first_scalar(bytes);
        assert(pop_first_scalar(bytes) =~= encode_utf8(chars.drop_first()));
        assert(is_char_boundary(encode_utf8(chars.drop_first()), i - w));
        lemma_boundary_is_char_prefix(chars.drop_first(), i - w);
        let k0 = choose|k0: int|
            0 <= k0 <= chars.drop_first().len() && encode_utf8(chars.drop_first().take(k0)).len()
                == i - w;
        assert(encode_utf8(chars.take(k0 + 1)).len() == i) by {
            assert(chars.take(k0 + 1) =~= seq![chars[0]] + chars.drop_first().take(k0));
            lemma_encode_utf8_concat(seq![chars[0]], chars.drop_first().take(k0));
            lemma_encode_singleton(chars[0]);
        }
    }
}

/// Relative to a character boundary, a byte offset is a boundary of the whole
/// sequence exactly when it is a boundary of the suffix that starts there.
pub proof fn lemma_boundary_subrange(bytes: Seq<u8>, i: int, k: int)
    requires
        valid_utf8(bytes),
        is_char_boundary(bytes, i),
        0 <= i,
        0 <= k,
    ensures
        is_char_boundary(bytes, i + k) <==> is_char_boundary(
            bytes.subrange(i, bytes.len() as int),
            k,
        ),
    decreases i,
{
    broadcast use vstd::utf8::valid_utf8_split;

    if i == 0 {
        assert(bytes.subrange(0, bytes.len() as int) =~= bytes);
    } else {
        let w = length_of_first_scalar(bytes);
        let rest = pop_first_scalar(bytes);
        assert(1 <= w <= 4);
        assert(is_char_boundary(rest, i - w));
        assert(i - w >= 0);
        lemma_boundary_subrange(rest, i - w, k);
        assert(bytes.subrange(i, bytes.len() as int) =~= rest.subrange(i - w, rest.len() as int));
    }
}

/// After an ASCII byte that starts a character, the next byte offset is also
/// a character boundary.
pub proof fn lemma_ascii_boundary_step(bytes: Seq<u8>, i: int)
    requires
        valid_utf8(bytes),
        is_char_boundary(bytes, i),
        0 <= i < bytes.len(),
        bytes[i] <= 0x7f,
    ensures
        is_char_boundary(bytes, i + 1),
{
    broadcast use vstd::utf8::valid_utf8_split;

    let suffix = bytes.subrange(i, bytes.len() as int);
    assert(valid_utf8(suffix));
    assert(suffix[0] == bytes[i]);
    assert(is_leading_byte_width_1(suffix[0]));
    assert(length_of_first_scalar(suffix) == 1);
    assert(is_char_boundary(pop_first_scalar(suffix), 0));
    assert(is_char_boundary(suffix, 1));
    lemma_boundary_subrange(bytes, i, 1);
}

/// The encoded length of a character prefix grows strictly with the prefix.
pub proof fn lemma_encode_take_monotone(chars: Seq<char>, k1: int, k2: int)
    requires
        0 <= k1 <= k2 <= chars.len(),
    ensures
        encode_utf8(chars.take(k1)).len() <= encode_utf8(chars.take(k2)).len(),
        k1 < k2 ==> encode_utf8(chars.take(k1)).len() < encode_utf8(chars.take(k2)).len(),
    decreases k2 - k1,
{
    if k1 < k2 {
        lemma_encode_take_succ(chars, k2 - 1);
        proof_encode_scalar_len(chars[k2 - 1]);
        lemma_encode_take_monotone(chars, k1, k2 - 1);
    }
}

/// After any character boundary below the length, the next boundary is one
/// character's width away.
pub proof fn lemma_boundary_next_char(bytes: Seq<u8>, i: int)
    requires
        valid_utf8(bytes),
        is_char_boundary(bytes, i),
        0 <= i < bytes.len(),
    ensures
        is_char_boundary(bytes, i + length_of_first_scalar(bytes.subrange(i, bytes.len() as int))),
        1 <= length_of_first_scalar(bytes.subrange(i, bytes.len() as int)) <= 4,
{
    broadcast use vstd::utf8::valid_utf8_split;

    let suffix = bytes.subrange(i, bytes.len() as int);
    assert(valid_utf8(suffix));
    let w = length_of_first_scalar(suffix);
    assert(1 <= w <= 4);
    assert(is_char_boundary(pop_first_scalar(suffix), 0));
    assert(is_char_boundary(suffix, w));
    lemma_boundary_subrange(bytes, i, w);
}

/// The decoded characters of the byte prefix up to the encoded length of a
/// character prefix are exactly that character prefix.
pub proof fn lemma_decode_char_prefix(chars: Seq<char>, k: int)
    requires
        0 <= k <= chars.len(),
    ensures
        decode_utf8(
            encode_utf8(chars).subrange(0, encode_utf8(chars.take(k)).len() as int),
        ) == chars.take(k),
        decode_utf8(
            encode_utf8(chars).subrange(
                encode_utf8(chars.take(k)).len() as int,
                encode_utf8(chars).len() as int,
            ),
        ) == chars.skip(k),
{
    lemma_encode_utf8_split(chars, k);
    let pre = encode_utf8(chars.take(k));
    let post = encode_utf8(chars.skip(k));
    assert(encode_utf8(chars).subrange(0, pre.len() as int) =~= pre);
    assert(encode_utf8(chars).subrange(pre.len() as int, encode_utf8(chars).len() as int)
        =~= post);
}

/// The bytes between the encoded lengths of two character prefixes are the
/// encoding of the characters between those prefixes.
pub proof fn lemma_encode_mid(chars: Seq<char>, k1: int, k2: int)
    requires
        0 <= k1 <= k2 <= chars.len(),
    ensures
        encode_utf8(chars).subrange(
            encode_utf8(chars.take(k1)).len() as int,
            encode_utf8(chars.take(k2)).len() as int,
        ) == encode_utf8(chars.subrange(k1, k2)),
        encode_utf8(chars.take(k2)).len() == encode_utf8(chars.take(k1)).len() + encode_utf8(
            chars.subrange(k1, k2),
        ).len(),
{
    lemma_encode_utf8_split(chars, k2);
    assert(chars.take(k2) =~= chars.take(k1) + chars.subrange(k1, k2));
    lemma_encode_utf8_concat(chars.take(k1), chars.subrange(k1, k2));
    let a = encode_utf8(chars.take(k1));
    let m = encode_utf8(chars.subrange(k1, k2));
    let z = encode_utf8(chars.skip(k2));
    assert(encode_utf8(chars) =~= a + m + z);
    assert((a + m + z).subrange(a.len() as int, a.len() as int + m.len() as int) =~= m);
}

/// Relies on `String::from_utf8`: succeeds exactly when the bytes are a valid
/// UTF-8 encoding, and then returns the string of exactly those bytes.
#[verifier::external_body]
pub(crate) fn try_string_from_utf8(v: Vec<u8>) -> (r: Option<String>)
    ensures
        r is Some <==> valid_utf8(v@),
        r matches Some(s) ==> string_bytes(s) == v@,
{
    String::from_utf8(v).ok()
}

/// Relies on `char::to_string`: the resulting string consists of exactly the
/// given character.
#[verifier::external_body]
pub(crate) fn char_to_string(c: char) -> (r: String)
    ensures
        r@ == seq![c],
{
    c.to_string()
}

/// The number of bytes in the UTF-8 encoding of a character.
pub fn char_utf8_len(c: char) -> (r: usize)
    ensures
        r == encode_scalar(c as u32).len(),
        1 <= r <= 4,
{
    proof {
        char_is_scalar(c);
    }
    let u = c as u32;
    if u < 0x80 {
        1
    } else if u < 0x800 {
        2
    } else if u < 0x10000 {
        3
    } else {
        4
    }
}

/// Two strings are equal exactly when their character views are equal.
pub fn eq_str(a: &str, b: &str) -> (r: bool)
    ensures
        r == (a@ == b@),
{
    let ab = a.as_bytes();
    let bb = b.as_bytes();
    if ab.len() != bb.len() {
        proof {
            if a@ == b@ {
                assert(a.spec_bytes() == b.spec_bytes());
            }
        }
        return false;
    }
    let mut i: usize = 0;
    while i < ab.len()
        invariant
            i <= ab@.len(),
            ab@.len() == bb@.len(),
            ab@ == a.spec_bytes(),
            bb@ == b.spec_bytes(),
            forall|j: int| 0 <= j < i ==> ab@[j] == bb@[j],
        decreases ab@.len() - i,
    {
        if ab[i] != bb[i] {
            proof {
                if a@ == b@ {
                    assert(a.spec_bytes() == b.spec_bytes());
                }
            }
            return false;
        }
        i = i + 1;
    }
    proof {
        assert(a.spec_bytes() =~= b.spec_bytes());
        assert(decode_utf8(a.spec_bytes()) == a@);
        assert(decode_utf8(b.spec_bytes()) == b@);
    }
    true
}

/// The substring of `s` covering the byte range `[start, end)`, which must
/// fall on character boundaries.
pub fn substr_range<'a>(s: &'a str, start: usize, end: usize) -> (r: &'a str)
    requires
        start <= end <= s.spec_bytes().len(),
        is_char_boundary(s.spec_bytes(), start as int),
        is_char_boundary(s.spec_bytes(), end as int),
    ensures
        r.spec_bytes() == s.spec_bytes().subrange(start as int, end as int),
        r@ == decode_utf8(s.spec_bytes().subrange(start as int, end as int)),
{
    broadcast use vstd::utf8::valid_utf8_split;

    let (_, tail) = s.split_at(start);
    proof {
        lemma_boundary_subrange(s.spec_bytes(), start as int, (end - start) as int);
        assert(tail.spec_bytes() =~= s.spec_bytes().subrange(
            start as int,
            s.spec_bytes().len() as int,
        ));
    }
    let (mid, _) = tail.split_at(end - start);
    proof {
        assert(mid.spec_bytes() =~= s.spec_bytes().subrange(start as int, end as int));
        assert(decode_utf8(mid.spec_bytes()) == mid@);
    }
    mid
}

/// True when the character has the Unicode white-space property, as `trim`
/// understands it.
pub open spec fn spec_is_whitespace(c: char) -> bool {
    ||| c == '\u{9}'
    ||| c == '\u{a}'
    ||| c == '\u{b}'
    ||| c == '\u{c}'
    ||| c == '\u{d}'
    ||| c == ' '
    ||| c == '\u{85}'
    ||| c == '\u{a0}'
    ||| c == '\u{1680}'
    ||| ('\u{2000}' <= c <= '\u{200a}')
    ||| c == '\u{2028}'
    ||| c == '\u{2029}'
    ||| c == '\u{202f}'
    ||| c == '\u{205f}'
    ||| c == '\u{3000}'
}

pub fn is_whitespace_char(c: char) -> (r: bool)
    ensures
        r == spec_is_whitespace(c),
{
    c == '\u{9}' || c == '\u{a}' || c == '\u{b}' || c == '\u{c}' || c == '\u{d}' || c == ' '
        || c == '\u{85}' || c == '\u{a0}' || c == '\u{1680}' || ('\u{2000}' <= c && c
        <= '\u{200a}') || c == '\u{2028}' || c == '\u{2029}' || c == '\u{202f}' || c == '\u{205f}'
        || c == '\u{3000}'
}

/// True when the character is a Unicode control character: the C0 range, the
/// delete character, and the C1 range.
pub open spec fn spec_is_control(c: char) -> bool {
    ('\u{0}' <= c <= '\u{1f}') || c == '\u{7f}' || ('\u{80}' <= c <= '\u{9f}')
}

pub fn is_control_char(c: char) -> (r: bool)
    ensures
        r == spec_is_control(c),
{
    ('\u{0}' <= c && c <= '\u{1f}') || c == '\u{7f}' || ('\u{80}' <= c && c <= '\u{9f}')
}

} // verus!
