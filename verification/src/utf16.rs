//! A verified UTF-16 codec over byte sequences, in both byte orders.

use vstd::prelude::*;
use vstd::utf8::is_scalar;
use vstd::utf8::char_is_scalar;
use vstd::utf8::char_u32_cast;
use crate::text::char_to_string;
use vstd::string::StringExecFns;

verus! {

/// The little-endian UTF-16 bytes of one character.
pub open spec fn spec_char_utf16le(c: char) -> Seq<u8> {
    let v = c as u32;
    if v < 0x10000 {
        seq![(v % 256) as u8, (v / 256) as u8]
    } else {
        let hi = 0xd800 + (v - 0x10000) / 0x400;
        let lo = 0xdc00 + (v - 0x10000) % 0x400;
        seq![(hi % 256) as u8, (hi / 256) as u8, (lo % 256) as u8, (lo / 256) as u8]
    }
}

/// The big-endian UTF-16 bytes of one character.
pub open spec fn spec_char_utf16be(c: char) -> Seq<u8> {
    let v = c as u32;
    if v < 0x10000 {
        seq![(v / 256) as u8, (v % 256) as u8]
    } else {
        let hi = 0xd800 + (v - 0x10000) / 0x400;
        let lo = 0xdc00 + (v - 0x10000) % 0x400;
        seq![(hi / 256) as u8, (hi % 256) as u8, (lo / 256) as u8, (lo % 256) as u8]
    }
}

/// The little-endian UTF-16 encoding of a character sequence.
pub open spec fn spec_utf16le_encode(chars: Seq<char>) -> Seq<u8>
    decreases chars.len(),
{
    if chars.len() == 0 {
        seq![]
    } else {
        spec_char_utf16le(chars[0]) + spec_utf16le_encode(chars.drop_first())
    }
}

/// The big-endian UTF-16 encoding of a character sequence.
pub open spec fn spec_utf16be_encode(chars: Seq<char>) -> Seq<u8>
    decreases chars.len(),
{
    if chars.len() == 0 {
        seq![]
    } else {
        spec_char_utf16be(chars[0]) + spec_utf16be_encode(chars.drop_first())
    }
}

/// The characters encoded little-endian in the bytes; nothing when the length
/// is odd or a surrogate is unpaired.
pub open spec fn spec_utf16le_decode(bytes: Seq<u8>) -> Option<Seq<char>>
    decreases bytes.len(),
{
    if bytes.len() == 0 {
        Some(seq![])
    } else if bytes.len() == 1 {
        None
    } else {
        let u = bytes[0] as int + 256 * (bytes[1] as int);
        if u < 0xd800 || u > 0xdfff {
            match spec_utf16le_decode(bytes.skip(2)) {
                Some(rest) => Some(seq![((u as u32) as char)] + rest),
                None => None,
            }
        } else if u < 0xdc00 {
            if bytes.len() >= 4 {
                let u2 = bytes[2] as int + 256 * (bytes[3] as int);
                if 0xdc00 <= u2 <= 0xdfff {
                    let v = 0x10000 + (u - 0xd800) * 0x400 + (u2 - 0xdc00);
                    match spec_utf16le_decode(bytes.skip(4)) {
                        Some(rest) => Some(seq![((v as u32) as char)] + rest),
                        None => None,
                    }
                } else {
                    None
                }
            } else {
                None
            }
        } else {
            None
        }
    }
}

/// The characters encoded big-endian in the bytes; nothing when the length is
/// odd or a surrogate is unpaired.
pub open spec fn spec_utf16be_decode(bytes: Seq<u8>) -> Option<Seq<char>>
    decreases bytes.len(),
{
    if bytes.len() == 0 {
        Some(seq![])
    } else if bytes.len() == 1 {
        None
    } else {
        let u = 256 * (bytes[0] as int) + bytes[1] as int;
        if u < 0xd800 || u > 0xdfff {
            match spec_utf16be_decode(bytes.skip(2)) {
                Some(rest) => Some(seq![((u as u32) as char)] + rest),
                None => None,
            }
        } else if u < 0xdc00 {
            if bytes.len() >= 4 {
                let u2 = 256 * (bytes[2] as int) + bytes[3] as int;
                if 0xdc00 <= u2 <= 0xdfff {
                    let v = 0x10000 + (u - 0xd800) * 0x400 + (u2 - 0xdc00);
                    match spec_utf16be_decode(bytes.skip(4)) {
                        Some(rest) => Some(seq![((v as u32) as char)] + rest),
                        None => None,
                    }
                } else {
                    None
                }
            } else {
                None
            }
        } else {
            None
        }
    }
}

/// Facts about a character's scalar value and its surrogate decomposition.
pub proof fn lemma_char_surrogates(c: char)
    ensures
        is_scalar(c as u32),
        c as u32 <= 0x10ffff,
        !(0xd800 <= c as u32 <= 0xdfff),
        c as u32 >= 0x10000 ==> {
            let v = c as u32;
            &&& 0 <= (v - 0x10000) / 0x400 <= 0x3ff
            &&& 0 <= (v - 0x10000) % 0x400 <= 0x3ff
            &&& ((v - 0x10000) / 0x400) * 0x400 + (v - 0x10000) % 0x400 == v - 0x10000
        },
{
    char_is_scalar(c);
    let v = c as u32;
    if v >= 0x10000 {
        let d = v - 0x10000;
        assert(0 <= d <= 0xfffff);
        assert(d / 0x400 <= 0x3ff && d % 0x400 <= 0x3ff && (d / 0x400) * 0x400 + d % 0x400 == d)
            by (nonlinear_arith)
            requires
                0 <= d <= 0xfffff,
        ;
    }
}

/// Appending a character extends the little-endian encoding by that
/// character's bytes.
pub proof fn lemma_utf16le_encode_push(chars: Seq<char>, c: char)
    ensures
        spec_utf16le_encode(chars.push(c)) == spec_utf16le_encode(chars) + spec_char_utf16le(c),
    decreases chars.len(),
{
    if chars.len() == 0 {
        assert(chars.push(c).drop_first() =~= chars);
        assert(spec_utf16le_encode(chars.push(c)) =~= spec_utf16le_encode(chars)
            + spec_char_utf16le(c));
    } else {
        assert(chars.push(c).drop_first() =~= chars.drop_first().push(c));
        lemma_utf16le_encode_push(chars.drop_first(), c);
        assert(spec_utf16le_encode(chars.push(c)) =~= spec_utf16le_encode(chars)
            + spec_char_utf16le(c));
    }
}

/// Appending a character extends the big-endian encoding by that character's
/// bytes.
pub proof fn lemma_utf16be_encode_push(chars: Seq<char>, c: char)
    ensures
        spec_utf16be_encode(chars.push(c)) == spec_utf16be_encode(chars) + spec_char_utf16be(c),
    decreases chars.len(),
{
    if chars.len() == 0 {
        assert(chars.push(c).drop_first() =~= chars);
        assert(spec_utf16be_encode(chars.push(c)) =~= spec_utf16be_encode(chars)
            + spec_char_utf16be(c));
    } else {
        assert(chars.push(c).drop_first() =~= chars.drop_first().push(c));
        lemma_utf16be_encode_push(chars.drop_first(), c);
        assert(spec_utf16be_encode(chars.push(c)) =~= spec_utf16be_encode(chars)
            + spec_char_utf16be(c));
    }
}

/// Decoding a little-endian encoding returns exactly the encoded characters.
pub proof fn lemma_utf16le_roundtrip(chars: Seq<char>)
    ensures
        spec_utf16le_decode(spec_utf16le_encode(chars)) == Some(chars),
    decreases chars.len(),
{
    if chars.len() == 0 {
        assert(spec_utf16le_encode(chars) =~= Seq::<u8>::empty());
    } else {
        let c = chars[0];
        lemma_char_surrogates(c);
        let v = c as u32;
        let bytes = spec_utf16le_encode(chars);
        let cb = spec_char_utf16le(c);
        lemma_utf16le_roundtrip(chars.drop_first());
        if v < 0x10000 {
            assert(bytes.len() >= 2);
            assert(bytes[0] == cb[0] && bytes[1] == cb[1]);
            assert(bytes[0] as int + 256 * (bytes[1] as int) == v) by {
                assert((v % 256) + 256 * (v / 256) == v) by (nonlinear_arith);
            }
            assert(bytes.skip(2) =~= spec_utf16le_encode(chars.drop_first()));
            char_u32_cast(c, v);
            assert(seq![c] + chars.drop_first() =~= chars);
        } else {
            let hi = 0xd800 + (v - 0x10000) / 0x400;
            let lo = 0xdc00 + (v - 0x10000) % 0x400;
            assert(bytes.len() >= 4);
            assert(bytes[0] == cb[0] && bytes[1] == cb[1] && bytes[2] == cb[2] && bytes[3]
                == cb[3]);
            assert(bytes[0] as int + 256 * (bytes[1] as int) == hi) by {
                assert((hi % 256) + 256 * (hi / 256) == hi) by (nonlinear_arith);
            }
            assert(bytes[2] as int + 256 * (bytes[3] as int) == lo) by {
                assert((lo % 256) + 256 * (lo / 256) == lo) by (nonlinear_arith);
            }
            assert(0xd800 <= hi < 0xdc00);
            assert(0xdc00 <= lo <= 0xdfff);
            assert(0x10000 + (hi - 0xd800) * 0x400 + (lo - 0xdc00) == v);
            assert(bytes.skip(4) =~= spec_utf16le_encode(chars.drop_first()));
            char_u32_cast(c, v);
            assert(seq![c] + chars.drop_first() =~= chars);
        }
    }
}

/// Decoding a big-endian encoding returns exactly the encoded characters.
pub proof fn lemma_utf16be_roundtrip(chars: Seq<char>)
    ensures
        spec_utf16be_decode(spec_utf16be_encode(chars)) == Some(chars),
    decreases chars.len(),
{
    if chars.len() == 0 {
        assert(spec_utf16be_encode(chars) =~= Seq::<u8>::empty());
    } else {
        let c = chars[0];
        lemma_char_surrogates(c);
        let v = c as u32;
        let bytes = spec_utf16be_encode(chars);
        let cb = spec_char_utf16be(c);
        lemma_utf16be_roundtrip(chars.drop_first());
        if v < 0x10000 {
            assert(bytes.len() >= 2);
            assert(bytes[0] == cb[0] && bytes[1] == cb[1]);
            assert(256 * (bytes[0] as int) + bytes[1] as int == v) by {
                assert((v % 256) + 256 * (v / 256) == v) by (nonlinear_arith);
            }
            assert(bytes.skip(2) =~= spec_utf16be_encode(chars.drop_first()));
            char_u32_cast(c, v);
            assert(seq![c] + chars.drop_first() =~= chars);
        } else {
            let hi = 0xd800 + (v - 0x10000) / 0x400;
            let lo = 0xdc00 + (v - 0x10000) % 0x400;
            assert(bytes.len() >= 4);
            assert(bytes[0] == cb[0] && bytes[1] == cb[1] && bytes[2] == cb[2] && bytes[3]
                == cb[3]);
            assert(256 * (bytes[0] as int) + bytes[1] as int == hi) by {
                assert((hi % 256) + 256 * (hi / 256) == hi) by (nonlinear_arith);
            }
            assert(256 * (bytes[2] as int) + bytes[3] as int == lo) by {
                assert((lo % 256) + 256 * (lo / 256) == lo) by (nonlinear_arith);
            }
            assert(0xd800 <= hi < 0xdc00);
            assert(0xdc00 <= lo <= 0xdfff);
            assert(0x10000 + (hi - 0xd800) * 0x400 + (lo - 0xdc00) == v);
            assert(bytes.skip(4) =~= spec_utf16be_encode(chars.drop_first()));
            char_u32_cast(c, v);
            assert(seq![c] + chars.drop_first() =~= chars);
        }
    }
}

/// Relies on `char::from_u32`: yields the character of a Unicode scalar
/// value, and nothing for surrogates and out-of-range values.
#[verifier::external_body]
pub(crate) fn char_from_u32(v: u32) -> (r: Option<char>)
    ensures
        r is Some <==> is_scalar(v),
        r matches Some(c) ==> c as u32 == v,
{
    char::from_u32(v)
}

/// Appends one character to a string.
pub(crate) fn push_char(s: &mut String, c: char)
    ensures
        final(s)@ == old(s)@ + seq![c],
{
    let cs = char_to_string(c);
    s.append(cs.as_str());
}

} // verus!
