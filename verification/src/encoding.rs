//! Character-encoding detection and conversion: UTF-8, UTF-16 in both byte
//! orders, Latin-1, Windows-1252 and ASCII, with byte-order-mark handling.

use vstd::prelude::*;
use vstd::utf8::*;
use vstd::string::StringSliceAdditionalSpecFns;
use vstd::string::StrSliceExecFns;
use crate::text::{string_bytes, try_string_from_utf8, eq_str};
use crate::utf16::{
    spec_utf16le_encode, spec_utf16be_encode, spec_utf16le_decode, spec_utf16be_decode,
    lemma_utf16le_encode_push, lemma_utf16be_encode_push, lemma_utf16le_roundtrip,
    lemma_utf16be_roundtrip, char_from_u32, push_char,
};

verus! {

broadcast use {
    vstd::utf8::encode_utf8_valid_utf8,
    vstd::utf8::encode_utf8_decode_utf8,
};

/// A supported character encoding.
#[derive(Clone, Copy, Debug, PartialEq, Eq, Structural, Hash)]
pub enum Encoding {
    UTF8,
    UTF16,
    UTF16LE,
    UTF16BE,
    LATIN1,
    WINDOWS1252,
    ASCII,
}

impl Encoding {
    /// The display name of the encoding.
    pub fn name(&self) -> (r: &'static str)
        ensures
            self is UTF8 ==> r@ == "UTF-8"@,
            self is UTF16 ==> r@ == "UTF-16"@,
            self is UTF16LE ==> r@ == "UTF-16LE"@,
            self is UTF16BE ==> r@ == "UTF-16BE"@,
            self is LATIN1 ==> r@ == "ISO-8859-1"@,
            self is WINDOWS1252 ==> r@ == "WINDOWS-1252"@,
            self is ASCII ==> r@ == "ASCII"@,
    {
        match self {
            Encoding::UTF8 => "UTF-8",
            Encoding::UTF16 => "UTF-16",
            Encoding::UTF16LE => "UTF-16LE",
            Encoding::UTF16BE => "UTF-16BE",
            Encoding::LATIN1 => "ISO-8859-1",
            Encoding::WINDOWS1252 => "WINDOWS-1252",
            Encoding::ASCII => "ASCII",
        }
    }

    /// Every supported encoding, in a fixed order.
    pub fn all() -> (r: Vec<Encoding>)
        ensures
            r@ =~= seq![
                Encoding::UTF8,
                Encoding::UTF16,
                Encoding::UTF16LE,
                Encoding::UTF16BE,
                Encoding::LATIN1,
                Encoding::WINDOWS1252,
                Encoding::ASCII,
            ],
    {
        let mut v: Vec<Encoding> = Vec::new();
        v.push(Encoding::UTF8);
        v.push(Encoding::UTF16);
        v.push(Encoding::UTF16LE);
        v.push(Encoding::UTF16BE);
        v.push(Encoding::LATIN1);
        v.push(Encoding::WINDOWS1252);
        v.push(Encoding::ASCII);
        v
    }

    /// The encoding of a display name.
    pub fn from_name(name: &str) -> (r: Option<Encoding>)
        ensures
            r == spec_encoding_from_name(name@),
    {
        if eq_str(name, "UTF-8") {
            Some(Encoding::UTF8)
        } else if eq_str(name, "UTF-16") {
            Some(Encoding::UTF16)
        } else if eq_str(name, "UTF-16LE") {
            Some(Encoding::UTF16LE)
        } else if eq_str(name, "UTF-16BE") {
            Some(Encoding::UTF16BE)
        } else if eq_str(name, "ISO-8859-1") {
            Some(Encoding::LATIN1)
        } else if eq_str(name, "WINDOWS-1252") {
            Some(Encoding::WINDOWS1252)
        } else if eq_str(name, "ASCII") {
            Some(Encoding::ASCII)
        } else {
            None
        }
    }
}

/// Which encoding a display name denotes.
pub open spec fn spec_encoding_from_name(name: Seq<char>) -> Option<Encoding> {
    if name == "UTF-8"@ {
        Some(Encoding::UTF8)
    } else if name == "UTF-16"@ {
        Some(Encoding::UTF16)
    } else if name == "UTF-16LE"@ {
        Some(Encoding::UTF16LE)
    } else if name == "UTF-16BE"@ {
        Some(Encoding::UTF16BE)
    } else if name == "ISO-8859-1"@ {
        Some(Encoding::LATIN1)
    } else if name == "WINDOWS-1252"@ {
        Some(Encoding::WINDOWS1252)
    } else if name == "ASCII"@ {
        Some(Encoding::ASCII)
    } else {
        None
    }
}

impl Default for Encoding {
    /// UTF-8.
    fn default() -> (r: Encoding)
        ensures
            r is UTF8,
    {
        Encoding::UTF8
    }
}

/// A failure to decode or encode a byte sequence.
#[derive(Clone, Debug)]
pub enum EncodingError {
    InvalidSequence(String),
    InvalidByte(u8),
    UnsupportedEncoding(String),
    ConversionFailed(String),
}

/// The byte-order mark that the given configuration writes.
pub open spec fn spec_bom(encoding: Encoding, with_bom: bool) -> Seq<u8> {
    if !with_bom {
        seq![]
    } else {
        match encoding {
            Encoding::UTF8 => seq![0xefu8, 0xbbu8, 0xbfu8],
            Encoding::UTF16LE => seq![0xffu8, 0xfeu8],
            Encoding::UTF16BE => seq![0xfeu8, 0xffu8],
            _ => seq![],
        }
    }
}

/// The bytes with one leading byte-order mark removed, if present.
pub open spec fn spec_skip_bom(bytes: Seq<u8>) -> Seq<u8> {
    if bytes.len() >= 3 && bytes[0] == 0xef && bytes[1] == 0xbb && bytes[2] == 0xbf {
        bytes.skip(3)
    } else if bytes.len() >= 2 && bytes[0] == 0xff && bytes[1] == 0xfe {
        bytes.skip(2)
    } else if bytes.len() >= 2 && bytes[0] == 0xfe && bytes[1] == 0xff {
        bytes.skip(2)
    } else {
        bytes
    }
}

/// The character denoted by a byte under Windows-1252, with the printable
/// characters that Windows-1252 places in the C1 control range.
pub open spec fn spec_w1252_char(b: u8) -> char {
    if b == 0x80 {
        '\u{20ac}'
    } else if b == 0x82 {
        '\u{201a}'
    } else if b == 0x83 {
        '\u{192}'
    } else if b == 0x84 {
        '\u{201e}'
    } else if b == 0x85 {
        '\u{2026}'
    } else if b == 0x86 {
        '\u{2020}'
    } else if b == 0x87 {
        '\u{2021}'
    } else if b == 0x88 {
        '\u{2c6}'
    } else if b == 0x89 {
        '\u{2030}'
    } else if b == 0x8a {
        '\u{160}'
    } else if b == 0x8b {
        '\u{2039}'
    } else if b == 0x8c {
        '\u{152}'
    } else if b == 0x8e {
        '\u{17d}'
    } else if b == 0x91 {
        '\u{2018}'
    } else if b == 0x92 {
        '\u{2019}'
    } else if b == 0x93 {
        '\u{201c}'
    } else if b == 0x94 {
        '\u{201d}'
    } else if b == 0x95 {
        '\u{2022}'
    } else if b == 0x96 {
        '\u{2013}'
    } else if b == 0x97 {
        '\u{2014}'
    } else if b == 0x98 {
        '\u{2dc}'
    } else if b == 0x99 {
        '\u{2122}'
    } else if b == 0x9a {
        '\u{161}'
    } else if b == 0x9b {
        '\u{203a}'
    } else if b == 0x9c {
        '\u{153}'
    } else if b == 0x9e {
        '\u{17e}'
    } else if b == 0x9f {
        '\u{178}'
    } else {
        b as char
    }
}

/// True when Windows-1252 has a byte for the character.
pub open spec fn spec_w1252_encodable(c: char) -> bool {
    spec_w1252_special(c) is Some || c as u32 <= 255
}

/// The byte for the characters that Windows-1252 places in the C1 range.
pub open spec fn spec_w1252_special(c: char) -> Option<u8> {
    if c == '\u{20ac}' {
        Some(0x80u8)
    } else if c == '\u{201a}' {
        Some(0x82u8)
    } else if c == '\u{192}' {
        Some(0x83u8)
    } else if c == '\u{201e}' {
        Some(0x84u8)
    } else if c == '\u{2026}' {
        Some(0x85u8)
    } else if c == '\u{2020}' {
        Some(0x86u8)
    } else if c == '\u{2021}' {
        Some(0x87u8)
    } else if c == '\u{2c6}' {
        Some(0x88u8)
    } else if c == '\u{2030}' {
        Some(0x89u8)
    } else if c == '\u{160}' {
        Some(0x8au8)
    } else if c == '\u{2039}' {
        Some(0x8bu8)
    } else if c == '\u{152}' {
        Some(0x8cu8)
    } else if c == '\u{17d}' {
        Some(0x8eu8)
    } else if c == '\u{2018}' {
        Some(0x91u8)
    } else if c == '\u{2019}' {
        Some(0x92u8)
    } else if c == '\u{201c}' {
        Some(0x93u8)
    } else if c == '\u{201d}' {
        Some(0x94u8)
    } else if c == '\u{2022}' {
        Some(0x95u8)
    } else if c == '\u{2013}' {
        Some(0x96u8)
    } else if c == '\u{2014}' {
        Some(0x97u8)
    } else if c == '\u{2dc}' {
        Some(0x98u8)
    } else if c == '\u{2122}' {
        Some(0x99u8)
    } else if c == '\u{161}' {
        Some(0x9au8)
    } else if c == '\u{203a}' {
        Some(0x9bu8)
    } else if c == '\u{153}' {
        Some(0x9cu8)
    } else if c == '\u{17e}' {
        Some(0x9eu8)
    } else if c == '\u{178}' {
        Some(0x9fu8)
    } else {
        None
    }
}

/// The byte Windows-1252 uses for a character.
pub open spec fn spec_w1252_byte(c: char) -> u8 {
    match spec_w1252_special(c) {
        Some(b) => b,
        None => (c as u32) as u8,
    }
}

/// The characters a byte sequence denotes under an encoding, once any
/// byte-order mark has been removed; nothing when the bytes are invalid for
/// the encoding.
pub open spec fn spec_decode(encoding: Encoding, data: Seq<u8>) -> Option<Seq<char>> {
    match encoding {
        Encoding::UTF8 => if valid_utf8(data) {
            Some(decode_utf8(data))
        } else {
            None
        },
        Encoding::UTF16 => spec_utf16le_decode(data),
        Encoding::UTF16LE => spec_utf16le_decode(data),
        Encoding::UTF16BE => spec_utf16be_decode(data),
        Encoding::LATIN1 => Some(Seq::new(data.len(), |i: int| data[i] as char)),
        Encoding::WINDOWS1252 => Some(Seq::new(data.len(), |i: int| spec_w1252_char(data[i]))),
        Encoding::ASCII => if forall|i: int| 0 <= i < data.len() ==> data[i] < 128 {
            Some(Seq::new(data.len(), |i: int| data[i] as char))
        } else {
            None
        },
    }
}

/// The bytes that an encoding uses for a character sequence, without any
/// byte-order mark; nothing when some character is not representable.
pub open spec fn spec_encode(encoding: Encoding, chars: Seq<char>) -> Option<Seq<u8>> {
    match encoding {
        Encoding::UTF8 => Some(encode_utf8(chars)),
        Encoding::UTF16 => Some(spec_utf16le_encode(chars)),
        Encoding::UTF16LE => Some(spec_utf16le_encode(chars)),
        Encoding::UTF16BE => Some(spec_utf16be_encode(chars)),
        Encoding::LATIN1 => if forall|i: int| 0 <= i < chars.len() ==> (chars[i] as u32) <= 255 {
            Some(Seq::new(chars.len(), |i: int| (chars[i] as u32) as u8))
        } else {
            None
        },
        Encoding::WINDOWS1252 => if forall|i: int|
            0 <= i < chars.len() ==> spec_w1252_encodable(chars[i]) {
            Some(Seq::new(chars.len(), |i: int| spec_w1252_byte(chars[i])))
        } else {
            None
        },
        Encoding::ASCII => if forall|i: int| 0 <= i < chars.len() ==> (chars[i] as u32) < 128 {
            Some(Seq::new(chars.len(), |i: int| (chars[i] as u32) as u8))
        } else {
            None
        },
    }
}

fn w1252_decode_char(b: u8) -> (r: char)
    ensures
        r == spec_w1252_char(b),
{
    if b == 0x80 {
        '\u{20ac}'
    } else if b == 0x82 {
        '\u{201a}'
    } else if b == 0x83 {
        '\u{192}'
    } else if b == 0x84 {
        '\u{201e}'
    } else if b == 0x85 {
        '\u{2026}'
    } else if b == 0x86 {
        '\u{2020}'
    } else if b == 0x87 {
        '\u{2021}'
    } else if b == 0x88 {
        '\u{2c6}'
    } else if b == 0x89 {
        '\u{2030}'
    } else if b == 0x8a {
        '\u{160}'
    } else if b == 0x8b {
        '\u{2039}'
    } else if b == 0x8c {
        '\u{152}'
    } else if b == 0x8e {
        '\u{17d}'
    } else if b == 0x91 {
        '\u{2018}'
    } else if b == 0x92 {
        '\u{2019}'
    } else if b == 0x93 {
        '\u{201c}'
    } else if b == 0x94 {
        '\u{201d}'
    } else if b == 0x95 {
        '\u{2022}'
    } else if b == 0x96 {
        '\u{2013}'
    } else if b == 0x97 {
        '\u{2014}'
    } else if b == 0x98 {
        '\u{2dc}'
    } else if b == 0x99 {
        '\u{2122}'
    } else if b == 0x9a {
        '\u{161}'
    } else if b == 0x9b {
        '\u{203a}'
    } else if b == 0x9c {
        '\u{153}'
    } else if b == 0x9e {
        '\u{17e}'
    } else if b == 0x9f {
        '\u{178}'
    } else {
        b as char
    }
}

fn w1252_encode_char(c: char) -> (r: Option<u8>)
    ensures
        r is Some <==> spec_w1252_encodable(c),
        r matches Some(b) ==> b == spec_w1252_byte(c),
{
    if c == '\u{20ac}' {
        Some(0x80)
    } else if c == '\u{201a}' {
        Some(0x82)
    } else if c == '\u{192}' {
        Some(0x83)
    } else if c == '\u{201e}' {
        Some(0x84)
    } else if c == '\u{2026}' {
        Some(0x85)
    } else if c == '\u{2020}' {
        Some(0x86)
    } else if c == '\u{2021}' {
        Some(0x87)
    } else if c == '\u{2c6}' {
        Some(0x88)
    } else if c == '\u{2030}' {
        Some(0x89)
    } else if c == '\u{160}' {
        Some(0x8a)
    } else if c == '\u{2039}' {
        Some(0x8b)
    } else if c == '\u{152}' {
        Some(0x8c)
    } else if c == '\u{17d}' {
        Some(0x8e)
    } else if c == '\u{2018}' {
        Some(0x91)
    } else if c == '\u{2019}' {
        Some(0x92)
    } else if c == '\u{201c}' {
        Some(0x93)
    } else if c == '\u{201d}' {
        Some(0x94)
    } else if c == '\u{2022}' {
        Some(0x95)
    } else if c == '\u{2013}' {
        Some(0x96)
    } else if c == '\u{2014}' {
        Some(0x97)
    } else if c == '\u{2dc}' {
        Some(0x98)
    } else if c == '\u{2122}' {
        Some(0x99)
    } else if c == '\u{161}' {
        Some(0x9a)
    } else if c == '\u{203a}' {
        Some(0x9b)
    } else if c == '\u{153}' {
        Some(0x9c)
    } else if c == '\u{17e}' {
        Some(0x9e)
    } else if c == '\u{178}' {
        Some(0x9f)
    } else {
        let u = c as u32;
        if u <= 255 {
            Some(u as u8)
        } else {
            None
        }
    }
}

/// Copies a byte slice into an owned vector.
fn bytes_to_vec(b: &[u8]) -> (r: Vec<u8>)
    ensures
        r@ == b@,
{
    let mut v: Vec<u8> = Vec::new();
    v.extend_from_slice(b);
    proof {
        assert(v@ =~= b@);
    }
    v
}

/// The little-endian UTF-16 bytes of a string.
fn encode_utf16le_str(s: &str) -> (r: Vec<u8>)
    ensures
        r@ == spec_utf16le_encode(s@),
{
    let ghost chars = s@;
    let n = s.unicode_len();
    let mut out: Vec<u8> = Vec::new();
    let mut k: usize = 0;
    proof {
        assert(chars.take(0) =~= Seq::<char>::empty());
        assert(out@ =~= spec_utf16le_encode(chars.take(0)));
    }
    while k < n
        invariant
            k <= n,
            n == chars.len(),
            chars == s@,
            out@ == spec_utf16le_encode(chars.take(k as int)),
        decreases n - k,
    {
        let c = s.get_char(k);
        proof {
            crate::utf16::lemma_char_surrogates(c);
            lemma_utf16le_encode_push(chars.take(k as int), c);
            assert(chars.take(k + 1) =~= chars.take(k as int).push(c));
        }
        let v = c as u32;
        if v < 0x10000 {
            out.push((v % 256) as u8);
            out.push((v / 256) as u8);
            proof {
                assert(v / 256 < 256) by (nonlinear_arith)
                    requires
                        v < 0x10000,
                ;
                assert(out@ =~= spec_utf16le_encode(chars.take(k + 1)));
            }
        } else {
            let d = v - 0x10000;
            let hi = 0xd800 + d / 0x400;
            let lo = 0xdc00 + d % 0x400;
            proof {
                assert(hi < 0x10000 && lo < 0x10000);
                assert(hi / 256 < 256 && lo / 256 < 256) by (nonlinear_arith)
                    requires
                        hi < 0x10000,
                        lo < 0x10000,
                ;
            }
            out.push((hi % 256) as u8);
            out.push((hi / 256) as u8);
            out.push((lo % 256) as u8);
            out.push((lo / 256) as u8);
            proof {
                assert(out@ =~= spec_utf16le_encode(chars.take(k + 1)));
            }
        }
        k = k + 1;
    }
    proof {
        assert(chars.take(n as int) =~= chars);
    }
    out
}

/// The big-endian UTF-16 bytes of a string.
fn encode_utf16be_str(s: &str) -> (r: Vec<u8>)
    ensures
        r@ == spec_utf16be_encode(s@),
{
    let ghost chars = s@;
    let n = s.unicode_len();
    let mut out: Vec<u8> = Vec::new();
    let mut k: usize = 0;
    proof {
        assert(chars.take(0) =~= Seq::<char>::empty());
        assert(out@ =~= spec_utf16be_encode(chars.take(0)));
    }
    while k < n
        invariant
            k <= n,
            n == chars.len(),
            chars == s@,
            out@ == spec_utf16be_encode(chars.take(k as int)),
        decreases n - k,
    {
        let c = s.get_char(k);
        proof {
            crate::utf16::lemma_char_surrogates(c);
            lemma_utf16be_encode_push(chars.take(k as int), c);
            assert(chars.take(k + 1) =~= chars.take(k as int).push(c));
        }
        let v = c as u32;
        if v < 0x10000 {
            proof {
                assert(v / 256 < 256) by (nonlinear_arith)
                    requires
                        v < 0x10000,
                ;
            }
            out.push((v / 256) as u8);
            out.push((v % 256) as u8);
            proof {
                assert(out@ =~= spec_utf16be_encode(chars.take(k + 1)));
            }
        } else {
            let d = v - 0x10000;
            let hi = 0xd800 + d / 0x400;
            let lo = 0xdc00 + d % 0x400;
            proof {
                assert(hi < 0x10000 && lo < 0x10000);
                assert(hi / 256 < 256 && lo / 256 < 256) by (nonlinear_arith)
                    requires
                        hi < 0x10000,
                        lo < 0x10000,
                ;
            }
            out.push((hi / 256) as u8);
            out.push((hi % 256) as u8);
            out.push((lo / 256) as u8);
            out.push((lo % 256) as u8);
            proof {
                assert(out@ =~= spec_utf16be_encode(chars.take(k + 1)));
            }
        }
        k = k + 1;
    }
    proof {
        assert(chars.take(n as int) =~= chars);
    }
    out
}

/// The string of little-endian UTF-16 bytes, when they are a valid encoding.
fn decode_utf16le_bytes(data: &[u8]) -> (r: Option<String>)
    ensures
        r is Some <==> spec_utf16le_decode(data@) is Some,
        r matches Some(s) ==> Some(s@) == spec_utf16le_decode(data@),
{
    let len = data.len();
    let mut acc = String::new();
    let mut i: usize = 0;
    proof {
        assert(data@.skip(0) =~= data@);
        if spec_utf16le_decode(data@) is Some {
            let rest = spec_utf16le_decode(data@)->Some_0;
            assert(acc@ + rest =~= rest);
        }
    }
    while i < len
        invariant
            i <= len,
            len == data@.len(),
            match spec_utf16le_decode(data@.skip(i as int)) {
                Some(rest) => spec_utf16le_decode(data@) == Some(acc@ + rest),
                None => spec_utf16le_decode(data@) is None,
            },
        decreases len - i,
    {
        let ghost tail = data@.skip(i as int);
        if i + 1 == len {
            return None;
        }
        let u: u32 = data[i] as u32 + 256 * (data[i + 1] as u32);
        proof {
            assert(tail[0] == data@[i as int] && tail[1] == data@[i + 1]);
        }
        if u < 0xd800 || u > 0xdfff {
            let c = match char_from_u32(u) {
                Some(c) => c,
                None => vstd::pervasive::unreached(),
            };
            push_char(&mut acc, c);
            proof {
                vstd::utf8::char_u32_cast(c, u);
                assert(tail.skip(2) =~= data@.skip(i + 2));
                let rest2 = spec_utf16le_decode(data@.skip(i + 2));
                if rest2 is Some {
                    assert(acc@ + rest2->Some_0 =~= (acc@.drop_last() + (seq![c]
                        + rest2->Some_0)));
                }
            }
            i = i + 2;
        } else if u < 0xdc00 {
            if len - i < 4 {
                return None;
            }
            let u2: u32 = data[i + 2] as u32 + 256 * (data[i + 3] as u32);
            proof {
                assert(tail[2] == data@[i + 2] && tail[3] == data@[i + 3]);
            }
            if 0xdc00 <= u2 && u2 <= 0xdfff {
                let v: u32 = 0x10000 + (u - 0xd800) * 0x400 + (u2 - 0xdc00);
                let c = match char_from_u32(v) {
                    Some(c) => c,
                    None => vstd::pervasive::unreached(),
                };
                push_char(&mut acc, c);
                proof {
                    vstd::utf8::char_u32_cast(c, v);
                    assert(tail.skip(4) =~= data@.skip(i + 4));
                    let rest2 = spec_utf16le_decode(data@.skip(i + 4));
                    if rest2 is Some {
                        assert(acc@ + rest2->Some_0 =~= (acc@.drop_last() + (seq![c]
                            + rest2->Some_0)));
                    }
                }
                i = i + 4;
            } else {
                return None;
            }
        } else {
            return None;
        }
    }
    proof {
        assert(data@.skip(len as int) =~= Seq::<u8>::empty());
        assert(acc@ + Seq::<char>::empty() =~= acc@);
    }
    Some(acc)
}

/// The string of big-endian UTF-16 bytes, when they are a valid encoding.
fn decode_utf16be_bytes(data: &[u8]) -> (r: Option<String>)
    ensures
        r is Some <==> spec_utf16be_decode(data@) is Some,
        r matches Some(s) ==> Some(s@) == spec_utf16be_decode(data@),
{
    let len = data.len();
    let mut acc = String::new();
    let mut i: usize = 0;
    proof {
        assert(data@.skip(0) =~= data@);
        if spec_utf16be_decode(data@) is Some {
            let rest = spec_utf16be_decode(data@)->Some_0;
            assert(acc@ + rest =~= rest);
        }
    }
    while i < len
        invariant
            i <= len,
            len == data@.len(),
            match spec_utf16be_decode(data@.skip(i as int)) {
                Some(rest) => spec_utf16be_decode(data@) == Some(acc@ + rest),
                None => spec_utf16be_decode(data@) is None,
            },
        decreases len - i,
    {
        let ghost tail = data@.skip(i as int);
        if i + 1 == len {
            return None;
        }
        let u: u32 = 256 * (data[i] as u32) + data[i + 1] as u32;
        proof {
            assert(tail[0] == data@[i as int] && tail[1] == data@[i + 1]);
        }
        if u < 0xd800 || u > 0xdfff {
            let c = match char_from_u32(u) {
                Some(c) => c,
                None => vstd::pervasive::unreached(),
            };
            push_char(&mut acc, c);
            proof {
                vstd::utf8::char_u32_cast(c, u);
                assert(tail.skip(2) =~= data@.skip(i + 2));
                let rest2 = spec_utf16be_decode(data@.skip(i + 2));
                if rest2 is Some {
                    assert(acc@ + rest2->Some_0 =~= (acc@.drop_last() + (seq![c]
                        + rest2->Some_0)));
                }
            }
            i = i + 2;
        } else if u < 0xdc00 {
            if len - i < 4 {
                return None;
            }
            let u2: u32 = 256 * (data[i + 2] as u32) + data[i + 3] as u32;
            proof {
                assert(tail[2] == data@[i + 2] && tail[3] == data@[i + 3]);
            }
            if 0xdc00 <= u2 && u2 <= 0xdfff {
                let v: u32 = 0x10000 + (u - 0xd800) * 0x400 + (u2 - 0xdc00);
                let c = match char_from_u32(v) {
                    Some(c) => c,
                    None => vstd::pervasive::unreached(),
                };
                push_char(&mut acc, c);
                proof {
                    vstd::utf8::char_u32_cast(c, v);
                    assert(tail.skip(4) =~= data@.skip(i + 4));
                    let rest2 = spec_utf16be_decode(data@.skip(i + 4));
                    if rest2 is Some {
                        assert(acc@ + rest2->Some_0 =~= (acc@.drop_last() + (seq![c]
                            + rest2->Some_0)));
                    }
                }
                i = i + 4;
            } else {
                return None;
            }
        } else {
            return None;
        }
    }
    proof {
        assert(data@.skip(len as int) =~= Seq::<u8>::empty());
        assert(acc@ + Seq::<char>::empty() =~= acc@);
    }
    Some(acc)
}

/// The bytes with one leading byte-order mark removed, if present.
fn skip_bom_slice<'a>(bytes: &'a [u8]) -> (r: &'a [u8])
    ensures
        r@ == spec_skip_bom(bytes@),
{
    if bytes.len() >= 3 && bytes[0] == 0xef && bytes[1] == 0xbb && bytes[2] == 0xbf {
        proof {
            assert(bytes@.subrange(3, bytes@.len() as int) =~= bytes@.skip(3));
        }
        &bytes[3..bytes.len()]
    } else if bytes.len() >= 2 && bytes[0] == 0xff && bytes[1] == 0xfe {
        proof {
            assert(bytes@.subrange(2, bytes@.len() as int) =~= bytes@.skip(2));
        }
        &bytes[2..bytes.len()]
    } else if bytes.len() >= 2 && bytes[0] == 0xfe && bytes[1] == 0xff {
        proof {
            assert(bytes@.subrange(2, bytes@.len() as int) =~= bytes@.skip(2));
        }
        &bytes[2..bytes.len()]
    } else {
        bytes
    }
}

/// Decodes bytes as one character per byte through the given table.
fn decode_bytewise(data: &[u8], table: Encoding) -> (r: String)
    requires
        table is LATIN1 || table is WINDOWS1252,
    ensures
        table is LATIN1 ==> r@ == Seq::new(data@.len(), |i: int| data@[i] as char),
        table is WINDOWS1252 ==> r@ == Seq::new(data@.len(), |i: int| spec_w1252_char(data@[i])),
    decreases data@.len(),
{
    let windows = match table {
        Encoding::WINDOWS1252 => true,
        _ => false,
    };
    let mut acc = String::new();
    let mut i: usize = 0;
    while i < data.len()
        invariant
            i <= data@.len(),
            windows == (table is WINDOWS1252),
            table is LATIN1 || table is WINDOWS1252,
            acc@.len() == i,
            forall|j: int| 0 <= j < i ==> acc@[j] == if windows {
                spec_w1252_char(data@[j])
            } else {
                data@[j] as char
            },
        decreases data@.len() - i,
    {
        let c = if windows {
            w1252_decode_char(data[i])
        } else {
            data[i] as char
        };
        push_char(&mut acc, c);
        i = i + 1;
    }
    proof {
        if windows {
            assert(acc@ =~= Seq::new(data@.len(), |i: int| spec_w1252_char(data@[i])));
        } else {
            assert(acc@ =~= Seq::new(data@.len(), |i: int| data@[i] as char));
        }
    }
    acc
}

/// Decodes ASCII bytes; nothing when a byte is outside the ASCII range.
fn decode_ascii(data: &[u8]) -> (r: Option<String>)
    ensures
        r is Some <==> forall|i: int| 0 <= i < data@.len() ==> data@[i] < 128,
        r matches Some(s) ==> s@ == Seq::new(data@.len(), |i: int| data@[i] as char),
{
    let mut acc = String::new();
    let mut i: usize = 0;
    while i < data.len()
        invariant
            i <= data@.len(),
            acc@.len() == i,
            forall|j: int| #![trigger data@[j]] 0 <= j < i ==> data@[j] < 128 && acc@[j]
                == data@[j] as char,
        decreases data@.len() - i,
    {
        if data[i] >= 128 {
            return None;
        }
        push_char(&mut acc, data[i] as char);
        i = i + 1;
    }
    proof {
        assert(acc@ =~= Seq::new(data@.len(), |i: int| data@[i] as char));
    }
    Some(acc)
}

/// Encodes a string one byte per character; nothing when some character is
/// outside what the table can represent.
fn encode_bytewise(text: &str, table: Encoding) -> (r: Option<Vec<u8>>)
    requires
        table is LATIN1 || table is WINDOWS1252 || table is ASCII,
    ensures
        r is Some <==> spec_encode(table, text@) is Some,
        r matches Some(v) ==> Some(v@) == spec_encode(table, text@),
{
    let ghost chars = text@;
    let n = text.unicode_len();
    let mut out: Vec<u8> = Vec::new();
    let mut k: usize = 0;
    while k < n
        invariant
            k <= n,
            n == chars.len(),
            chars == text@,
            table is LATIN1 || table is WINDOWS1252 || table is ASCII,
            out@.len() == k,
            forall|j: int| #![trigger chars[j]] 0 <= j < k ==> match table {
                Encoding::LATIN1 => (chars[j] as u32) <= 255 && out@[j] == (chars[j] as u32) as u8,
                Encoding::WINDOWS1252 => spec_w1252_encodable(chars[j]) && out@[j]
                    == spec_w1252_byte(chars[j]),
                _ => (chars[j] as u32) < 128 && out@[j] == (chars[j] as u32) as u8,
            },
        decreases n - k,
    {
        let c = text.get_char(k);
        let b: u8 = match table {
            Encoding::LATIN1 => {
                let u = c as u32;
                if u <= 255 {
                    u as u8
                } else {
                    return None;
                }
            },
            Encoding::WINDOWS1252 => {
                match w1252_encode_char(c) {
                    Some(b) => b,
                    None => {
                        return None;
                    },
                }
            },
            _ => {
                let u = c as u32;
                if u < 128 {
                    u as u8
                } else {
                    return None;
                }
            },
        };
        out.push(b);
        k = k + 1;
    }
    proof {
        match table {
            Encoding::LATIN1 => {
                assert(out@ =~= Seq::new(chars.len(), |i: int| (chars[i] as u32) as u8));
            },
            Encoding::WINDOWS1252 => {
                assert(out@ =~= Seq::new(chars.len(), |i: int| spec_w1252_byte(chars[i])));
            },
            _ => {
                assert(out@ =~= Seq::new(chars.len(), |i: int| (chars[i] as u32) as u8));
            },
        }
    }
    Some(out)
}

/// Converts bytes to and from text under one configured encoding, optionally
/// writing a byte-order mark.
#[derive(Clone, Debug)]
pub struct EncodingHandler {
    encoding: Encoding,
    with_bom: bool,
    bom_bytes: Vec<u8>,
}

impl EncodingHandler {
    pub closed spec fn spec_encoding(self) -> Encoding {
        self.encoding
    }

    pub closed spec fn spec_with_bom(self) -> bool {
        self.with_bom
    }

    /// The cached byte-order mark matches the configuration.
    pub closed spec fn wf(self) -> bool {
        self.bom_bytes@ == spec_bom(self.encoding, self.with_bom)
    }

    pub fn new(encoding: Encoding) -> (r: EncodingHandler)
        ensures
            r.wf(),
            r.spec_encoding() == encoding,
            !r.spec_with_bom(),
    {
        EncodingHandler { encoding, with_bom: false, bom_bytes: Vec::new() }
    }

    fn bom_for(encoding: &Encoding) -> (r: Vec<u8>)
        ensures
            r@ == spec_bom(*encoding, true),
    {
        let mut v: Vec<u8> = Vec::new();
        match encoding {
            Encoding::UTF8 => {
                v.push(0xef);
                v.push(0xbb);
                v.push(0xbf);
            },
            Encoding::UTF16LE => {
                v.push(0xff);
                v.push(0xfe);
            },
            Encoding::UTF16BE => {
                v.push(0xfe);
                v.push(0xff);
            },
            _ => {},
        }
        proof {
            assert(v@ =~= spec_bom(*encoding, true));
        }
        v
    }

    /// The same handler, set to write a byte-order mark.
    pub fn with_bom(self) -> (r: EncodingHandler)
        ensures
            r.wf(),
            r.spec_encoding() == self.spec_encoding(),
            r.spec_with_bom(),
    {
        let bom_bytes = EncodingHandler::bom_for(&self.encoding);
        EncodingHandler { encoding: self.encoding, with_bom: true, bom_bytes }
    }

    pub fn encoding(&self) -> (r: &Encoding)
        ensures
            *r == self.spec_encoding(),
    {
        &self.encoding
    }

    pub fn has_bom(&self) -> (r: bool)
        ensures
            r == self.spec_with_bom(),
    {
        self.with_bom
    }

    pub fn bom_bytes(&self) -> (r: &[u8])
        requires
            self.wf(),
        ensures
            r@ == spec_bom(self.spec_encoding(), self.spec_with_bom()),
    {
        self.bom_bytes.as_slice()
    }

    /// Changes the encoding, refreshing the cached byte-order mark.
    pub fn set_encoding(&mut self, encoding: Encoding)
        requires
            old(self).wf(),
        ensures
            final(self).wf(),
            final(self).spec_encoding() == encoding,
            final(self).spec_with_bom() == old(self).spec_with_bom(),
    {
        self.encoding = encoding;
        if self.with_bom {
            self.bom_bytes = EncodingHandler::bom_for(&self.encoding);
        } else {
            self.bom_bytes = Vec::new();
        }
    }

    /// Turns the byte-order mark on or off.
    pub fn set_bom(&mut self, with_bom: bool)
        requires
            old(self).wf(),
        ensures
            final(self).wf(),
            final(self).spec_encoding() == old(self).spec_encoding(),
            final(self).spec_with_bom() == with_bom,
    {
        self.with_bom = with_bom;
        if with_bom {
            self.bom_bytes = EncodingHandler::bom_for(&self.encoding);
        } else {
            self.bom_bytes.clear();
        }
    }

    /// Which encoding a byte sequence appears to use: a byte-order mark
    /// decides; otherwise valid UTF-8 is UTF-8, pure seven-bit content is
    /// ASCII, and anything else is taken as Latin-1. The flag reports whether
    /// a byte-order mark was seen.
    pub fn detect_encoding(bytes: &[u8]) -> (r: Result<(Encoding, bool), EncodingError>)
        ensures
            r is Ok,
            r matches Ok(pair) ==> pair == spec_detect_encoding(bytes@),
    {
        if bytes.len() >= 3 && bytes[0] == 0xef && bytes[1] == 0xbb && bytes[2] == 0xbf {
            return Ok((Encoding::UTF8, true));
        }
        if bytes.len() >= 2 && bytes[0] == 0xff && bytes[1] == 0xfe {
            return Ok((Encoding::UTF16LE, true));
        }
        if bytes.len() >= 2 && bytes[0] == 0xfe && bytes[1] == 0xff {
            return Ok((Encoding::UTF16BE, true));
        }
        if try_string_from_utf8(bytes_to_vec(bytes)).is_some() {
            return Ok((Encoding::UTF8, false));
        }
        let mut all_ascii = true;
        let mut i: usize = 0;
        while i < bytes.len()
            invariant
                i <= bytes@.len(),
                all_ascii == forall|j: int| 0 <= j < i ==> bytes@[j] < 128,
            decreases bytes@.len() - i,
        {
            if bytes[i] >= 128 {
                all_ascii = false;
            }
            i = i + 1;
        }
        if all_ascii {
            Ok((Encoding::ASCII, false))
        } else {
            Ok((Encoding::LATIN1, false))
        }
    }

    /// The text of a byte sequence under the configured encoding, after
    /// removing one leading byte-order mark if present. Fails exactly when
    /// the remaining bytes are not valid for the encoding.
    pub fn decode(&self, bytes: &[u8]) -> (r: Result<String, EncodingError>)
        ensures
            r is Ok <==> spec_decode(self.spec_encoding(), spec_skip_bom(bytes@)) is Some,
            r matches Ok(s) ==> Some(s@) == spec_decode(self.spec_encoding(), spec_skip_bom(bytes@)),
            r matches Err(e) ==> e is InvalidSequence,
    {
        let data = skip_bom_slice(bytes);
        match self.encoding {
            Encoding::UTF8 => match try_string_from_utf8(bytes_to_vec(data)) {
                Some(s) => {
                    proof {
                        assert(decode_utf8(string_bytes(s)) == s@);
                    }
                    Ok(s)
                },
                None => Err(EncodingError::InvalidSequence(invalid_sequence_message())),
            },
            Encoding::UTF16 => match decode_utf16le_bytes(data) {
                Some(s) => Ok(s),
                None => Err(EncodingError::InvalidSequence(invalid_sequence_message())),
            },
            Encoding::UTF16LE => match decode_utf16le_bytes(data) {
                Some(s) => Ok(s),
                None => Err(EncodingError::InvalidSequence(invalid_sequence_message())),
            },
            Encoding::UTF16BE => match decode_utf16be_bytes(data) {
                Some(s) => Ok(s),
                None => Err(EncodingError::InvalidSequence(invalid_sequence_message())),
            },
            Encoding::LATIN1 => Ok(decode_bytewise(data, Encoding::LATIN1)),
            Encoding::WINDOWS1252 => Ok(decode_bytewise(data, Encoding::WINDOWS1252)),
            Encoding::ASCII => match decode_ascii(data) {
                Some(s) => Ok(s),
                None => Err(EncodingError::InvalidSequence(invalid_sequence_message())),
            },
        }
    }

    /// The bytes of a text under the configured encoding, preceded by the
    /// configured byte-order mark. Fails exactly when some character is not
    /// representable in the encoding.
    pub fn encode(&self, text: &str) -> (r: Result<Vec<u8>, EncodingError>)
        requires
            self.wf(),
        ensures
            r is Ok <==> spec_encode(self.spec_encoding(), text@) is Some,
            r matches Ok(v) ==> Some(v@) == match spec_encode(self.spec_encoding(), text@) {
                Some(payload) => Some(
                    spec_bom(self.spec_encoding(), self.spec_with_bom()) + payload,
                ),
                None => None::<Seq<u8>>,
            },
            r matches Err(e) ==> e is ConversionFailed,
    {
        let mut out = bytes_to_vec(self.bom_bytes.as_slice());
        let mut payload: Vec<u8> = match self.encoding {
            Encoding::UTF8 => text.as_bytes_vec(),
            Encoding::UTF16 => encode_utf16le_str(text),
            Encoding::UTF16LE => encode_utf16le_str(text),
            Encoding::UTF16BE => encode_utf16be_str(text),
            Encoding::LATIN1 => match encode_bytewise(text, Encoding::LATIN1) {
                Some(v) => v,
                None => {
                    return Err(EncodingError::ConversionFailed(unrepresentable_message()));
                },
            },
            Encoding::WINDOWS1252 => match encode_bytewise(text, Encoding::WINDOWS1252) {
                Some(v) => v,
                None => {
                    return Err(EncodingError::ConversionFailed(unrepresentable_message()));
                },
            },
            Encoding::ASCII => match encode_bytewise(text, Encoding::ASCII) {
                Some(v) => v,
                None => {
                    return Err(EncodingError::ConversionFailed(unrepresentable_message()));
                },
            },
        };
        out.append(&mut payload);
        Ok(out)
    }
}

impl Default for EncodingHandler {
    /// A handler for UTF-8 without a byte-order mark.
    fn default() -> (r: EncodingHandler)
        ensures
            r.wf(),
            r.spec_encoding() is UTF8,
            !r.spec_with_bom(),
    {
        EncodingHandler::new(Encoding::UTF8)
    }
}

fn invalid_sequence_message() -> (r: String)
    ensures
        r@ == "invalid byte sequence for encoding"@,
{
    "invalid byte sequence for encoding".to_owned()
}

fn unrepresentable_message() -> (r: String)
    ensures
        r@ == "character not representable in encoding"@,
{
    "character not representable in encoding".to_owned()
}

/// What `detect_encoding` reports for a byte sequence.
pub open spec fn spec_detect_encoding(bytes: Seq<u8>) -> (Encoding, bool) {
    if bytes.len() >= 3 && bytes[0] == 0xef && bytes[1] == 0xbb && bytes[2] == 0xbf {
        (Encoding::UTF8, true)
    } else if bytes.len() >= 2 && bytes[0] == 0xff && bytes[1] == 0xfe {
        (Encoding::UTF16LE, true)
    } else if bytes.len() >= 2 && bytes[0] == 0xfe && bytes[1] == 0xff {
        (Encoding::UTF16BE, true)
    } else if valid_utf8(bytes) {
        (Encoding::UTF8, false)
    } else if forall|j: int| 0 <= j < bytes.len() ==> bytes[j] < 128 {
        (Encoding::ASCII, false)
    } else {
        (Encoding::LATIN1, false)
    }
}

/// True when an encoding can represent a character and decoding gives the
/// same character back. Windows-1252 cannot round-trip the code points of the
/// C1 control range, whose bytes it reads as printable characters.
pub open spec fn spec_roundtrippable(encoding: Encoding, c: char) -> bool {
    match encoding {
        Encoding::UTF8 => true,
        Encoding::UTF16 => true,
        Encoding::UTF16LE => true,
        Encoding::UTF16BE => true,
        Encoding::LATIN1 => (c as u32) <= 255,
        Encoding::WINDOWS1252 => spec_w1252_special(c) is Some || ((c as u32) <= 255 && !(0x80
            <= c as u32 <= 0x9f)),
        Encoding::ASCII => (c as u32) < 128,
    }
}

/// For every supported encoding and any text of characters that the encoding
/// can represent and read back, decoding the encoded bytes returns exactly
/// the original text.
pub proof fn lemma_encode_decode_roundtrip(encoding: Encoding, chars: Seq<char>)
    requires
        forall|i: int| 0 <= i < chars.len() ==> spec_roundtrippable(encoding, #[trigger] chars[i]),
    ensures
        spec_encode(encoding, chars) is Some,
        spec_decode(encoding, spec_encode(encoding, chars)->Some_0) == Some(chars),
{
    match encoding {
        Encoding::UTF8 => {
            let bytes = encode_utf8(chars);
            assert(valid_utf8(bytes));
            assert(decode_utf8(bytes) == chars);
        },
        Encoding::UTF16 => {
            lemma_utf16le_roundtrip(chars);
        },
        Encoding::UTF16LE => {
            lemma_utf16le_roundtrip(chars);
        },
        Encoding::UTF16BE => {
            lemma_utf16be_roundtrip(chars);
        },
        Encoding::LATIN1 => {
            let bytes = spec_encode(encoding, chars)->Some_0;
            assert forall|i: int| 0 <= i < chars.len() implies (#[trigger] bytes[i]) as char
                == chars[i] by {
                lemma_byte_char_cast(chars[i]);
            }
            assert(Seq::new(bytes.len(), |i: int| bytes[i] as char) =~= chars);
        },
        Encoding::WINDOWS1252 => {
            let bytes = spec_encode(encoding, chars)->Some_0;
            assert forall|i: int| 0 <= i < chars.len() implies spec_w1252_char(
                #[trigger] bytes[i],
            ) == chars[i] by {
                lemma_w1252_char_roundtrip(chars[i]);
            }
            assert(Seq::new(bytes.len(), |i: int| spec_w1252_char(bytes[i])) =~= chars);
        },
        Encoding::ASCII => {
            let bytes = spec_encode(encoding, chars)->Some_0;
            assert forall|i: int| 0 <= i < chars.len() implies bytes[i] < 128 && (
            #[trigger] bytes[i]) as char == chars[i] by {
                lemma_byte_char_cast(chars[i]);
            }
            assert(Seq::new(bytes.len(), |i: int| bytes[i] as char) =~= chars);
        },
    }
}

/// Casting a small character's scalar value to a byte and back yields the
/// same character.
proof fn lemma_byte_char_cast(c: char)
    requires
        c as u32 <= 255,
    ensures
        ((c as u32) as u8) as char == c,
{
    vstd::utf8::char_u32_cast(c, c as u32);
    assert((((c as u32) as u8) as char) as u32 == c as u32);
    vstd::utf8::char_u32_cast(((c as u32) as u8) as char, c as u32);
}

/// A Windows-1252 byte decodes back to the character it was encoded from,
/// outside the C1 control range.
proof fn lemma_w1252_char_roundtrip(c: char)
    requires
        spec_w1252_special(c) is Some || (c as u32 <= 255 && !(0x80 <= c as u32 <= 0x9f)),
    ensures
        spec_w1252_char(spec_w1252_byte(c)) == c,
{
    if spec_w1252_special(c) is Some {
    } else {
        lemma_byte_char_cast(c);
    }
}

} // verus!
