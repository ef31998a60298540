//! Line-ending detection, conversion, counting and splitting.

use vstd::prelude::*;
use vstd::utf8::*;
use vstd::string::StringSliceAdditionalSpecFns;
use vstd::string::StrSliceExecFns;
use crate::text::{
    eq_str, substr_range, lemma_ascii_boundary_step, lemma_boundary_next_char,
    lemma_encode_singleton, spec_is_whitespace,
};
use crate::utf16::push_char;
use crate::chunk::spec_match_at;
use crate::encoding::{Encoding, EncodingHandler, EncodingError, spec_encode, spec_decode, spec_skip_bom};

verus! {

broadcast use {
    vstd::utf8::encode_utf8_valid_utf8,
    vstd::utf8::is_char_boundary_start_end_of_seq,
    vstd::utf8::is_char_boundary_iff_not_is_continuation_byte,
};

/// A line-terminator convention.
#[derive(Clone, Copy, Debug, PartialEq, Eq, Structural, Hash)]
pub enum LineEnding {
    LF,
    CRLF,
    CR,
    NEL,
    LS,
    PS,
    Unknown,
}

/// The characters of a terminator; the unknown terminator has none.
pub open spec fn spec_terminator(le: LineEnding) -> Seq<char> {
    match le {
        LineEnding::LF => seq!['\n'],
        LineEnding::CRLF => seq!['\r', '\n'],
        LineEnding::CR => seq!['\r'],
        LineEnding::NEL => seq!['\u{85}'],
        LineEnding::LS => seq!['\u{2028}'],
        LineEnding::PS => seq!['\u{2029}'],
        LineEnding::Unknown => seq![],
    }
}

/// How many terminators of one kind a left-to-right scan observes, pairing
/// each carriage return with an immediately following line feed.
pub open spec fn spec_count_le(chars: Seq<char>, which: LineEnding) -> int
    decreases chars.len(),
{
    if chars.len() == 0 {
        0
    } else if chars[0] == '\r' && chars.len() >= 2 && chars[1] == '\n' {
        (if which is CRLF {
            1int
        } else {
            0int
        }) + spec_count_le(chars.skip(2), which)
    } else {
        let unit: int = if chars[0] == '\n' {
            if which is LF {
                1
            } else {
                0
            }
        } else if chars[0] == '\r' {
            if which is CR {
                1
            } else {
                0
            }
        } else if chars[0] == '\u{85}' {
            if which is NEL {
                1
            } else {
                0
            }
        } else if chars[0] == '\u{2028}' {
            if which is LS {
                1
            } else {
                0
            }
        } else if chars[0] == '\u{2029}' {
            if which is PS {
                1
            } else {
                0
            }
        } else {
            0
        };
        unit + spec_count_le(chars.skip(1), which)
    }
}

/// The convention a majority vote over the observed terminators picks: the
/// kind that strictly beats every other; ties and a text without terminators
/// fall back to the line-feed default.
pub open spec fn spec_detect_line_ending(chars: Seq<char>) -> LineEnding {
    let crlf = spec_count_le(chars, LineEnding::CRLF);
    let lf = spec_count_le(chars, LineEnding::LF);
    let cr = spec_count_le(chars, LineEnding::CR);
    let nel = spec_count_le(chars, LineEnding::NEL);
    let ls = spec_count_le(chars, LineEnding::LS);
    let ps = spec_count_le(chars, LineEnding::PS);
    if crlf > lf && crlf > cr && crlf > nel && crlf > ls && crlf > ps {
        LineEnding::CRLF
    } else if lf > crlf && lf > cr && lf > nel && lf > ls && lf > ps {
        LineEnding::LF
    } else if cr > crlf && cr > lf && cr > nel && cr > ls && cr > ps {
        LineEnding::CR
    } else if nel > crlf && nel > lf && nel > cr && nel > ls && nel > ps {
        LineEnding::NEL
    } else if ls > crlf && ls > lf && ls > cr && ls > nel && ls > ps {
        LineEnding::LS
    } else if ps > crlf && ps > lf && ps > cr && ps > nel && ps > ls {
        LineEnding::PS
    } else {
        LineEnding::LF
    }
}

/// The text with this convention's terminators rewritten to line feeds.
pub open spec fn spec_normalize_lf(le: LineEnding, chars: Seq<char>) -> Seq<char>
    decreases chars.len(),
{
    if le is LF || le is Unknown {
        chars
    } else if chars.len() == 0 {
        seq![]
    } else if le is CRLF {
        if chars.len() >= 2 && chars[0] == '\r' && chars[1] == '\n' {
            seq!['\n'] + spec_normalize_lf(le, chars.skip(2))
        } else {
            seq![chars[0]] + spec_normalize_lf(le, chars.skip(1))
        }
    } else {
        let t = spec_terminator(le);
        (if chars[0] == t[0] {
            seq!['\n']
        } else {
            seq![chars[0]]
        }) + spec_normalize_lf(le, chars.skip(1))
    }
}

/// The text with every line feed expanded to the given terminator.
pub open spec fn spec_expand_lf(chars: Seq<char>, to: Seq<char>) -> Seq<char>
    decreases chars.len(),
{
    if chars.len() == 0 {
        seq![]
    } else {
        (if chars[0] == '\n' {
            to
        } else {
            seq![chars[0]]
        }) + spec_expand_lf(chars.skip(1), to)
    }
}

/// The text rewritten from one convention to another: normalized to line
/// feeds and then expanded to the target terminator.
pub open spec fn spec_convert(le: LineEnding, chars: Seq<char>, target: LineEnding) -> Seq<char> {
    if le == target {
        chars
    } else {
        let normalized = spec_normalize_lf(le, chars);
        if target is LF || target is Unknown {
            normalized
        } else {
            spec_expand_lf(normalized, spec_terminator(target))
        }
    }
}

/// How many times the pattern occurs, counting non-overlapping occurrences
/// from the left.
pub open spec fn spec_count_pattern(chars: Seq<char>, pat: Seq<char>) -> int
    recommends
        pat.len() > 0,
    decreases chars.len(),
{
    if chars.len() == 0 || pat.len() == 0 {
        0
    } else if pat.len() <= chars.len() && chars.subrange(0, pat.len() as int) == pat {
        1 + spec_count_pattern(chars.skip(pat.len() as int), pat)
    } else {
        spec_count_pattern(chars.skip(1), pat)
    }
}

/// The pieces of a byte sequence between non-overlapping occurrences of a
/// pattern, counted from the left: one piece more than there are occurrences.
pub open spec fn spec_split_bytes(bytes: Seq<u8>, pat: Seq<u8>) -> Seq<Seq<u8>>
    recommends
        pat.len() > 0,
    decreases bytes.len(),
{
    if bytes.len() == 0 || pat.len() == 0 {
        seq![Seq::<u8>::empty()]
    } else if pat.len() <= bytes.len() && bytes.subrange(0, pat.len() as int) == pat {
        seq![Seq::<u8>::empty()] + spec_split_bytes(bytes.skip(pat.len() as int), pat)
    } else {
        let rest = spec_split_bytes(bytes.skip(1), pat);
        seq![seq![bytes[0]] + rest[0]] + rest.skip(1)
    }
}

proof fn lemma_split_nonempty(bytes: Seq<u8>, pat: Seq<u8>)
    ensures
        spec_split_bytes(bytes, pat).len() >= 1,
    decreases bytes.len(),
{
    if bytes.len() == 0 || pat.len() == 0 {
    } else if pat.len() <= bytes.len() && bytes.subrange(0, pat.len() as int) == pat {
    } else {
        lemma_split_nonempty(bytes.skip(1), pat);
    }
}

/// When the first occurrence of the pattern is at offset `d`, the split is
/// the prefix before it followed by the split of what comes after it.
proof fn lemma_split_step(bytes: Seq<u8>, pat: Seq<u8>, d: int)
    requires
        pat.len() > 0,
        0 <= d,
        d + pat.len() <= bytes.len(),
        spec_match_at(bytes, pat, d),
        forall|j: int| 0 <= j < d ==> !spec_match_at(bytes, pat, j),
    ensures
        spec_split_bytes(bytes, pat) == seq![bytes.take(d)] + spec_split_bytes(
            bytes.skip(d + pat.len()),
            pat,
        ),
    decreases d,
{
    if d == 0 {
        assert(bytes.subrange(0, pat.len() as int) == pat);
        assert(bytes.take(0) =~= Seq::<u8>::empty());
        assert(seq![Seq::<u8>::empty()] + spec_split_bytes(bytes.skip(pat.len() as int), pat)
            =~= seq![bytes.take(0)] + spec_split_bytes(bytes.skip(pat.len() as int), pat));
    } else {
        assert(!spec_match_at(bytes, pat, 0));
        assert(bytes.len() > 0);
        assert(!(pat.len() <= bytes.len() && bytes.subrange(0, pat.len() as int) == pat));
        let tail = bytes.skip(1);
        assert forall|j: int| 0 <= j < d - 1 implies !spec_match_at(tail, pat, j) by {
            if spec_match_at(tail, pat, j) {
                assert(tail.subrange(j, j + pat.len()) =~= bytes.subrange(j + 1, j + 1
                    + pat.len()));
                assert(spec_match_at(bytes, pat, j + 1));
            }
        }
        assert(spec_match_at(tail, pat, d - 1)) by {
            assert(tail.subrange(d - 1, d - 1 + pat.len()) =~= bytes.subrange(d, d + pat.len()));
        }
        lemma_split_step(tail, pat, d - 1);
        lemma_split_nonempty(tail.skip(d - 1 + pat.len()), pat);
        let rest = spec_split_bytes(tail, pat);
        assert(rest == seq![tail.take(d - 1)] + spec_split_bytes(tail.skip(d - 1 + pat.len()), pat));
        assert(rest[0] == tail.take(d - 1));
        assert(seq![bytes[0]] + rest[0] =~= bytes.take(d));
        assert(tail.skip(d - 1 + pat.len()) =~= bytes.skip(d + pat.len()));
        assert(rest.skip(1) =~= spec_split_bytes(bytes.skip(d + pat.len()), pat));
        assert(spec_split_bytes(bytes, pat) =~= seq![bytes.take(d)] + spec_split_bytes(
            bytes.skip(d + pat.len()),
            pat,
        ));
    }
}

/// When the pattern occurs nowhere, the split is the whole sequence alone.
proof fn lemma_split_no_match(bytes: Seq<u8>, pat: Seq<u8>)
    requires
        pat.len() > 0,
        forall|j: int| !spec_match_at(bytes, pat, j),
    ensures
        spec_split_bytes(bytes, pat) == seq![bytes],
    decreases bytes.len(),
{
    if bytes.len() == 0 {
        assert(bytes =~= Seq::<u8>::empty());
        assert(spec_split_bytes(bytes, pat) =~~= seq![bytes]);
    } else {
        assert(!spec_match_at(bytes, pat, 0));
        let tail = bytes.skip(1);
        assert forall|j: int| !spec_match_at(tail, pat, j) by {
            if 0 <= j && j + pat.len() <= tail.len() && spec_match_at(tail, pat, j) {
                assert(tail.subrange(j, j + pat.len()) =~= bytes.subrange(j + 1, j + 1
                    + pat.len()));
                assert(spec_match_at(bytes, pat, j + 1));
            }
        }
        lemma_split_no_match(tail, pat);
        assert(seq![bytes[0]] + tail =~= bytes);
        assert(spec_split_bytes(tail, pat).skip(1) =~= Seq::<Seq<u8>>::empty());
        assert(spec_split_bytes(bytes, pat) =~~= seq![bytes]);
    }
}

impl LineEnding {
    /// The terminator as text; the unknown convention has none.
    pub fn as_str(&self) -> (r: &'static str)
        ensures
            r@ == spec_terminator(*self),
    {
        proof {
            reveal_strlit("\n");
            reveal_strlit("\r\n");
            reveal_strlit("\r");
            reveal_strlit("\u{0085}");
            reveal_strlit("\u{2028}");
            reveal_strlit("\u{2029}");
            reveal_strlit("");
        }
        match self {
            LineEnding::LF => "\n",
            LineEnding::CRLF => "\r\n",
            LineEnding::CR => "\r",
            LineEnding::NEL => "\u{0085}",
            LineEnding::LS => "\u{2028}",
            LineEnding::PS => "\u{2029}",
            LineEnding::Unknown => "",
        }
    }

    /// The terminator's bytes under an encoding; empty when the encoding
    /// cannot represent it.
    pub fn as_bytes(&self, encoding: &Encoding) -> (r: Vec<u8>)
        ensures
            r@ == match spec_encode(*encoding, spec_terminator(*self)) {
                Some(payload) => payload,
                None => Seq::<u8>::empty(),
            },
    {
        let handler = EncodingHandler::new(*encoding);
        match handler.encode(self.as_str()) {
            Ok(v) => v,
            Err(_) => Vec::new(),
        }
    }

    /// The byte length of the terminator under an encoding.
    pub fn len_bytes(&self, encoding: &Encoding) -> (r: usize)
        ensures
            r == match spec_encode(*encoding, spec_terminator(*self)) {
                Some(payload) => payload.len() as int,
                None => 0,
            },
    {
        self.as_bytes(encoding).len()
    }

    /// The number of characters of the terminator.
    pub fn len_chars(&self) -> (r: usize)
        ensures
            r == spec_terminator(*self).len(),
    {
        match self {
            LineEnding::CRLF => 2,
            LineEnding::Unknown => 0,
            _ => 1,
        }
    }

    /// The convention detected in a byte sequence after decoding it; fails
    /// exactly when the bytes are invalid for the encoding.
    pub fn from_bytes(bytes: &[u8], encoding: &Encoding) -> (r: Result<
        LineEnding,
        LineEndingParseError,
    >)
        ensures
            r is Ok <==> spec_decode(*encoding, spec_skip_bom(bytes@)) is Some,
            r matches Ok(le) ==> le == spec_detect_line_ending(
                spec_decode(*encoding, spec_skip_bom(bytes@))->Some_0,
            ),
            r matches Err(e) ==> e is EncodingError,
    {
        let handler = EncodingHandler::new(*encoding);
        match handler.decode(bytes) {
            Ok(text) => match LineEnding::detect(text.as_str()) {
                Ok(le) => Ok(le),
                Err(e) => Err(e),
            },
            Err(e) => Err(LineEndingParseError::EncodingError(e)),
        }
    }

    /// The convention that a majority vote over the text's terminators picks;
    /// ties and a text without terminators give the line-feed default.
    pub fn detect(text: &str) -> (r: Result<LineEnding, LineEndingParseError>)
        ensures
            r is Ok,
            r matches Ok(le) ==> le == spec_detect_line_ending(text@),
    {
        let ghost chars = text@;
        let n = text.unicode_len();
        let mut crlf: usize = 0;
        let mut lf: usize = 0;
        let mut cr: usize = 0;
        let mut nel: usize = 0;
        let mut ls: usize = 0;
        let mut ps: usize = 0;
        let mut i: usize = 0;
        proof {
            assert(chars.skip(0) =~= chars);
        }
        while i < n
            invariant
                i <= n,
                n == chars.len(),
                chars == text@,
                crlf <= i && lf <= i && cr <= i && nel <= i && ls <= i && ps <= i,
                spec_count_le(chars, LineEnding::CRLF) == crlf + spec_count_le(
                    chars.skip(i as int),
                    LineEnding::CRLF,
                ),
                spec_count_le(chars, LineEnding::LF) == lf + spec_count_le(
                    chars.skip(i as int),
                    LineEnding::LF,
                ),
                spec_count_le(chars, LineEnding::CR) == cr + spec_count_le(
                    chars.skip(i as int),
                    LineEnding::CR,
                ),
                spec_count_le(chars, LineEnding::NEL) == nel + spec_count_le(
                    chars.skip(i as int),
                    LineEnding::NEL,
                ),
                spec_count_le(chars, LineEnding::LS) == ls + spec_count_le(
                    chars.skip(i as int),
                    LineEnding::LS,
                ),
                spec_count_le(chars, LineEnding::PS) == ps + spec_count_le(
                    chars.skip(i as int),
                    LineEnding::PS,
                ),
            decreases n - i,
        {
            let ghost tail = chars.skip(i as int);
            proof {
                assert(tail[0] == chars[i as int]);
                if i + 1 < n {
                    assert(tail[1] == chars[i + 1]);
                }
            }
            let c = text.get_char(i);
            if c == '\r' {
                if i + 1 < n && text.get_char(i + 1) == '\n' {
                    crlf = crlf + 1;
                    proof {
                        assert(tail.skip(2) =~= chars.skip(i + 2));
                    }
                    i = i + 2;
                } else {
                    cr = cr + 1;
                    proof {
                        assert(tail.skip(1) =~= chars.skip(i + 1));
                    }
                    i = i + 1;
                }
            } else {
                if c == '\n' {
                    lf = lf + 1;
                } else if c == '\u{85}' {
                    nel = nel + 1;
                } else if c == '\u{2028}' {
                    ls = ls + 1;
                } else if c == '\u{2029}' {
                    ps = ps + 1;
                }
                proof {
                    assert(tail.skip(1) =~= chars.skip(i + 1));
                }
                i = i + 1;
            }
        }
        proof {
            assert(chars.skip(n as int) =~= Seq::<char>::empty());
        }
        if crlf > lf && crlf > cr && crlf > nel && crlf > ls && crlf > ps {
            Ok(LineEnding::CRLF)
        } else if lf > crlf && lf > cr && lf > nel && lf > ls && lf > ps {
            Ok(LineEnding::LF)
        } else if cr > crlf && cr > lf && cr > nel && cr > ls && cr > ps {
            Ok(LineEnding::CR)
        } else if nel > crlf && nel > lf && nel > cr && nel > ls && nel > ps {
            Ok(LineEnding::NEL)
        } else if ls > crlf && ls > lf && ls > cr && ls > nel && ls > ps {
            Ok(LineEnding::LS)
        } else if ps > crlf && ps > lf && ps > cr && ps > nel && ps > ls {
            Ok(LineEnding::PS)
        } else {
            Ok(LineEnding::LF)
        }
    }

    /// The text with this convention's terminators rewritten to line feeds.
    pub fn normalize_to_lf(&self, text: &str) -> (r: String)
        ensures
            r@ == spec_normalize_lf(*self, text@),
    {
        let le = *self;
        match le {
            LineEnding::LF => {
                return text.to_owned();
            },
            LineEnding::Unknown => {
                return text.to_owned();
            },
            _ => {},
        }
        let ghost chars = text@;
        let n = text.unicode_len();
        let mut acc = String::new();
        let mut i: usize = 0;
        proof {
            assert(chars.skip(0) =~= chars);
            assert(acc@ + spec_normalize_lf(le, chars) =~= spec_normalize_lf(le, chars));
        }
        while i < n
            invariant
                i <= n,
                n == chars.len(),
                chars == text@,
                le == *self,
                !(le is LF) && !(le is Unknown),
                spec_normalize_lf(le, chars) == acc@ + spec_normalize_lf(le, chars.skip(i as int)),
            decreases n - i,
        {
            let ghost tail = chars.skip(i as int);
            proof {
                assert(tail[0] == chars[i as int]);
                if i + 1 < n {
                    assert(tail[1] == chars[i + 1]);
                }
            }
            let c = text.get_char(i);
            let is_crlf_here = match le {
                LineEnding::CRLF => c == '\r' && i + 1 < n && {
                    let c2 = text.get_char(i + 1);
                    c2 == '\n'
                },
                _ => false,
            };
            if is_crlf_here {
                push_char(&mut acc, '\n');
                proof {
                    assert(tail.skip(2) =~= chars.skip(i + 2));
                    assert(acc@ + spec_normalize_lf(le, chars.skip(i + 2)) =~= (acc@.drop_last()
                        + (seq!['\n'] + spec_normalize_lf(le, chars.skip(i + 2)))));
                }
                i = i + 2;
            } else {
                let t = match le {
                    LineEnding::CRLF => '\u{0}',
                    _ => {
                        let ts = self.as_str();
                        ts.get_char(0)
                    },
                };
                let replaced = match le {
                    LineEnding::CRLF => false,
                    _ => c == t,
                };
                let out_c = if replaced {
                    '\n'
                } else {
                    c
                };
                push_char(&mut acc, out_c);
                proof {
                    assert(tail.skip(1) =~= chars.skip(i + 1));
                    assert(acc@ + spec_normalize_lf(le, chars.skip(i + 1)) =~= (acc@.drop_last()
                        + (seq![out_c] + spec_normalize_lf(le, chars.skip(i + 1)))));
                }
                i = i + 1;
            }
        }
        proof {
            assert(chars.skip(n as int) =~= Seq::<char>::empty());
            assert(acc@ + Seq::<char>::empty() =~= acc@);
        }
        acc
    }

    /// The text rewritten from this convention to the target one.
    pub fn convert_text(&self, text: &str, target: LineEnding) -> (r: String)
        ensures
            r@ == spec_convert(*self, text@, target),
    {
        if *self == target {
            return text.to_owned();
        }
        let normalized = self.normalize_to_lf(text);
        match target {
            LineEnding::LF => normalized,
            LineEnding::Unknown => normalized,
            _ => expand_lf(normalized.as_str(), target.as_str()),
        }
    }

    /// One more than the number of this convention's terminators in the text;
    /// the unknown convention counts every terminator kind.
    pub fn count_lines(&self, text: &str) -> (r: usize)
        ensures
            r == spec_line_count(*self, text@),
    {
        let le = *self;
        match le {
            LineEnding::Unknown => {
                let t1 = LineEnding::CRLF.normalize_to_lf(text);
                let t2 = LineEnding::CR.normalize_to_lf(t1.as_str());
                let t3 = LineEnding::NEL.normalize_to_lf(t2.as_str());
                let t4 = LineEnding::LS.normalize_to_lf(t3.as_str());
                let t5 = LineEnding::PS.normalize_to_lf(t4.as_str());
                proof {
                    reveal_strlit("\n");
                    assert("\n"@ =~= seq!['\n']);
                }
                let c = count_occurrences(t5.as_str(), "\n");
                c.saturating_add(1)
            },
            _ => {
                let c = count_occurrences(text, self.as_str());
                c.saturating_add(1)
            },
        }
    }

    /// The pieces of the text between this convention's terminators; under
    /// the unknown convention, the text's word segments that hold more than
    /// whitespace.
    pub fn split_lines<'a>(&self, text: &'a str) -> (r: Vec<&'a str>)
        ensures
            !(*self is Unknown) ==> r@.len() == spec_split_bytes(
                text.spec_bytes(),
                encode_utf8(spec_terminator(*self)),
            ).len() && forall|i: int|
                0 <= i < r@.len() ==> (#[trigger] r@[i]).spec_bytes() == spec_split_bytes(
                    text.spec_bytes(),
                    encode_utf8(spec_terminator(*self)),
                )[i],
            *self is Unknown ==> r.deep_view() == crate::segmentation::word_bounds_of(
                text@,
            ).filter(|p: Seq<char>| exists|j: int| 0 <= j < p.len() && !spec_is_whitespace(p[j])),
    {
        match self {
            LineEnding::Unknown => crate::segmentation::non_blank_word_bounds(text),
            _ => {
                proof {
                    lemma_terminator_bytes(*self);
                }
                split_by(text, self.as_str())
            },
        }
    }

    /// Every known terminator convention.
    pub fn all() -> (r: Vec<LineEnding>)
        ensures
            r@ =~= seq![
                LineEnding::LF,
                LineEnding::CRLF,
                LineEnding::CR,
                LineEnding::NEL,
                LineEnding::LS,
                LineEnding::PS,
            ],
    {
        let mut v: Vec<LineEnding> = Vec::new();
        v.push(LineEnding::LF);
        v.push(LineEnding::CRLF);
        v.push(LineEnding::CR);
        v.push(LineEnding::NEL);
        v.push(LineEnding::LS);
        v.push(LineEnding::PS);
        v
    }

    /// True for the terminators outside the ASCII range.
    pub fn is_unicode(&self) -> (r: bool)
        ensures
            r == (*self is NEL || *self is LS || *self is PS),
    {
        match self {
            LineEnding::NEL => true,
            LineEnding::LS => true,
            LineEnding::PS => true,
            _ => false,
        }
    }

    /// The default convention of this build's platform.
    pub fn platform_default() -> (r: LineEnding)
        ensures
            r is LF,
    {
        LineEnding::LF
    }
}

/// One more than the number of the convention's terminators in the text.
pub open spec fn spec_line_count(le: LineEnding, chars: Seq<char>) -> int {
    let terminators = if le is Unknown {
        let t1 = spec_normalize_lf(LineEnding::CRLF, chars);
        let t2 = spec_normalize_lf(LineEnding::CR, t1);
        let t3 = spec_normalize_lf(LineEnding::NEL, t2);
        let t4 = spec_normalize_lf(LineEnding::LS, t3);
        let t5 = spec_normalize_lf(LineEnding::PS, t4);
        spec_count_pattern(t5, seq!['\n'])
    } else {
        spec_count_pattern(chars, spec_terminator(le))
    };
    if terminators + 1 <= usize::MAX {
        terminators + 1
    } else {
        usize::MAX as int
    }
}

impl Default for LineEnding {
    /// The platform default: the line feed.
    fn default() -> (r: LineEnding)
        ensures
            r is LF,
    {
        LineEnding::LF
    }
}

/// A failure to parse or decode a line-ending convention.
#[derive(Clone, Debug)]
pub enum LineEndingParseError {
    InvalidLineEnding(String),
    EncodingError(EncodingError),
}

impl From<EncodingError> for LineEndingParseError {
    fn from(error: EncodingError) -> (r: LineEndingParseError) {
        LineEndingParseError::EncodingError(error)
    }
}

impl vstd::std_specs::convert::FromSpecImpl<EncodingError> for LineEndingParseError {
    open spec fn obeys_from_spec() -> bool {
        true
    }

    open spec fn from_spec(error: EncodingError) -> LineEndingParseError {
        LineEndingParseError::EncodingError(error)
    }
}

/// The text with every line feed expanded to the given terminator.
fn expand_lf(text: &str, to: &str) -> (r: String)
    ensures
        r@ == spec_expand_lf(text@, to@),
{
    let ghost chars = text@;
    let n = text.unicode_len();
    let mut acc = String::new();
    let mut i: usize = 0;
    proof {
        assert(chars.skip(0) =~= chars);
        assert(acc@ + spec_expand_lf(chars, to@) =~= spec_expand_lf(chars, to@));
    }
    while i < n
        invariant
            i <= n,
            n == chars.len(),
            chars == text@,
            spec_expand_lf(chars, to@) == acc@ + spec_expand_lf(chars.skip(i as int), to@),
        decreases n - i,
    {
        let ghost tail = chars.skip(i as int);
        proof {
            assert(tail[0] == chars[i as int]);
        }
        let c = text.get_char(i);
        let ghost before = acc@;
        if c == '\n' {
            acc.append(to);
            proof {
                assert(tail.skip(1) =~= chars.skip(i + 1));
                assert(acc@ + spec_expand_lf(chars.skip(i + 1), to@) =~= (before + (to@
                    + spec_expand_lf(chars.skip(i + 1), to@))));
            }
        } else {
            push_char(&mut acc, c);
            proof {
                assert(tail.skip(1) =~= chars.skip(i + 1));
                assert(acc@ + spec_expand_lf(chars.skip(i + 1), to@) =~= (before + (seq![c]
                    + spec_expand_lf(chars.skip(i + 1), to@))));
            }
        }
        i = i + 1;
    }
    proof {
        assert(chars.skip(n as int) =~= Seq::<char>::empty());
        assert(acc@ + Seq::<char>::empty() =~= acc@);
    }
    acc
}

/// True when the text has the pattern's characters starting at the given
/// character index.
fn chars_match_at(text: &str, i: usize, pat: &str, n: usize, m: usize) -> (r: bool)
    requires
        n == text@.len(),
        m == pat@.len(),
        i <= n,
    ensures
        r == (i + pat@.len() <= text@.len() && text@.subrange(i as int, i + pat@.len()) == pat@),
{
    if m > n - i {
        return false;
    }
    let mut j: usize = 0;
    while j < m
        invariant
            j <= m,
            n == text@.len(),
            m == pat@.len(),
            i + m <= n,
            forall|t: int| 0 <= t < j ==> text@[i + t] == pat@[t],
        decreases m - j,
    {
        if text.get_char(i + j) != pat.get_char(j) {
            proof {
                if text@.subrange(i as int, i + pat@.len()) == pat@ {
                    assert(text@.subrange(i as int, i + pat@.len())[j as int] == pat@[j as int]);
                }
            }
            return false;
        }
        j = j + 1;
    }
    proof {
        assert(text@.subrange(i as int, i + pat@.len()) =~= pat@);
    }
    true
}

/// The number of non-overlapping occurrences of a pattern, scanning from the
/// left.
fn count_occurrences(text: &str, pat: &str) -> (r: usize)
    requires
        pat@.len() > 0,
    ensures
        r == spec_count_pattern(text@, pat@),
{
    let ghost chars = text@;
    let n = text.unicode_len();
    let m = pat.unicode_len();
    let mut count: usize = 0;
    let mut i: usize = 0;
    proof {
        assert(chars.skip(0) =~= chars);
    }
    while i < n
        invariant
            i <= n,
            n == chars.len(),
            m == pat@.len(),
            m > 0,
            chars == text@,
            count <= i,
            spec_count_pattern(chars, pat@) == count + spec_count_pattern(
                chars.skip(i as int),
                pat@,
            ),
        decreases n - i,
    {
        let ghost tail = chars.skip(i as int);
        if chars_match_at(text, i, pat, n, m) {
            proof {
                assert(tail.subrange(0, pat@.len() as int) =~= chars.subrange(
                    i as int,
                    i + pat@.len(),
                ));
                assert(tail.skip(m as int) =~= chars.skip(i + m));
            }
            count = count + 1;
            i = i + m;
        } else {
            proof {
                if pat@.len() <= tail.len() {
                    assert(tail.subrange(0, pat@.len() as int) =~= chars.subrange(
                        i as int,
                        i + pat@.len(),
                    ));
                }
                assert(tail.skip(1) =~= chars.skip(i + 1));
            }
            i = i + 1;
        }
    }
    proof {
        assert(chars.skip(n as int) =~= Seq::<char>::empty());
    }
    count
}

/// The concrete bytes of each known terminator.
proof fn lemma_terminator_bytes(le: LineEnding)
    requires
        !(le is Unknown),
    ensures
        le is LF ==> encode_utf8(spec_terminator(le)) =~= seq![0x0au8],
        le is CR ==> encode_utf8(spec_terminator(le)) =~= seq![0x0du8],
        le is CRLF ==> encode_utf8(spec_terminator(le)) =~= seq![0x0du8, 0x0au8],
        le is NEL ==> encode_utf8(spec_terminator(le)) =~= seq![0xc2u8, 0x85u8],
        le is LS ==> encode_utf8(spec_terminator(le)) =~= seq![0xe2u8, 0x80u8, 0xa8u8],
        le is PS ==> encode_utf8(spec_terminator(le)) =~= seq![0xe2u8, 0x80u8, 0xa9u8],
{
    lemma_encode_singleton('\n');
    lemma_encode_singleton('\r');
    lemma_encode_singleton('\u{85}');
    lemma_encode_singleton('\u{2028}');
    lemma_encode_singleton('\u{2029}');
    assert((0x0au32 & 0x7f) as u8 == 0x0au8) by (bit_vector);
    assert((0x0du32 & 0x7f) as u8 == 0x0du8) by (bit_vector);
    assert(0xc0u8 | ((0x85u32 >> 6) & 0x1f) as u8 == 0xc2u8) by (bit_vector);
    assert(0x80u8 | (0x85u32 & 0x3f) as u8 == 0x85u8) by (bit_vector);
    assert(0xe0u8 | ((0x2028u32 >> 12) & 0x0f) as u8 == 0xe2u8) by (bit_vector);
    assert(0x80u8 | ((0x2028u32 >> 6) & 0x3f) as u8 == 0x80u8) by (bit_vector);
    assert(0x80u8 | (0x2028u32 & 0x3f) as u8 == 0xa8u8) by (bit_vector);
    assert(0xe0u8 | ((0x2029u32 >> 12) & 0x0f) as u8 == 0xe2u8) by (bit_vector);
    assert(0x80u8 | ((0x2029u32 >> 6) & 0x3f) as u8 == 0x80u8) by (bit_vector);
    assert(0x80u8 | (0x2029u32 & 0x3f) as u8 == 0xa9u8) by (bit_vector);
    if le is CRLF {
        assert(spec_terminator(le) =~= seq!['\r'] + seq!['\n']);
        crate::text::lemma_encode_utf8_concat(seq!['\r'], seq!['\n']);
    }
}

/// Splits the text's bytes at non-overlapping occurrences of the pattern,
/// counted from the left. The pattern must be the whole encoding of one
/// terminator, so that every occurrence falls on character boundaries.
fn split_by<'a>(text: &'a str, pat: &str) -> (r: Vec<&'a str>)
    requires
        ({
            let p = pat.spec_bytes();
            ||| (p.len() == 1 && p[0] < 0x80)
            ||| (p.len() == 2 && p[0] == 0x0d && p[1] == 0x0a)
            ||| (p.len() == 2 && p[0] == 0xc2)
            ||| (p.len() == 3 && p[0] == 0xe2)
        }),
    ensures
        r@.len() == spec_split_bytes(text.spec_bytes(), pat.spec_bytes()).len(),
        forall|i: int| 0 <= i < r@.len() ==> (#[trigger] r@[i]).spec_bytes() == spec_split_bytes(
            text.spec_bytes(),
            pat.spec_bytes(),
        )[i],
{
    let ghost h = text.spec_bytes();
    let ghost p = pat.spec_bytes();
    let hb = text.as_bytes();
    let pb = pat.as_bytes();
    let len = hb.len();
    let w = pb.len();
    let mut pieces: Vec<&'a str> = Vec::new();
    let mut start: usize = 0;
    let mut i: usize = 0;
    proof {
        assert(h.skip(0) =~= h);
    }
    while i < len && w <= len - i
        invariant
            start <= i <= len,
            len == h.len(),
            w == p.len(),
            1 <= w <= 3,
            hb@ == h,
            pb@ == p,
            h == text.spec_bytes(),
            p == pat.spec_bytes(),
            ({
                ||| (p.len() == 1 && p[0] < 0x80)
                ||| (p.len() == 2 && p[0] == 0x0d && p[1] == 0x0a)
                ||| (p.len() == 2 && p[0] == 0xc2)
                ||| (p.len() == 3 && p[0] == 0xe2)
            }),
            is_char_boundary(h, start as int),
            forall|d: int| start <= d < i ==> !spec_match_at(h, p, d),
            spec_split_bytes(h, p).len() == pieces@.len() + spec_split_bytes(
                h.skip(start as int),
                p,
            ).len(),
            forall|j: int| 0 <= j < pieces@.len() ==> (#[trigger] pieces@[j]).spec_bytes()
                == spec_split_bytes(h, p)[j],
            forall|j: int| 0 <= j < spec_split_bytes(h.skip(start as int), p).len()
                ==> spec_split_bytes(h, p)[pieces@.len() + j] == spec_split_bytes(
                h.skip(start as int),
                p,
            )[j],
        decreases len - i,
    {
        if crate::chunk::bytes_match_at(hb, pb, i) {
            proof {
                assert(!is_continuation_byte(h[i as int]));
                assert(is_char_boundary(h, i as int));
                if p.len() == 1 && p[0] < 0x80 {
                    lemma_ascii_boundary_step(h, i as int);
                } else if p.len() == 2 && p[0] == 0x0d && p[1] == 0x0a {
                    lemma_ascii_boundary_step(h, i as int);
                    lemma_ascii_boundary_step(h, i + 1);
                } else {
                    let suffix = h.subrange(i as int, h.len() as int);
                    assert(suffix[0] == h[i as int]);
                    lemma_boundary_next_char(h, i as int);
                    if p[0] == 0xc2 {
                        assert(is_leading_byte_width_2(suffix[0]));
                        assert(length_of_first_scalar(suffix) == 2);
                    } else {
                        assert(is_leading_byte_width_3(suffix[0]));
                        assert(length_of_first_scalar(suffix) == 3);
                    }
                }
                assert(is_char_boundary(h, i + w));
                // the split takes one more piece here
                let rel = i - start;
                let hs = h.skip(start as int);
                assert forall|d: int| 0 <= d < rel implies !spec_match_at(hs, p, d) by {
                    if 0 <= d && d + p.len() <= hs.len() && spec_match_at(hs, p, d) {
                        assert(hs.subrange(d, d + p.len()) =~= h.subrange(start + d, start + d
                            + p.len()));
                        assert(spec_match_at(h, p, start + d));
                    }
                }
                assert(spec_match_at(hs, p, rel)) by {
                    assert(hs.subrange(rel, rel + p.len()) =~= h.subrange(i as int, i + p.len()));
                }
                lemma_split_step(hs, p, rel);
                assert(hs.take(rel) =~= h.subrange(start as int, i as int));
                assert(hs.skip(rel + p.len()) =~= h.skip(i + w));
            }
            let ghost old_pieces = pieces@;
            let ghost old_start = start as int;
            let piece = substr_range(text, start, i);
            pieces.push(piece);
            start = i + w;
            i = start;
            proof {
                let hs = h.skip(old_start);
                let rel = i - w - old_start;
                assert(piece.spec_bytes() == spec_split_bytes(hs, p)[0]);
                assert(spec_split_bytes(h, p)[old_pieces.len() as int] == spec_split_bytes(
                    hs,
                    p,
                )[0]);
                assert forall|j: int| 0 <= j < pieces@.len() implies (
                #[trigger] pieces@[j]).spec_bytes() == spec_split_bytes(h, p)[j] by {
                    if j < old_pieces.len() {
                        assert(pieces@[j] == old_pieces[j]);
                    } else {
                        assert(pieces@[j] == piece);
                    }
                }
                assert forall|j: int|
                    0 <= j < spec_split_bytes(h.skip(start as int), p).len() implies
                    spec_split_bytes(h, p)[pieces@.len() + j] == spec_split_bytes(
                    h.skip(start as int),
                    p,
                )[j] by {
                    assert(spec_split_bytes(hs, p)[1 + j] == spec_split_bytes(
                        h.skip(start as int),
                        p,
                    )[j]);
                    assert(spec_split_bytes(h, p)[old_pieces.len() + (1 + j)]
                        == spec_split_bytes(hs, p)[1 + j]);
                }
            }
        } else {
            proof {
                assert(h.subrange(i as int, i + p.len()) =~= hb@.subrange(i as int, i + p.len()));
            }
            i = i + 1;
        }
    }
    proof {
        // no match in the remaining tail
        assert forall|d: int| start <= d implies !spec_match_at(h, p, d) by {
            if 0 <= d && d + p.len() <= h.len() && spec_match_at(h, p, d) {
                assert(d < i || d + p.len() > h.len());
            }
        }
        let hs = h.skip(start as int);
        assert forall|d: int| !spec_match_at(hs, p, d) by {
            if 0 <= d && d + p.len() <= hs.len() && spec_match_at(hs, p, d) {
                assert(hs.subrange(d, d + p.len()) =~= h.subrange(start + d, start + d + p.len()));
                assert(spec_match_at(h, p, start + d));
            }
        }
        lemma_split_no_match(hs, p);
    }
    let ghost old_pieces = pieces@;
    let last = substr_range(text, start, len);
    pieces.push(last);
    proof {
        assert(h.skip(start as int) =~= h.subrange(start as int, h.len() as int));
        assert(last.spec_bytes() == h.skip(start as int));
        assert(spec_split_bytes(h.skip(start as int), p) =~~= seq![h.skip(start as int)]);
        assert(spec_split_bytes(h, p)[old_pieces.len() as int] == spec_split_bytes(
            h.skip(start as int),
            p,
        )[0]);
        assert(spec_split_bytes(h, p)[old_pieces.len() as int] == h.skip(start as int));
        assert forall|j: int| 0 <= j < pieces@.len() implies (#[trigger] pieces@[j]).spec_bytes()
            == spec_split_bytes(h, p)[j] by {
            if j < old_pieces.len() {
                assert(pieces@[j] == old_pieces[j]);
            } else {
                assert(pieces@[j] == last);
            }
        }
    }
    pieces
}

/// The input uppercased in the ASCII range.
fn ascii_upper(s: &str) -> (r: String)
    ensures
        r@.len() == s@.len(),
        forall|i: int| 0 <= i < s@.len() ==> r@[i] == (if 'a' <= s@[i] <= 'z' {
            (((s@[i] as u32) - 32) as char)
        } else {
            s@[i]
        }),
{
    let ghost chars = s@;
    let n = s.unicode_len();
    let mut acc = String::new();
    let mut i: usize = 0;
    while i < n
        invariant
            i <= n,
            n == chars.len(),
            chars == s@,
            acc@.len() == i,
            forall|j: int| 0 <= j < i ==> acc@[j] == (if 'a' <= chars[j] <= 'z' {
                (((chars[j] as u32) - 32) as char)
            } else {
                chars[j]
            }),
        decreases n - i,
    {
        let c = s.get_char(i);
        let out = if 'a' <= c && c <= 'z' {
            let u = (c as u32) - 32;
            proof {
                vstd::utf8::char_is_scalar(c);
            }
            match crate::utf16::char_from_u32(u) {
                Some(up) => {
                    proof {
                        vstd::utf8::char_u32_cast(up, u);
                    }
                    up
                },
                None => vstd::pervasive::unreached(),
            }
        } else {
            c
        };
        push_char(&mut acc, out);
        i = i + 1;
    }
    acc
}

impl core::str::FromStr for LineEnding {
    type Err = LineEndingParseError;

    /// Reads a convention from its short name, its escaped form, or the
    /// terminator text itself, ignoring ASCII case.
    fn from_str(s: &str) -> (r: Result<LineEnding, LineEndingParseError>) {
        let upper = ascii_upper(s);
        let u = upper.as_str();
        if eq_str(u, "LF") || eq_str(u, "\\N") || eq_str(u, "\n") {
            Ok(LineEnding::LF)
        } else if eq_str(u, "CRLF") || eq_str(u, "\\R\\N") || eq_str(u, "\r\n") {
            Ok(LineEnding::CRLF)
        } else if eq_str(u, "CR") || eq_str(u, "\\R") || eq_str(u, "\r") {
            Ok(LineEnding::CR)
        } else if eq_str(u, "NEL") || eq_str(u, "U+0085") {
            Ok(LineEnding::NEL)
        } else if eq_str(u, "LS") || eq_str(u, "U+2028") {
            Ok(LineEnding::LS)
        } else if eq_str(u, "PS") || eq_str(u, "U+2029") {
            Ok(LineEnding::PS)
        } else {
            Err(LineEndingParseError::InvalidLineEnding(s.to_owned()))
        }
    }
}

} // verus!
