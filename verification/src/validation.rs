//! Validation of buffer content: UTF-8 well-formedness, control characters,
//! and line-ending consistency.

use vstd::prelude::*;
use vstd::utf8::valid_utf8;
use vstd::string::StrSliceExecFns;
use crate::text::{try_string_from_utf8, spec_is_control, is_control_char};
use crate::encoding::{Encoding, EncodingHandler, EncodingError, spec_decode, spec_skip_bom};
use crate::line_ending::LineEnding;

verus! {

/// A failure to validate buffer content.
#[derive(Clone, Debug)]
pub enum ValidationError {
    InvalidUtf8,
    ControlCharacterFound(char),
    InvalidLineEnding(String),
    EncodingError(EncodingError),
    InvalidEncoding(String),
}

impl From<EncodingError> for ValidationError {
    fn from(error: EncodingError) -> (r: ValidationError) {
        ValidationError::EncodingError(error)
    }
}

impl vstd::std_specs::convert::FromSpecImpl<EncodingError> for ValidationError {
    open spec fn obeys_from_spec() -> bool {
        true
    }

    open spec fn from_spec(error: EncodingError) -> ValidationError {
        ValidationError::EncodingError(error)
    }
}

/// A control character other than the line feed, carriage return and tab is
/// rejected.
pub open spec fn spec_is_rejected_control(c: char) -> bool {
    spec_is_control(c) && c != '\n' && c != '\r' && c != '\t'
}

/// The position of the first rejected control character of a text; the
/// text's length when there is none.
pub open spec fn spec_first_rejected_control(chars: Seq<char>) -> int
    decreases chars.len(),
{
    if chars.len() == 0 {
        0
    } else if spec_is_rejected_control(chars[0]) {
        0
    } else {
        1 + spec_first_rejected_control(chars.drop_first())
    }
}

proof fn lemma_first_rejected_from_scan(chars: Seq<char>, k: int)
    requires
        0 <= k < chars.len(),
        forall|j: int| 0 <= j < k ==> !spec_is_rejected_control(#[trigger] chars[j]),
        spec_is_rejected_control(chars[k]),
    ensures
        spec_first_rejected_control(chars) == k,
    decreases k,
{
    if k == 0 {
    } else {
        assert(!spec_is_rejected_control(chars[0]));
        lemma_first_rejected_from_scan(chars.drop_first(), k - 1);
    }
}

/// The text holds no terminator that disagrees with the expected convention.
/// Terminators are read left to right, pairing each carriage return with an
/// immediately following line feed; the unknown convention accepts anything.
pub open spec fn spec_line_endings_ok(chars: Seq<char>, expected: LineEnding) -> bool
    decreases chars.len(),
{
    if expected is Unknown {
        true
    } else if chars.len() == 0 {
        true
    } else if chars[0] == '\r' && chars.len() >= 2 && chars[1] == '\n' {
        expected is CRLF && spec_line_endings_ok(chars.skip(2), expected)
    } else if chars[0] == '\r' {
        expected is CR && spec_line_endings_ok(chars.skip(1), expected)
    } else if chars[0] == '\n' {
        expected is LF && spec_line_endings_ok(chars.skip(1), expected)
    } else if chars[0] == '\u{85}' {
        expected is NEL && spec_line_endings_ok(chars.skip(1), expected)
    } else if chars[0] == '\u{2028}' {
        expected is LS && spec_line_endings_ok(chars.skip(1), expected)
    } else if chars[0] == '\u{2029}' {
        expected is PS && spec_line_endings_ok(chars.skip(1), expected)
    } else {
        spec_line_endings_ok(chars.skip(1), expected)
    }
}

/// Accepts exactly the byte sequences that are valid UTF-8.
pub fn validate_utf8(content: &[u8]) -> (r: Result<(), ValidationError>)
    ensures
        r is Ok <==> valid_utf8(content@),
        r matches Err(e) ==> e is InvalidUtf8,
{
    let mut v: Vec<u8> = Vec::new();
    v.extend_from_slice(content);
    proof {
        assert(v@ =~= content@);
    }
    if try_string_from_utf8(v).is_some() {
        Ok(())
    } else {
        Err(ValidationError::InvalidUtf8)
    }
}

/// Accepts exactly the texts without raw control characters; the line feed,
/// carriage return and tab are allowed. A rejection names the first offender.
pub fn validate_control_characters(content: &str) -> (r: Result<(), ValidationError>)
    ensures
        r is Ok <==> forall|i: int| 0 <= i < content@.len() ==> !spec_is_rejected_control(
            #[trigger] content@[i],
        ),
        r matches Err(e) ==> ({
            let k = spec_first_rejected_control(content@);
            &&& 0 <= k < content@.len()
            &&& spec_is_rejected_control(content@[k])
            &&& e == ValidationError::ControlCharacterFound(content@[k])
        }),
{
    let n = content.unicode_len();
    let mut i: usize = 0;
    while i < n
        invariant
            i <= n,
            n == content@.len(),
            forall|j: int| 0 <= j < i ==> !spec_is_rejected_control(#[trigger] content@[j]),
        decreases n - i,
    {
        let c = content.get_char(i);
        if is_control_char(c) && c != '\n' && c != '\r' && c != '\t' {
            proof {
                lemma_first_rejected_from_scan(content@, i as int);
            }
            return Err(ValidationError::ControlCharacterFound(c));
        }
        i = i + 1;
    }
    Ok(())
}

/// Accepts exactly the texts whose terminators all follow the expected
/// convention; the unknown convention accepts every text.
pub fn validate_line_endings(content: &str, expected: LineEnding) -> (r: Result<
    (),
    ValidationError,
>)
    ensures
        r is Ok <==> spec_line_endings_ok(content@, expected),
        r matches Err(e) ==> e is InvalidLineEnding,
{
    let ghost chars = content@;
    match expected {
        LineEnding::Unknown => {
            return Ok(());
        },
        _ => {},
    }
    let n = content.unicode_len();
    let mut i: usize = 0;
    proof {
        assert(chars.skip(0) =~= chars);
    }
    while i < n
        invariant
            i <= n,
            n == chars.len(),
            chars == content@,
            !(expected is Unknown),
            spec_line_endings_ok(chars, expected) == spec_line_endings_ok(
                chars.skip(i as int),
                expected,
            ),
        decreases n - i,
    {
        let ghost tail = chars.skip(i as int);
        proof {
            assert(tail[0] == chars[i as int]);
            if i + 1 < n {
                assert(tail[1] == chars[i + 1]);
            }
        }
        let c = content.get_char(i);
        if c == '\r' {
            if i + 1 < n && content.get_char(i + 1) == '\n' {
                let ok = match expected {
                    LineEnding::CRLF => true,
                    _ => false,
                };
                if !ok {
                    return Err(ValidationError::InvalidLineEnding("\r\n".to_owned()));
                }
                proof {
                    assert(tail.skip(2) =~= chars.skip(i + 2));
                }
                i = i + 2;
            } else {
                let ok = match expected {
                    LineEnding::CR => true,
                    _ => false,
                };
                if !ok {
                    return Err(ValidationError::InvalidLineEnding("\r".to_owned()));
                }
                proof {
                    assert(tail.skip(1) =~= chars.skip(i + 1));
                }
                i = i + 1;
            }
        } else {
            let terminator = c == '\n' || c == '\u{85}' || c == '\u{2028}' || c == '\u{2029}';
            if terminator {
                let ok = match expected {
                    LineEnding::LF => c == '\n',
                    LineEnding::NEL => c == '\u{85}',
                    LineEnding::LS => c == '\u{2028}',
                    LineEnding::PS => c == '\u{2029}',
                    _ => false,
                };
                if !ok {
                    return Err(ValidationError::InvalidLineEnding(
                        crate::text::char_to_string(c),
                    ));
                }
            }
            proof {
                assert(tail.skip(1) =~= chars.skip(i + 1));
            }
            i = i + 1;
        }
    }
    proof {
        assert(chars.skip(n as int) =~= Seq::<char>::empty());
    }
    Ok(())
}

/// Accepts exactly the byte sequences the encoding can decode, after removing
/// one leading byte-order mark.
pub fn validate_encoding_compatibility(content: &[u8], encoding: &Encoding) -> (r: Result<
    (),
    ValidationError,
>)
    ensures
        r is Ok <==> spec_decode(*encoding, spec_skip_bom(content@)) is Some,
        r matches Err(e) ==> e is EncodingError,
{
    let handler = EncodingHandler::new(*encoding);
    match handler.decode(content) {
        Ok(_) => Ok(()),
        Err(e) => Err(ValidationError::EncodingError(e)),
    }
}

/// Accepts exactly the byte sequences that decode under the encoding into a
/// text without rejected control characters whose terminators all follow the
/// expected convention.
pub fn validate_content(content: &[u8], encoding: &Encoding, line_ending: LineEnding) -> (r:
    Result<(), ValidationError>)
    ensures
        r is Ok <==> ({
            let decoded = spec_decode(*encoding, spec_skip_bom(content@));
            &&& decoded is Some
            &&& forall|i: int| 0 <= i < decoded->Some_0.len() ==> !spec_is_rejected_control(
                #[trigger] decoded->Some_0[i],
            )
            &&& spec_line_endings_ok(decoded->Some_0, line_ending)
        }),
        r matches Err(e) ==> ({
            let decoded = spec_decode(*encoding, spec_skip_bom(content@));
            if decoded is None {
                e is EncodingError
            } else if exists|i: int|
                0 <= i < decoded->Some_0.len() && spec_is_rejected_control(
                    #[trigger] decoded->Some_0[i],
                ) {
                e == ValidationError::ControlCharacterFound(
                    decoded->Some_0[spec_first_rejected_control(decoded->Some_0)],
                )
            } else {
                e is InvalidLineEnding
            }
        }),
{
    let handler = EncodingHandler::new(*encoding);
    let content_str = match handler.decode(content) {
        Ok(s) => s,
        Err(e) => {
            return Err(ValidationError::EncodingError(e));
        },
    };
    match validate_control_characters(content_str.as_str()) {
        Ok(_) => {},
        Err(e) => {
            return Err(e);
        },
    }
    match validate_line_endings(content_str.as_str(), line_ending) {
        Ok(_) => {},
        Err(e) => {
            return Err(e);
        },
    }
    Ok(())
}

} // verus!
