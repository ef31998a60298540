//! Buffered reading and writing of encoded text over in-memory byte buffers:
//! chunked and line-oriented reads with optional validation, and encoded
//! writes with a configurable terminator convention.

use vstd::prelude::*;
use vstd::utf8::valid_utf8;
use vstd::string::StringSliceAdditionalSpecFns;
use vstd::string::StringExecFns;
use crate::encoding::{
    Encoding, EncodingHandler, EncodingError, spec_encode, spec_decode, spec_skip_bom, spec_bom,
};
use crate::line_ending::{LineEnding, spec_convert, spec_detect_line_ending, spec_terminator};
use crate::validation::ValidationError;

verus! {

/// A failure while streaming encoded text.
#[derive(Clone, Debug)]
pub enum StreamingError {
    IoError(String),
    EncodingError(EncodingError),
    ValidationError(ValidationError),
    InvalidEncoding(String),
    BufferOverflow(usize),
    UnexpectedEof,
}

impl From<EncodingError> for StreamingError {
    fn from(error: EncodingError) -> (r: StreamingError) {
        StreamingError::EncodingError(error)
    }
}

impl vstd::std_specs::convert::FromSpecImpl<EncodingError> for StreamingError {
    open spec fn obeys_from_spec() -> bool {
        true
    }

    open spec fn from_spec(error: EncodingError) -> StreamingError {
        StreamingError::EncodingError(error)
    }
}

impl From<ValidationError> for StreamingError {
    fn from(error: ValidationError) -> (r: StreamingError) {
        StreamingError::ValidationError(error)
    }
}

impl vstd::std_specs::convert::FromSpecImpl<ValidationError> for StreamingError {
    open spec fn obeys_from_spec() -> bool {
        true
    }

    open spec fn from_spec(error: ValidationError) -> StreamingError {
        StreamingError::ValidationError(error)
    }
}

/// One past the first newline byte at or after an offset, or the end of the
/// sequence.
pub open spec fn spec_line_end_from(data: Seq<u8>, p: int) -> int
    decreases data.len() - p,
    when 0 <= p <= data.len()
{
    if p >= data.len() {
        p
    } else if data[p] == 0x0a {
        p + 1
    } else {
        spec_line_end_from(data, p + 1)
    }
}

proof fn lemma_line_end_from(data: Seq<u8>, p: int, e: int)
    requires
        0 <= p < e <= data.len(),
        e == data.len() || data[e - 1] == 0x0a,
        forall|j: int| p <= j < e - 1 ==> data[j] != 0x0a,
    ensures
        spec_line_end_from(data, p) == e,
    decreases e - p,
{
    if data[p] == 0x0a {
        assert(e == p + 1);
    } else {
        if p + 1 == e {
            assert(e == data.len());
            assert(spec_line_end_from(data, e) == e);
            assert(spec_line_end_from(data, p) == spec_line_end_from(data, p + 1));
        } else {
            lemma_line_end_from(data, p + 1, e);
        }
    }
}

/// Reads decoded text from an in-memory byte source, in chunks, in lines, or
/// whole.
pub struct StreamReader {
    data: Vec<u8>,
    pos: usize,
    handler: EncodingHandler,
    chunk_size: usize,
    validate_content: bool,
}

impl StreamReader {
    pub closed spec fn spec_data(self) -> Seq<u8> {
        self.data@
    }

    pub closed spec fn spec_pos(self) -> int {
        self.pos as int
    }

    pub closed spec fn spec_encoding(self) -> Encoding {
        self.handler.spec_encoding()
    }

    pub closed spec fn spec_chunk_size(self) -> int {
        self.chunk_size as int
    }

    pub closed spec fn spec_validating(self) -> bool {
        self.validate_content
    }

    /// The cursor does not exceed the source.
    pub open spec fn wf(self) -> bool {
        self.spec_pos() <= self.spec_data().len()
    }

    /// A reader over the given bytes, positioned at their start, reading in
    /// chunks of a default size, with validation on.
    pub fn new(data: Vec<u8>, encoding: Encoding) -> (r: StreamReader)
        ensures
            r.wf(),
            r.spec_data() == data@,
            r.spec_pos() == 0,
            r.spec_encoding() == encoding,
            r.spec_chunk_size() == 8192,
            r.spec_validating(),
    {
        StreamReader {
            data,
            pos: 0,
            handler: EncodingHandler::new(encoding),
            chunk_size: 8192,
            validate_content: true,
        }
    }

    pub fn with_chunk_size(self, size: usize) -> (r: StreamReader)
        ensures
            r.spec_data() == self.spec_data(),
            r.spec_pos() == self.spec_pos(),
            r.spec_encoding() == self.spec_encoding(),
            r.spec_chunk_size() == size,
            r.spec_validating() == self.spec_validating(),
    {
        StreamReader { chunk_size: size, ..self }
    }

    pub fn with_validation(self, validate: bool) -> (r: StreamReader)
        ensures
            r.spec_data() == self.spec_data(),
            r.spec_pos() == self.spec_pos(),
            r.spec_encoding() == self.spec_encoding(),
            r.spec_chunk_size() == self.spec_chunk_size(),
            r.spec_validating() == validate,
    {
        StreamReader { validate_content: validate, ..self }
    }

    /// The bytes a read of the next chunk consumes.
    pub open spec fn spec_next_chunk(self) -> Seq<u8> {
        let end = if self.spec_pos() + self.spec_chunk_size() <= self.spec_data().len() {
            self.spec_pos() + self.spec_chunk_size()
        } else {
            self.spec_data().len() as int
        };
        self.spec_data().subrange(self.spec_pos(), end)
    }

    /// Decodes the next chunk of bytes. Yields nothing at the end of the
    /// source, and fails when validation or decoding rejects the chunk; the
    /// consumed bytes stay consumed either way.
    pub fn read_chunk(&mut self) -> (r: Result<Option<String>, StreamingError>)
        requires
            old(self).wf(),
        ensures
            final(self).wf(),
            final(self).spec_data() == old(self).spec_data(),
            final(self).spec_encoding() == old(self).spec_encoding(),
            final(self).spec_chunk_size() == old(self).spec_chunk_size(),
            final(self).spec_validating() == old(self).spec_validating(),
            ({
                let chunk = old(self).spec_next_chunk();
                &&& (r == Result::<Option<String>, StreamingError>::Ok(None::<String>) <==> chunk.len() == 0)
                &&& (chunk.len() == 0 ==> final(self).spec_pos() == old(self).spec_pos())
                &&& (chunk.len() > 0 ==> final(self).spec_pos() == old(self).spec_pos()
                    + chunk.len())
                &&& (chunk.len() > 0 ==> ({
                    let ok = (old(self).spec_validating() ==> valid_utf8(chunk)) && spec_decode(
                        old(self).spec_encoding(),
                        spec_skip_bom(chunk),
                    ) is Some
                    ;
                    &&& (r is Ok <==> ok)
                    &&& (r matches Ok(s) ==> s matches Some(text) && Some(text@) == spec_decode(
                        old(self).spec_encoding(),
                        spec_skip_bom(chunk),
                    ))
                }))
            }),
    {
        let remaining = self.data.len() - self.pos;
        let take = if self.chunk_size <= remaining {
            self.chunk_size
        } else {
            remaining
        };
        if take == 0 {
            proof {
                assert(old(self).spec_next_chunk() =~= Seq::<u8>::empty());
            }
            return Ok(None);
        }
        let mut chunk: Vec<u8> = Vec::new();
        let mut i: usize = 0;
        while i < take
            invariant
                i <= take,
                self.pos + take <= self.data@.len(),
                self.data@.len() <= usize::MAX,
                chunk@ == self.data@.subrange(self.pos as int, self.pos + i),
                *self == *old(self),
                take == if old(self).spec_chunk_size() <= old(self).spec_data().len() - old(
                    self,
                ).spec_pos() {
                    old(self).spec_chunk_size()
                } else {
                    old(self).spec_data().len() - old(self).spec_pos()
                },
            decreases take - i,
        {
            chunk.push(self.data[self.pos + i]);
            proof {
                assert(chunk@ =~= self.data@.subrange(self.pos as int, self.pos + i + 1));
            }
            i = i + 1;
        }
        proof {
            assert(chunk@ =~= old(self).spec_next_chunk());
        }
        self.pos = self.pos + take;
        if self.validate_content {
            match crate::validation::validate_utf8(chunk.as_slice()) {
                Ok(_) => {},
                Err(e) => {
                    return Err(StreamingError::ValidationError(e));
                },
            }
        }
        match self.handler.decode(chunk.as_slice()) {
            Ok(text) => Ok(Some(text)),
            Err(e) => Err(StreamingError::EncodingError(e)),
        }
    }

    /// The bytes a line read consumes: up to and including the next newline
    /// byte, or everything left.
    pub open spec fn spec_next_line(self) -> Seq<u8> {
        self.spec_data().subrange(self.spec_pos(), self.spec_line_end())
    }

    /// One past the next newline byte at or after the cursor, or the end of
    /// the source.
    pub open spec fn spec_line_end(self) -> int {
        spec_line_end_from(self.spec_data(), self.spec_pos())
    }

    /// Decodes the next line: the bytes up to and including the next newline
    /// byte. Yields nothing at the end of the source, and fails when
    /// validation or decoding rejects the line.
    pub fn read_line(&mut self) -> (r: Result<Option<String>, StreamingError>)
        requires
            old(self).wf(),
        ensures
            final(self).wf(),
            final(self).spec_data() == old(self).spec_data(),
            final(self).spec_encoding() == old(self).spec_encoding(),
            final(self).spec_chunk_size() == old(self).spec_chunk_size(),
            final(self).spec_validating() == old(self).spec_validating(),
            old(self).spec_pos() == old(self).spec_data().len() ==> r == Result::<
                Option<String>,
                StreamingError,
            >::Ok(None::<String>) && final(self).spec_pos() == old(self).spec_pos(),
            old(self).spec_pos() < old(self).spec_data().len() ==> ({
                let line = old(self).spec_next_line();
                let ok = (old(self).spec_validating() ==> valid_utf8(line)) && spec_decode(
                    old(self).spec_encoding(),
                    spec_skip_bom(line),
                ) is Some
                ;
                &&& final(self).spec_pos() == old(self).spec_pos() + line.len()
                &&& (r is Ok <==> ok)
                &&& (r matches Ok(s) ==> s matches Some(text) && Some(text@) == spec_decode(
                    old(self).spec_encoding(),
                    spec_skip_bom(line),
                ))
            }),
    {
        if self.pos == self.data.len() {
            return Ok(None);
        }
        let ghost data = self.data@;
        let ghost start = self.pos as int;
        let mut line_bytes: Vec<u8> = Vec::new();
        let mut end: usize = self.pos;
        let mut found = false;
        while end < self.data.len() && !found
            invariant
                start <= end <= data.len(),
                data == self.data@,
                *self == *old(self),
                start == old(self).spec_pos(),
                line_bytes@ == data.subrange(start, end as int),
                forall|j: int| start <= j < end - 1 ==> data[j] != 0x0a,
                found <==> (end > start && data[end - 1] == 0x0a),
                !found ==> forall|j: int| start <= j < end ==> data[j] != 0x0a,
            decreases data.len() - end,
        {
            let b = self.data[end];
            line_bytes.push(b);
            proof {
                assert(line_bytes@ =~= data.subrange(start, end + 1));
            }
            end = end + 1;
            if b == 0x0a {
                found = true;
            }
        }
        proof {
            let e = end as int;
            assert(start < e <= data.len() && (e == data.len() || data[e - 1] == 0x0a) && (
            forall|j: int| start <= j < e - 1 ==> data[j] != 0x0a));
            lemma_line_end_from(data, start, e);
            assert(line_bytes@ =~= old(self).spec_next_line());
        }
        self.pos = end;
        if self.validate_content {
            match crate::validation::validate_utf8(line_bytes.as_slice()) {
                Ok(_) => {},
                Err(e) => {
                    return Err(StreamingError::ValidationError(e));
                },
            }
        }
        match self.handler.decode(line_bytes.as_slice()) {
            Ok(text) => Ok(Some(text)),
            Err(e) => Err(StreamingError::EncodingError(e)),
        }
    }

    /// Decodes everything left in the source.
    pub fn read_all(&mut self) -> (r: Result<String, StreamingError>)
        requires
            old(self).wf(),
        ensures
            final(self).wf(),
            final(self).spec_data() == old(self).spec_data(),
            final(self).spec_encoding() == old(self).spec_encoding(),
            final(self).spec_pos() == old(self).spec_data().len(),
            ({
                let rest = old(self).spec_data().subrange(
                    old(self).spec_pos(),
                    old(self).spec_data().len() as int,
                );
                let ok = (old(self).spec_validating() ==> valid_utf8(rest)) && spec_decode(
                    old(self).spec_encoding(),
                    spec_skip_bom(rest),
                ) is Some
                ;
                &&& (r is Ok <==> ok)
                &&& (r matches Ok(text) ==> Some(text@) == spec_decode(
                    old(self).spec_encoding(),
                    spec_skip_bom(rest),
                ))
            }),
    {
        let ghost data = self.data@;
        let ghost start = self.pos as int;
        let mut buffer: Vec<u8> = Vec::new();
        while self.pos < self.data.len()
            invariant
                start <= self.pos as int <= data.len(),
                data == self.data@,
                self.spec_data() == old(self).spec_data(),
                self.spec_encoding() == old(self).spec_encoding(),
                self.spec_chunk_size() == old(self).spec_chunk_size(),
                self.spec_validating() == old(self).spec_validating(),
                start == old(self).spec_pos(),
                buffer@ == data.subrange(start, self.pos as int),
            decreases data.len() - self.pos,
        {
            let b = self.data[self.pos];
            buffer.push(b);
            proof {
                assert(buffer@ =~= data.subrange(start, self.pos + 1));
            }
            self.pos = self.pos + 1;
        }
        if self.validate_content {
            match crate::validation::validate_utf8(buffer.as_slice()) {
                Ok(_) => {},
                Err(e) => {
                    return Err(StreamingError::ValidationError(e));
                },
            }
        }
        match self.handler.decode(buffer.as_slice()) {
            Ok(text) => Ok(text),
            Err(e) => Err(StreamingError::EncodingError(e)),
        }
    }

    pub fn encoding(&self) -> (r: &Encoding)
        ensures
            *r == self.spec_encoding(),
    {
        self.handler.encoding()
    }

    pub fn set_encoding(&mut self, encoding: Encoding)
        ensures
            final(self).spec_encoding() == encoding,
            final(self).spec_data() == old(self).spec_data(),
            final(self).spec_pos() == old(self).spec_pos(),
            final(self).spec_chunk_size() == old(self).spec_chunk_size(),
            final(self).spec_validating() == old(self).spec_validating(),
    {
        self.handler = EncodingHandler::new(encoding);
    }
}

/// Writes encoded text into an in-memory byte buffer, converting terminators
/// to a configured convention.
pub struct StreamWriter {
    out: Vec<u8>,
    handler: EncodingHandler,
    line_ending: LineEnding,
    auto_flush: bool,
}

/// The bytes one text write appends: the text, its terminators converted to
/// the writer's convention unless that convention is the default, encoded
/// with the writer's encoding and byte-order-mark setting.
pub open spec fn spec_written(
    encoding: Encoding,
    with_bom: bool,
    line_ending: LineEnding,
    text: Seq<char>,
) -> Option<Seq<u8>> {
    let converted = if line_ending is LF {
        text
    } else {
        spec_convert(spec_detect_line_ending(text), text, line_ending)
    };
    match spec_encode(encoding, converted) {
        Some(payload) => Some(spec_bom(encoding, with_bom) + payload),
        None => None,
    }
}

/// The bytes a sequence of line writes appends: each line followed by the
/// writer's terminator, written as `write_text` writes it; nothing as soon as
/// one line cannot be represented.
pub open spec fn spec_written_lines(
    encoding: Encoding,
    with_bom: bool,
    line_ending: LineEnding,
    lines: Seq<String>,
) -> Option<Seq<u8>>
    decreases lines.len(),
{
    if lines.len() == 0 {
        Some(seq![])
    } else {
        match spec_written(encoding, with_bom, line_ending, lines[0]@ + spec_terminator(line_ending)) {
            Some(first) => match spec_written_lines(
                encoding,
                with_bom,
                line_ending,
                lines.drop_first(),
            ) {
                Some(rest) => Some(first + rest),
                None => None,
            },
            None => None,
        }
    }
}

/// Line writes split across a concatenation of line lists.
proof fn lemma_written_lines_concat(
    encoding: Encoding,
    with_bom: bool,
    line_ending: LineEnding,
    a: Seq<String>,
    b: Seq<String>,
)
    ensures
        spec_written_lines(encoding, with_bom, line_ending, a + b) == match spec_written_lines(
            encoding,
            with_bom,
            line_ending,
            a,
        ) {
            Some(x) => match spec_written_lines(encoding, with_bom, line_ending, b) {
                Some(y) => Some(x + y),
                None => None::<Seq<u8>>,
            },
            None => None::<Seq<u8>>,
        },
    decreases a.len(),
{
    if a.len() == 0 {
        assert(a + b =~= b);
        if spec_written_lines(encoding, with_bom, line_ending, b) is Some {
            assert(Seq::<u8>::empty() + spec_written_lines(encoding, with_bom, line_ending, b)->Some_0
                =~= spec_written_lines(encoding, with_bom, line_ending, b)->Some_0);
        }
    } else {
        assert((a + b)[0] == a[0]);
        assert((a + b).drop_first() =~= a.drop_first() + b);
        lemma_written_lines_concat(encoding, with_bom, line_ending, a.drop_first(), b);
        let head = spec_written(encoding, with_bom, line_ending, a[0]@ + spec_terminator(line_ending));
        if head is Some {
            let x1 = spec_written_lines(encoding, with_bom, line_ending, a.drop_first());
            let y = spec_written_lines(encoding, with_bom, line_ending, b);
            if x1 is Some && y is Some {
                assert(head->Some_0 + (x1->Some_0 + y->Some_0) =~= (head->Some_0 + x1->Some_0)
                    + y->Some_0);
            }
        }
    }
}

/// The line writes of a one-line list are that line's write.
proof fn lemma_written_lines_singleton(
    encoding: Encoding,
    with_bom: bool,
    line_ending: LineEnding,
    line: String,
)
    ensures
        spec_written_lines(encoding, with_bom, line_ending, seq![line]) == match spec_written(
            encoding,
            with_bom,
            line_ending,
            line@ + spec_terminator(line_ending),
        ) {
            Some(bytes) => Some(bytes),
            None => None::<Seq<u8>>,
        },
{
    let s = seq![line];
    assert(s[0] == line);
    assert(s.drop_first() =~= Seq::<String>::empty());
    assert(spec_written_lines(encoding, with_bom, line_ending, s.drop_first()) == Some(
        Seq::<u8>::empty(),
    ));
    if spec_written(encoding, with_bom, line_ending, line@ + spec_terminator(line_ending)) is Some {
        let bytes = spec_written(
            encoding,
            with_bom,
            line_ending,
            line@ + spec_terminator(line_ending),
        )->Some_0;
        assert(bytes + Seq::<u8>::empty() =~= bytes);
    }
}

impl StreamWriter {
    pub closed spec fn spec_out(self) -> Seq<u8> {
        self.out@
    }

    pub closed spec fn spec_encoding(self) -> Encoding {
        self.handler.spec_encoding()
    }

    pub closed spec fn spec_with_bom(self) -> bool {
        self.handler.spec_with_bom()
    }

    pub closed spec fn spec_line_ending(self) -> LineEnding {
        self.line_ending
    }

    pub closed spec fn spec_auto_flush(self) -> bool {
        self.auto_flush
    }

    pub closed spec fn wf(self) -> bool {
        self.handler.wf()
    }

    /// A writer with an empty buffer, line-feed terminators and no flushing.
    pub fn new(encoding: Encoding) -> (r: StreamWriter)
        ensures
            r.wf(),
            r.spec_out().len() == 0,
            r.spec_encoding() == encoding,
            !r.spec_with_bom(),
            r.spec_line_ending() is LF,
            !r.spec_auto_flush(),
    {
        StreamWriter {
            out: Vec::new(),
            handler: EncodingHandler::new(encoding),
            line_ending: LineEnding::LF,
            auto_flush: false,
        }
    }

    pub fn with_line_ending(self, line_ending: LineEnding) -> (r: StreamWriter)
        ensures
            r.wf() == self.wf(),
            r.spec_out() == self.spec_out(),
            r.spec_encoding() == self.spec_encoding(),
            r.spec_with_bom() == self.spec_with_bom(),
            r.spec_line_ending() == line_ending,
            r.spec_auto_flush() == self.spec_auto_flush(),
    {
        StreamWriter { line_ending, ..self }
    }

    pub fn with_auto_flush(self, auto_flush: bool) -> (r: StreamWriter)
        ensures
            r.wf() == self.wf(),
            r.spec_out() == self.spec_out(),
            r.spec_encoding() == self.spec_encoding(),
            r.spec_with_bom() == self.spec_with_bom(),
            r.spec_line_ending() == self.spec_line_ending(),
            r.spec_auto_flush() == auto_flush,
    {
        StreamWriter { auto_flush, ..self }
    }

    /// The same writer, set to put a byte-order mark before every write.
    pub fn with_bom(self) -> (r: StreamWriter)
        ensures
            r.wf(),
            r.spec_out() == self.spec_out(),
            r.spec_encoding() == self.spec_encoding(),
            r.spec_with_bom(),
            r.spec_line_ending() == self.spec_line_ending(),
            r.spec_auto_flush() == self.spec_auto_flush(),
    {
        StreamWriter { handler: self.handler.with_bom(), ..self }
    }

    /// Appends one text to the buffer, converting its terminators to the
    /// writer's convention unless that convention is the default; fails
    /// exactly when the encoding cannot represent the converted text, and
    /// then appends nothing.
    pub fn write_text(&mut self, text: &str) -> (r: Result<(), StreamingError>)
        requires
            old(self).wf(),
        ensures
            final(self).wf(),
            final(self).spec_encoding() == old(self).spec_encoding(),
            final(self).spec_with_bom() == old(self).spec_with_bom(),
            final(self).spec_line_ending() == old(self).spec_line_ending(),
            final(self).spec_auto_flush() == old(self).spec_auto_flush(),
            ({
                let written = spec_written(
                    old(self).spec_encoding(),
                    old(self).spec_with_bom(),
                    old(self).spec_line_ending(),
                    text@,
                );
                &&& (r is Ok <==> written is Some)
                &&& (r is Ok ==> final(self).spec_out() == old(self).spec_out()
                    + written->Some_0)
                &&& (r is Err ==> final(self).spec_out() == old(self).spec_out())
            }),
    {
        let is_default = match self.line_ending {
            LineEnding::LF => true,
            _ => false,
        };
        let converted_text: String = if !is_default {
            let detected = match LineEnding::detect(text) {
                Ok(d) => d,
                Err(_) => LineEnding::LF,
            };
            detected.convert_text(text, self.line_ending)
        } else {
            text.to_owned()
        };
        match self.handler.encode(converted_text.as_str()) {
            Ok(mut bytes) => {
                self.out.append(&mut bytes);
                Ok(())
            },
            Err(e) => Err(StreamingError::EncodingError(e)),
        }
    }

    /// Appends one text followed by the writer's terminator.
    pub fn write_line(&mut self, text: &str) -> (r: Result<(), StreamingError>)
        requires
            old(self).wf(),
        ensures
            final(self).wf(),
            final(self).spec_encoding() == old(self).spec_encoding(),
            final(self).spec_with_bom() == old(self).spec_with_bom(),
            final(self).spec_line_ending() == old(self).spec_line_ending(),
            final(self).spec_auto_flush() == old(self).spec_auto_flush(),
            ({
                let written = spec_written(
                    old(self).spec_encoding(),
                    old(self).spec_with_bom(),
                    old(self).spec_line_ending(),
                    text@ + spec_terminator(old(self).spec_line_ending()),
                );
                &&& (r is Ok <==> written is Some)
                &&& (r is Ok ==> final(self).spec_out() == old(self).spec_out()
                    + written->Some_0)
                &&& (r is Err ==> final(self).spec_out() == old(self).spec_out())
            }),
    {
        let mut line = text.to_owned();
        line.append(self.line_ending.as_str());
        let owned = line;
        self.write_text(owned.as_str())
    }

    /// Appends every line of the list in order, each followed by the writer's
    /// terminator; stops at the first line the encoding cannot represent,
    /// leaving the lines before it written.
    pub fn write_lines(&mut self, lines: Vec<String>) -> (r: Result<(), StreamingError>)
        requires
            old(self).wf(),
        ensures
            final(self).wf(),
            final(self).spec_encoding() == old(self).spec_encoding(),
            final(self).spec_with_bom() == old(self).spec_with_bom(),
            final(self).spec_line_ending() == old(self).spec_line_ending(),
            final(self).spec_auto_flush() == old(self).spec_auto_flush(),
            ({
                let written = spec_written_lines(
                    old(self).spec_encoding(),
                    old(self).spec_with_bom(),
                    old(self).spec_line_ending(),
                    lines@,
                );
                &&& (r is Ok <==> written is Some)
                &&& (r is Ok ==> final(self).spec_out() == old(self).spec_out()
                    + written->Some_0)
            }),
            r is Err ==> exists|k: int|
                {
                    let prefix = spec_written_lines(
                        old(self).spec_encoding(),
                        old(self).spec_with_bom(),
                        old(self).spec_line_ending(),
                        #[trigger] lines@.take(k),
                    );
                    &&& 0 <= k < lines@.len()
                    &&& prefix is Some
                    &&& spec_written(
                        old(self).spec_encoding(),
                        old(self).spec_with_bom(),
                        old(self).spec_line_ending(),
                        lines@[k]@ + spec_terminator(old(self).spec_line_ending()),
                    ) is None
                    &&& final(self).spec_out() == old(self).spec_out() + prefix->Some_0
                },
    {
        let ghost encoding = self.spec_encoding();
        let ghost with_bom = self.spec_with_bom();
        let ghost le = self.spec_line_ending();
        let mut i: usize = 0;
        proof {
            assert(lines@.take(0) =~= Seq::<String>::empty());
        }
        while i < lines.len()
            invariant
                i <= lines@.len(),
                self.wf(),
                encoding == old(self).spec_encoding(),
                with_bom == old(self).spec_with_bom(),
                le == old(self).spec_line_ending(),
                self.spec_encoding() == encoding,
                self.spec_with_bom() == with_bom,
                self.spec_line_ending() == le,
                self.spec_auto_flush() == old(self).spec_auto_flush(),
                spec_written_lines(encoding, with_bom, le, lines@.take(i as int)) is Some,
                self.spec_out() == old(self).spec_out() + spec_written_lines(
                    encoding,
                    with_bom,
                    le,
                    lines@.take(i as int),
                )->Some_0,
            decreases lines@.len() - i,
        {
            let ghost line_value = lines@[i as int];
            proof {
                lemma_written_lines_singleton(encoding, with_bom, le, line_value);
                lemma_written_lines_concat(
                    encoding,
                    with_bom,
                    le,
                    lines@.take(i as int),
                    seq![line_value],
                );
                assert(lines@.take(i + 1) =~= lines@.take(i as int) + seq![line_value]);
            }
            match self.write_line(lines[i].as_str()) {
                Ok(_) => {},
                Err(e) => {
                    proof {
                        lemma_written_lines_concat(
                            encoding,
                            with_bom,
                            le,
                            lines@.take(i + 1),
                            lines@.skip(i + 1),
                        );
                        assert(lines@.take(i + 1) + lines@.skip(i + 1) =~= lines@);
                    }
                    return Err(e);
                },
            }
            i = i + 1;
        }
        proof {
            assert(lines@.take(lines@.len() as int) =~= lines@);
        }
        Ok(())
    }

    /// Makes the buffered bytes final; an in-memory buffer has nothing left
    /// to do.
    pub fn flush(&mut self) -> (r: Result<(), StreamingError>)
        ensures
            r is Ok,
            *final(self) == *old(self),
    {
        Ok(())
    }

    /// The bytes written so far.
    pub fn bytes(&self) -> (r: &[u8])
        ensures
            r@ == self.spec_out(),
    {
        self.out.as_slice()
    }

    /// The bytes written so far, owned.
    pub fn into_bytes(self) -> (r: Vec<u8>)
        ensures
            r@ == self.spec_out(),
    {
        self.out
    }

    pub fn encoding(&self) -> (r: &Encoding)
        ensures
            *r == self.spec_encoding(),
    {
        self.handler.encoding()
    }

    pub fn line_ending(&self) -> (r: LineEnding)
        ensures
            r == self.spec_line_ending(),
    {
        self.line_ending
    }

    pub fn set_encoding(&mut self, encoding: Encoding)
        requires
            old(self).wf(),
        ensures
            final(self).wf(),
            final(self).spec_encoding() == encoding,
            final(self).spec_out() == old(self).spec_out(),
            final(self).spec_with_bom() == old(self).spec_with_bom(),
            final(self).spec_line_ending() == old(self).spec_line_ending(),
            final(self).spec_auto_flush() == old(self).spec_auto_flush(),
    {
        self.handler.set_encoding(encoding);
    }

    pub fn set_line_ending(&mut self, line_ending: LineEnding)
        ensures
            final(self).wf() == old(self).wf(),
            final(self).spec_line_ending() == line_ending,
            final(self).spec_out() == old(self).spec_out(),
            final(self).spec_encoding() == old(self).spec_encoding(),
            final(self).spec_with_bom() == old(self).spec_with_bom(),
            final(self).spec_auto_flush() == old(self).spec_auto_flush(),
    {
        self.line_ending = line_ending;
    }
}

/// Decodes a whole byte source under one encoding, converts its terminators,
/// re-encodes it under another encoding, and reports the converted text's
/// byte length together with the output bytes.
pub fn stream_convert(
    input: &[u8],
    from_encoding: Encoding,
    to_encoding: Encoding,
    from_line_ending: LineEnding,
    to_line_ending: LineEnding,
) -> (r: Result<(usize, Vec<u8>), StreamingError>)
    ensures
        ({
            let decoded = spec_decode(from_encoding, spec_skip_bom(input@));
            &&& (input@.len() == 0 ==> (r matches Ok(pair) && pair.0 == 0 && pair.1@
                == Seq::<u8>::empty()))
            &&& (input@.len() > 0 && !valid_utf8(input@) ==> r is Err)
            &&& (input@.len() > 0 && valid_utf8(input@) && decoded is None ==> r is Err)
            &&& (input@.len() > 0 && valid_utf8(input@) && decoded is Some ==> ({
                let converted = if from_line_ending == to_line_ending {
                    decoded->Some_0
                } else {
                    spec_convert(from_line_ending, decoded->Some_0, to_line_ending)
                };
                let rewritten = spec_written(to_encoding, false, to_line_ending, converted);
                &&& (r is Ok <==> rewritten is Some)
                &&& (r matches Ok(pair) ==> pair.1@ == rewritten->Some_0 && pair.0
                    == vstd::utf8::encode_utf8(converted).len())
            }))
        }),
{
    let mut data: Vec<u8> = Vec::new();
    data.extend_from_slice(input);
    proof {
        assert(data@ =~= input@);
    }
    let mut reader = StreamReader::new(data, from_encoding);
    let mut writer = StreamWriter::new(to_encoding).with_line_ending(to_line_ending).with_auto_flush(
        true,
    );
    let mut total_bytes: usize = 0;
    if input.len() == 0 {
        return Ok((0, writer.into_bytes()));
    }
    proof {
        assert(reader.spec_data().subrange(0, reader.spec_data().len() as int)
            =~= input@);
    }
    let chunk = match reader.read_all() {
        Ok(text) => text,
        Err(e) => {
            return Err(e);
        },
    };
    let same = from_line_ending == to_line_ending;
    let converted_chunk: String = if !same {
        from_line_ending.convert_text(chunk.as_str(), to_line_ending)
    } else {
        chunk
    };
    match writer.write_text(converted_chunk.as_str()) {
        Ok(_) => {},
        Err(e) => {
            return Err(e);
        },
    }
    total_bytes = converted_chunk.as_str().as_bytes().len();
    Ok((total_bytes, writer.into_bytes()))
}

} // verus!
