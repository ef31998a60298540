//! Immutable leaf text segments with a cached index of line-break offsets.

use vstd::prelude::*;
use vstd::utf8::*;
use vstd::string::StringSliceAdditionalSpecFns;
use vstd::string::StrSliceExecFns;
use vstd::string::StringExecFns;
use core::ops::Range;
use crate::text::{
    string_bytes, substr_range, lemma_encode_utf8_concat, lemma_encode_utf8_len_zero,
    lemma_encode_take_succ, lemma_encode_take_monotone, lemma_char_prefix_is_boundary,
    lemma_boundary_is_char_prefix, lemma_boundary_subrange, lemma_decode_char_prefix,
    lemma_encode_utf8_split, lemma_ascii_boundary_step, lemma_encode_singleton, lemma_encode_mid,
    char_utf8_len, char_to_string, eq_str, is_whitespace_char, spec_is_whitespace,
};

verus! {

broadcast use {
    vstd::utf8::encode_utf8_valid_utf8,
    vstd::utf8::encode_utf8_decode_utf8,
    vstd::utf8::is_char_boundary_start_end_of_seq,
    vstd::utf8::is_char_boundary_iff_not_is_continuation_byte,
};

/// The line-break index is exactly the sorted list of the offsets of the
/// newline bytes of the text.
pub open spec fn is_newline_index(lb: Seq<usize>, bytes: Seq<u8>) -> bool {
    &&& forall|j: int| 0 <= j < lb.len() ==> (#[trigger] lb[j]) < bytes.len() && bytes[lb[j] as int]
        == 0x0a
    &&& forall|j1: int, j2: int| 0 <= j1 < j2 < lb.len() ==> lb[j1] < lb[j2]
    &&& forall|i: int| 0 <= i < bytes.len() && bytes[i] == 0x0a ==> exists|j: int|
        0 <= j < lb.len() && lb[j] == i
    &&& lb.len() <= bytes.len()
}

/// An immutable segment of text together with the byte offsets of its
/// newline characters. Every operation that cuts the text validates that the
/// cut falls on a UTF-8 character boundary and yields no result otherwise.
#[derive(Clone, Debug)]
pub struct Chunk {
    text: String,
    line_breaks: Vec<usize>,
}

impl Chunk {
    /// The characters of the segment.
    pub closed spec fn spec_text(self) -> Seq<char> {
        self.text@
    }

    /// The UTF-8 bytes of the segment.
    pub closed spec fn spec_bytes(self) -> Seq<u8> {
        string_bytes(self.text)
    }

    pub closed spec fn spec_line_breaks(self) -> Seq<usize> {
        self.line_breaks@
    }

    /// The cached line-break index matches the text.
    pub open spec fn wf(self) -> bool {
        is_newline_index(self.spec_line_breaks(), self.spec_bytes())
    }

    /// The number of lines: one more than the number of newline bytes.
    pub open spec fn spec_line_count(self) -> int {
        self.spec_line_breaks().len() as int + 1
    }

    /// The byte offset at which a line starts.
    pub open spec fn spec_line_start(self, line: int) -> int {
        if line == 0 {
            0
        } else {
            self.spec_line_breaks()[line - 1] + 1
        }
    }

    /// The byte offset at which a line's content ends, excluding the newline.
    pub open spec fn spec_line_end(self, line: int) -> int {
        if line < self.spec_line_breaks().len() {
            self.spec_line_breaks()[line] as int
        } else {
            self.spec_bytes().len() as int
        }
    }

    /// Builds a segment and computes its line-break index.
    pub fn new(text: String) -> (r: Chunk)
        ensures
            r.wf(),
            r.spec_text() == text@,
            r.spec_bytes() == string_bytes(text),
    {
        let bytes = text.as_str().as_bytes();
        let mut line_breaks: Vec<usize> = Vec::new();
        let mut i: usize = 0;
        while i < bytes.len()
            invariant
                i <= bytes@.len(),
                forall|j: int| 0 <= j < line_breaks@.len() ==> (#[trigger] line_breaks@[j]) < i
                    && bytes@[line_breaks@[j] as int] == 0x0a,
                forall|j1: int, j2: int| 0 <= j1 < j2 < line_breaks@.len() ==> line_breaks@[j1]
                    < line_breaks@[j2],
                forall|p: int| 0 <= p < i && bytes@[p] == 0x0a ==> exists|j: int|
                    0 <= j < line_breaks@.len() && line_breaks@[j] == p,
                line_breaks@.len() <= i,
            decreases bytes@.len() - i,
        {
            let ghost prev = line_breaks@;
            if bytes[i] == 0x0a {
                line_breaks.push(i);
            }
            proof {
                assert forall|p: int| 0 <= p < i + 1 && bytes@[p] == 0x0a implies exists|j: int|
                    0 <= j < line_breaks@.len() && line_breaks@[j] == p by {
                    if p == i {
                        assert(line_breaks@[line_breaks@.len() - 1] == p);
                    } else {
                        let j = choose|j: int| 0 <= j < prev.len() && prev[j] == p;
                        assert(line_breaks@[j] == p);
                    }
                }
            }
            i = i + 1;
        }
        Chunk { text, line_breaks }
    }

    /// The length of the segment in bytes.
    pub fn len(&self) -> (r: usize)
        ensures
            r == self.spec_bytes().len(),
    {
        self.text.as_str().as_bytes().len()
    }

    pub fn is_empty(&self) -> (r: bool)
        ensures
            r == (self.spec_text().len() == 0),
            r == (self.spec_bytes().len() == 0),
    {
        proof {
            lemma_encode_utf8_len_zero(self.text@);
        }
        self.text.as_str().as_bytes().len() == 0
    }

    pub fn text(&self) -> (r: &str)
        ensures
            r@ == self.spec_text(),
            r.spec_bytes() == self.spec_bytes(),
    {
        self.text.as_str()
    }

    pub fn line_endings(&self) -> (r: &[usize])
        ensures
            r@ == self.spec_line_breaks(),
    {
        self.line_breaks.as_slice()
    }

    /// The number of characters of the segment.
    pub fn char_len(&self) -> (r: usize)
        ensures
            r == self.spec_text().len(),
    {
        self.text.as_str().unicode_len()
    }

    /// An iterator over the characters of the segment.
    pub fn iter(&self) -> (r: std::str::Chars)
        ensures
            vstd::string::into_iter_elts(r) == self.spec_text(),
    {
        self.text.as_str().chars()
    }

    /// One more than the number of newline bytes, saturating at the largest
    /// machine value.
    pub fn line_count(&self) -> (r: usize)
        ensures
            r == if self.spec_line_count() <= usize::MAX {
                self.spec_line_count()
            } else {
                usize::MAX as int
            },
    {
        self.line_breaks.len().saturating_add(1)
    }

    /// The sub-segment covering the byte range; yields no result when the
    /// range is inverted, out of bounds, or cuts a character in half. The
    /// segment itself is never changed.
    pub fn slice(&self, range: Range<usize>) -> (r: Option<Chunk>)
        ensures
            r is Some <==> range.start <= range.end <= self.spec_bytes().len()
                && is_char_boundary(self.spec_bytes(), range.start as int) && is_char_boundary(
                self.spec_bytes(),
                range.end as int,
            ),
            r matches Some(c) ==> c.wf() && c.spec_bytes() == self.spec_bytes().subrange(
                range.start as int,
                range.end as int,
            ) && c.spec_text() == decode_utf8(
                self.spec_bytes().subrange(range.start as int, range.end as int),
            ),
    {
        if range.start > range.end || range.end > self.len() {
            return None;
        }
        if !self.text.as_str().is_char_boundary(range.start) || !self.text.as_str().is_char_boundary(
            range.end,
        ) {
            return None;
        }
        let piece = substr_range(self.text.as_str(), range.start, range.end);
        Some(Chunk::new(piece.to_owned()))
    }

    /// Cuts the segment in two at a byte offset; yields no result when the
    /// offset is out of bounds or not a character boundary.
    pub fn split_at(&self, index: usize) -> (r: Option<(Chunk, Chunk)>)
        ensures
            r is Some <==> index <= self.spec_bytes().len() && is_char_boundary(
                self.spec_bytes(),
                index as int,
            ),
            r matches Some(pair) ==> pair.0.wf() && pair.1.wf() && pair.0.spec_bytes()
                == self.spec_bytes().subrange(0, index as int) && pair.1.spec_bytes()
                == self.spec_bytes().subrange(index as int, self.spec_bytes().len() as int),
    {
        if index > self.len() || !self.text.as_str().is_char_boundary(index) {
            return None;
        }
        let left = substr_range(self.text.as_str(), 0, index);
        let right = substr_range(self.text.as_str(), index, self.len());
        Some((Chunk::new(left.to_owned()), Chunk::new(right.to_owned())))
    }

    /// The segment holding this segment's text followed by the other's.
    pub fn concat(&self, other: &Chunk) -> (r: Chunk)
        ensures
            r.wf(),
            r.spec_text() == self.spec_text() + other.spec_text(),
            r.spec_bytes() == self.spec_bytes() + other.spec_bytes(),
    {
        proof {
            lemma_encode_utf8_concat(self.text@, other.text@);
        }
        let mut new_text = String::new();
        new_text.append(self.text.as_str());
        new_text.append(other.text.as_str());
        Chunk::new(new_text)
    }

    /// The content of the given line, excluding its newline; present exactly
    /// for lines below the line count.
    pub fn line_at(&self, line: usize) -> (r: Option<&str>)
        requires
            self.wf(),
        ensures
            r is Some <==> line <= self.spec_line_breaks().len(),
            r matches Some(t) ==> t.spec_bytes() == self.spec_bytes().subrange(
                self.spec_line_start(line as int),
                self.spec_line_end(line as int),
            ),
    {
        if line > self.line_breaks.len() {
            return None;
        }
        let ghost bytes = self.spec_bytes();
        let total = self.len();
        let start: usize = if line == 0 {
            0
        } else {
            self.line_breaks[line - 1] + 1
        };
        let end: usize = if line < self.line_breaks.len() {
            self.line_breaks[line]
        } else {
            total
        };
        proof {
            if line > 0 {
                let b = self.spec_line_breaks()[line - 1] as int;
                assert(bytes[b] == 0x0a);
                assert(!is_continuation_byte(bytes[b]));
                assert(is_char_boundary(bytes, b));
                lemma_ascii_boundary_step(bytes, b);
            }
            if line < self.spec_line_breaks().len() {
                let e = self.spec_line_breaks()[line as int] as int;
                assert(bytes[e] == 0x0a);
                assert(!is_continuation_byte(bytes[e]));
                assert(is_char_boundary(bytes, e));
            }
            assert(start <= end);
        }
        Some(substr_range(self.text.as_str(), start, end))
    }

    /// The number of whole characters that precede a byte offset; present
    /// exactly when the offset is in bounds and on a character boundary.
    pub fn byte_to_char(&self, byte_idx: usize) -> (r: Option<usize>)
        ensures
            r is Some <==> byte_idx <= self.spec_bytes().len() && is_char_boundary(
                self.spec_bytes(),
                byte_idx as int,
            ),
            r matches Some(k) ==> k <= self.spec_text().len() && encode_utf8(
                self.spec_text().take(k as int),
            ).len() == byte_idx,
    {
        let ghost chars = self.spec_text();
        let total = self.len();
        if byte_idx > total {
            return None;
        }
        let n = self.char_len();
        proof {
            assert(chars.take(n as int) =~= chars);
        }
        let mut k: usize = 0;
        let mut pos: usize = 0;
        proof {
            assert(encode_utf8(chars.take(0)).len() == 0) by {
                assert(chars.take(0) =~= Seq::<char>::empty());
            }
        }
        while pos < byte_idx && k < n
            invariant
                k <= n,
                n == chars.len(),
                chars == self.spec_text(),
                pos == encode_utf8(chars.take(k as int)).len(),
                pos <= self.spec_bytes().len(),
                byte_idx <= self.spec_bytes().len(),
                pos > byte_idx ==> !is_char_boundary(self.spec_bytes(), byte_idx as int),
                self.spec_bytes().len() <= usize::MAX,
            decreases n - k,
        {
            proof {
                assert(chars.take(n as int) =~= chars);
                if k == n {
                    assert(pos == self.spec_bytes().len());
                }
                lemma_encode_take_succ(chars, k as int);
                lemma_encode_take_monotone(chars, k + 1, n as int);
            }
            let c = self.text.as_str().get_char(k);
            let w = char_utf8_len(c);
            let ghost old_pos = pos;
            let ghost old_k = k;
            pos = pos + w;
            k = k + 1;
            proof {
                if pos > byte_idx {
                    if is_char_boundary(self.spec_bytes(), byte_idx as int) {
                        lemma_boundary_is_char_prefix(chars, byte_idx as int);
                        let kp = choose|kp: int|
                            0 <= kp <= chars.len() && encode_utf8(chars.take(kp)).len()
                                == byte_idx;
                        if kp <= old_k {
                            lemma_encode_take_monotone(chars, kp, old_k as int);
                        } else {
                            lemma_encode_take_monotone(chars, old_k + 1, kp);
                        }
                    }
                }
            }
        }
        proof {
            if pos < byte_idx {
                assert(k == n);
                assert(chars.take(n as int) =~= chars);
                assert(pos == self.spec_bytes().len());
            }
        }
        if pos == byte_idx {
            proof {
                lemma_char_prefix_is_boundary(chars, k as int);
            }
            Some(k)
        } else {
            None
        }
    }

    /// The byte offset at which the given character index starts; present
    /// exactly when the index does not exceed the character count.
    pub fn char_to_byte(&self, char_idx: usize) -> (r: Option<usize>)
        ensures
            r is Some <==> char_idx <= self.spec_text().len(),
            r matches Some(p) ==> p == encode_utf8(self.spec_text().take(char_idx as int)).len(),
    {
        let ghost chars = self.spec_text();
        let total = self.len();
        proof {
            assert(total == self.spec_bytes().len());
        }
        let n = self.char_len();
        if char_idx > n {
            return None;
        }
        proof {
            assert(chars.take(n as int) =~= chars);
            assert(encode_utf8(chars.take(0)).len() == 0) by {
                assert(chars.take(0) =~= Seq::<char>::empty());
            }
        }
        let mut k: usize = 0;
        let mut pos: usize = 0;
        while k < char_idx
            invariant
                k <= char_idx <= n,
                n == chars.len(),
                chars == self.spec_text(),
                pos == encode_utf8(chars.take(k as int)).len(),
                pos <= self.spec_bytes().len(),
                self.spec_bytes().len() <= usize::MAX,
            decreases char_idx - k,
        {
            proof {
                assert(chars.take(n as int) =~= chars);
                lemma_encode_take_succ(chars, k as int);
                lemma_encode_take_monotone(chars, k + 1, n as int);
            }
            let c = self.text.as_str().get_char(k);
            let w = char_utf8_len(c);
            pos = pos + w;
            k = k + 1;
        }
        Some(pos)
    }

    /// The segment with a character inserted at a byte offset; yields no
    /// result when the offset is out of bounds or not a character boundary.
    pub fn insert(&self, idx: usize, ch: char) -> (r: Option<Chunk>)
        ensures
            r is Some <==> idx <= self.spec_bytes().len() && is_char_boundary(
                self.spec_bytes(),
                idx as int,
            ),
            r matches Some(c) ==> c.wf() && c.spec_bytes() == self.spec_bytes().subrange(
                0,
                idx as int,
            ) + encode_scalar(ch as u32) + self.spec_bytes().subrange(
                idx as int,
                self.spec_bytes().len() as int,
            ),
    {
        if idx > self.len() || !self.text.as_str().is_char_boundary(idx) {
            return None;
        }
        let pre = substr_range(self.text.as_str(), 0, idx);
        let post = substr_range(self.text.as_str(), idx, self.len());
        let mid = char_to_string(ch);
        let mut new_text = String::new();
        new_text.append(pre);
        new_text.append(mid.as_str());
        new_text.append(post);
        proof {
            lemma_encode_utf8_concat(pre@ + mid@, post@);
            lemma_encode_utf8_concat(pre@, mid@);
            lemma_encode_singleton(ch);
            assert(new_text@ =~= (pre@ + mid@) + post@);
        }
        Some(Chunk::new(new_text))
    }

    /// The segment with a string inserted at a byte offset; yields no result
    /// when the offset is out of bounds or not a character boundary.
    pub fn insert_str(&self, idx: usize, string: &str) -> (r: Option<Chunk>)
        ensures
            r is Some <==> idx <= self.spec_bytes().len() && is_char_boundary(
                self.spec_bytes(),
                idx as int,
            ),
            r matches Some(c) ==> c.wf() && c.spec_bytes() == self.spec_bytes().subrange(
                0,
                idx as int,
            ) + string.spec_bytes() + self.spec_bytes().subrange(
                idx as int,
                self.spec_bytes().len() as int,
            ),
    {
        if idx > self.len() || !self.text.as_str().is_char_boundary(idx) {
            return None;
        }
        let pre = substr_range(self.text.as_str(), 0, idx);
        let post = substr_range(self.text.as_str(), idx, self.len());
        let mut new_text = String::new();
        new_text.append(pre);
        new_text.append(string);
        new_text.append(post);
        proof {
            lemma_encode_utf8_concat(pre@ + string@, post@);
            lemma_encode_utf8_concat(pre@, string@);
            assert(new_text@ =~= (pre@ + string@) + post@);
        }
        Some(Chunk::new(new_text))
    }

    /// The segment with a byte range replaced by other text; yields no result
    /// when the range is inverted, out of bounds, or cuts a character in half.
    pub fn replace_range(&self, range: Range<usize>, replacement: &str) -> (r: Option<Chunk>)
        ensures
            r is Some <==> range.start <= range.end <= self.spec_bytes().len()
                && is_char_boundary(self.spec_bytes(), range.start as int) && is_char_boundary(
                self.spec_bytes(),
                range.end as int,
            ),
            r matches Some(c) ==> c.wf() && c.spec_bytes() == self.spec_bytes().subrange(
                0,
                range.start as int,
            ) + replacement.spec_bytes() + self.spec_bytes().subrange(
                range.end as int,
                self.spec_bytes().len() as int,
            ),
    {
        if range.start > range.end || range.end > self.len() {
            return None;
        }
        if !self.text.as_str().is_char_boundary(range.start) || !self.text.as_str().is_char_boundary(
            range.end,
        ) {
            return None;
        }
        let pre = substr_range(self.text.as_str(), 0, range.start);
        let post = substr_range(self.text.as_str(), range.end, self.len());
        let mut new_text = String::new();
        new_text.append(pre);
        new_text.append(replacement);
        new_text.append(post);
        proof {
            lemma_encode_utf8_concat(pre@ + replacement@, post@);
            lemma_encode_utf8_concat(pre@, replacement@);
            assert(new_text@ =~= (pre@ + replacement@) + post@);
        }
        Some(Chunk::new(new_text))
    }

    /// The segment with the character starting at a byte offset removed,
    /// together with that character; yields no result when the offset is out
    /// of bounds or not a character boundary.
    pub fn remove(&self, idx: usize) -> (r: Option<(Chunk, char)>)
        ensures
            r is Some <==> idx < self.spec_bytes().len() && is_char_boundary(
                self.spec_bytes(),
                idx as int,
            ),
            r matches Some(pair) ==> {
                let w = encode_scalar(pair.1 as u32).len() as int;
                &&& pair.0.wf()
                &&& idx + w <= self.spec_bytes().len()
                &&& self.spec_bytes().subrange(idx as int, idx + w) == encode_scalar(
                    pair.1 as u32,
                )
                &&& pair.0.spec_bytes() == self.spec_bytes().subrange(0, idx as int)
                    + self.spec_bytes().subrange(idx + w, self.spec_bytes().len() as int)
            },
    {
        let ghost chars = self.spec_text();
        let ghost bytes = self.spec_bytes();
        if idx >= self.len() || !self.text.as_str().is_char_boundary(idx) {
            return None;
        }
        let k = match self.byte_to_char(idx) {
            Some(k) => k,
            None => vstd::pervasive::unreached(),
        };
        proof {
            if k == chars.len() {
                assert(chars.take(k as int) =~= chars);
            }
        }
        let ch = self.text.as_str().get_char(k);
        let w = char_utf8_len(ch);
        proof {
            lemma_encode_take_succ(chars, k as int);
            lemma_encode_take_monotone(chars, k + 1, chars.len() as int);
            assert(chars.take(chars.len() as int) =~= chars);
            lemma_char_prefix_is_boundary(chars, k + 1);
            // the bytes of the removed character
            lemma_encode_utf8_split(chars, k as int);
            lemma_encode_utf8_split(chars.skip(k as int), 1);
            assert(chars.skip(k as int).take(1) =~= seq![chars[k as int]]);
            lemma_encode_singleton(chars[k as int]);
            assert(chars.skip(k as int).skip(1) =~= chars.skip(k + 1));
            assert(bytes.subrange(idx as int, idx + w as int) =~= encode_scalar(ch as u32));
        }
        let end = idx + w;
        let pre = substr_range(self.text.as_str(), 0, idx);
        let post = substr_range(self.text.as_str(), end, self.len());
        let mut new_text = String::new();
        new_text.append(pre);
        new_text.append(post);
        proof {
            lemma_encode_utf8_concat(pre@, post@);
            assert(new_text@ =~= pre@ + post@);
        }
        Some((Chunk::new(new_text), ch))
    }

    /// The sub-segment covering the characters strictly between two character
    /// indices, used by the trimming operations.
    fn char_range(&self, k1: usize, k2: usize) -> (r: Chunk)
        requires
            k1 <= k2 <= self.spec_text().len(),
        ensures
            r.wf(),
            r.spec_text() == self.spec_text().subrange(k1 as int, k2 as int),
    {
        let ghost chars = self.spec_text();
        let b1 = match self.char_to_byte(k1) {
            Some(b) => b,
            None => vstd::pervasive::unreached(),
        };
        let b2 = match self.char_to_byte(k2) {
            Some(b) => b,
            None => vstd::pervasive::unreached(),
        };
        proof {
            lemma_char_prefix_is_boundary(chars, k1 as int);
            lemma_char_prefix_is_boundary(chars, k2 as int);
            lemma_encode_mid(chars, k1 as int, k2 as int);
            lemma_encode_take_monotone(chars, k2 as int, chars.len() as int);
            assert(chars.take(chars.len() as int) =~= chars);
        }
        let piece = substr_range(self.text.as_str(), b1, b2);
        proof {
            assert(decode_utf8(encode_utf8(chars.subrange(k1 as int, k2 as int)))
                == chars.subrange(k1 as int, k2 as int));
        }
        Chunk::new(piece.to_owned())
    }

    /// The segment without its leading whitespace characters.
    pub fn trim_start(&self) -> (r: Chunk)
        ensures
            r.wf(),
            r.spec_text() == self.spec_text().skip(spec_ws_prefix_len(self.spec_text())),
    {
        let ghost chars = self.spec_text();
        let n = self.char_len();
        let mut k: usize = 0;
        while k < n && is_whitespace_char(self.text.as_str().get_char(k))
            invariant
                k <= n,
                n == chars.len(),
                chars == self.spec_text(),
                forall|j: int| 0 <= j < k ==> spec_is_whitespace(chars[j]),
            decreases n - k,
        {
            k = k + 1;
        }
        proof {
            lemma_ws_prefix_len_from_scan(chars, k as int);
            assert(chars.subrange(k as int, chars.len() as int) =~= chars.skip(k as int));
        }
        self.char_range(k, n)
    }

    /// The segment without its trailing whitespace characters.
    pub fn trim_end(&self) -> (r: Chunk)
        ensures
            r.wf(),
            r.spec_text() == self.spec_text().take(spec_ws_suffix_start(self.spec_text())),
    {
        let ghost chars = self.spec_text();
        let n = self.char_len();
        let mut k: usize = n;
        while k > 0 && is_whitespace_char(self.text.as_str().get_char(k - 1))
            invariant
                k <= n,
                n == chars.len(),
                chars == self.spec_text(),
                forall|j: int| k <= j < n ==> spec_is_whitespace(chars[j]),
            decreases k,
        {
            k = k - 1;
        }
        proof {
            lemma_ws_suffix_start_from_scan(chars, k as int);
            assert(chars.subrange(0, k as int) =~= chars.take(k as int));
        }
        self.char_range(0, k)
    }

    /// The segment without leading and trailing whitespace characters.
    pub fn trim(&self) -> (r: Chunk)
        ensures
            r.wf(),
            r.spec_text() == if spec_ws_prefix_len(self.spec_text()) >= spec_ws_suffix_start(
                self.spec_text(),
            ) {
                Seq::<char>::empty()
            } else {
                self.spec_text().subrange(
                    spec_ws_prefix_len(self.spec_text()),
                    spec_ws_suffix_start(self.spec_text()),
                )
            },
    {
        let ghost chars = self.spec_text();
        let n = self.char_len();
        let mut k1: usize = 0;
        while k1 < n && is_whitespace_char(self.text.as_str().get_char(k1))
            invariant
                k1 <= n,
                n == chars.len(),
                chars == self.spec_text(),
                forall|j: int| 0 <= j < k1 ==> spec_is_whitespace(chars[j]),
            decreases n - k1,
        {
            k1 = k1 + 1;
        }
        let mut k2: usize = n;
        while k2 > 0 && is_whitespace_char(self.text.as_str().get_char(k2 - 1))
            invariant
                k2 <= n,
                n == chars.len(),
                chars == self.spec_text(),
                forall|j: int| k2 <= j < n ==> spec_is_whitespace(chars[j]),
            decreases k2,
        {
            k2 = k2 - 1;
        }
        proof {
            lemma_ws_prefix_len_from_scan(chars, k1 as int);
            lemma_ws_suffix_start_from_scan(chars, k2 as int);
        }
        if k1 >= k2 {
            Chunk::new(String::new())
        } else {
            self.char_range(k1, k2)
        }
    }

    /// The first byte offset at which the pattern occurs as a substring.
    pub fn find(&self, pattern: &str) -> (r: Option<usize>)
        ensures
            r matches Some(i) ==> spec_match_at(self.spec_bytes(), pattern.spec_bytes(), i as int)
                && forall|j: int| 0 <= j < i ==> !spec_match_at(
                self.spec_bytes(),
                pattern.spec_bytes(),
                j,
            ),
            r is None ==> forall|j: int| !spec_match_at(self.spec_bytes(), pattern.spec_bytes(), j),
    {
        let h = self.text.as_str().as_bytes();
        let nd = pattern.as_bytes();
        if nd.len() > h.len() {
            return None;
        }
        let last = h.len() - nd.len();
        let mut i: usize = 0;
        loop
            invariant
                i <= last,
                last == h@.len() - nd@.len(),
                nd@.len() <= h@.len(),
                h@ == self.spec_bytes(),
                nd@ == pattern.spec_bytes(),
                forall|j: int| 0 <= j < i ==> !spec_match_at(h@, nd@, j),
            decreases last - i,
        {
            if bytes_match_at(h, nd, i) {
                return Some(i);
            }
            if i == last {
                return None;
            }
            i = i + 1;
        }
    }

    /// The last byte offset at which the pattern occurs as a substring.
    pub fn rfind(&self, pattern: &str) -> (r: Option<usize>)
        ensures
            r matches Some(i) ==> spec_match_at(self.spec_bytes(), pattern.spec_bytes(), i as int)
                && forall|j: int| i < j ==> !spec_match_at(
                self.spec_bytes(),
                pattern.spec_bytes(),
                j,
            ),
            r is None ==> forall|j: int| !spec_match_at(self.spec_bytes(), pattern.spec_bytes(), j),
    {
        let h = self.text.as_str().as_bytes();
        let nd = pattern.as_bytes();
        if nd.len() > h.len() {
            return None;
        }
        let last = h.len() - nd.len();
        let mut i: usize = last;
        loop
            invariant
                i <= last,
                last == h@.len() - nd@.len(),
                nd@.len() <= h@.len(),
                h@ == self.spec_bytes(),
                nd@ == pattern.spec_bytes(),
                forall|j: int| i < j ==> !spec_match_at(h@, nd@, j),
            decreases i,
        {
            if bytes_match_at(h, nd, i) {
                return Some(i);
            }
            if i == 0 {
                return None;
            }
            i = i - 1;
        }
    }

    /// True when the pattern occurs somewhere in the segment.
    pub fn contains(&self, pattern: &str) -> (r: bool)
        ensures
            r == exists|j: int| spec_match_at(self.spec_bytes(), pattern.spec_bytes(), j),
    {
        match self.find(pattern) {
            Some(_) => true,
            None => false,
        }
    }

    /// True when the segment's bytes start with the pattern's bytes.
    pub fn starts_with(&self, prefix: &str) -> (r: bool)
        ensures
            r == spec_match_at(self.spec_bytes(), prefix.spec_bytes(), 0),
    {
        let h = self.text.as_str().as_bytes();
        let nd = prefix.as_bytes();
        if nd.len() > h.len() {
            return false;
        }
        bytes_match_at(h, nd, 0)
    }

    /// True when the segment's bytes end with the pattern's bytes.
    pub fn ends_with(&self, suffix: &str) -> (r: bool)
        ensures
            r == spec_match_at(
                self.spec_bytes(),
                suffix.spec_bytes(),
                self.spec_bytes().len() - suffix.spec_bytes().len(),
            ),
    {
        let h = self.text.as_str().as_bytes();
        let nd = suffix.as_bytes();
        if nd.len() > h.len() {
            return false;
        }
        bytes_match_at(h, nd, h.len() - nd.len())
    }
}

/// The pattern's bytes occur in the haystack starting at offset `i`.
pub open spec fn spec_match_at(haystack: Seq<u8>, pattern: Seq<u8>, i: int) -> bool {
    0 <= i && i + pattern.len() <= haystack.len() && haystack.subrange(i, i + pattern.len())
        == pattern
}

pub(crate) fn bytes_match_at(h: &[u8], nd: &[u8], i: usize) -> (r: bool)
    requires
        i + nd@.len() <= h@.len(),
    ensures
        r == spec_match_at(h@, nd@, i as int),
{
    let hl = h.len();
    let mut j: usize = 0;
    while j < nd.len()
        invariant
            j <= nd@.len(),
            i + nd@.len() <= h@.len(),
            h@.len() <= usize::MAX,
            forall|t: int| 0 <= t < j ==> h@[i + t] == nd@[t],
        decreases nd@.len() - j,
    {
        if h[i + j] != nd[j] {
            proof {
                if spec_match_at(h@, nd@, i as int) {
                    assert(h@.subrange(i as int, i + nd@.len())[j as int] == nd@[j as int]);
                }
            }
            return false;
        }
        j = j + 1;
    }
    proof {
        assert(h@.subrange(i as int, i + nd@.len()) =~= nd@);
    }
    true
}

/// The number of whitespace characters at the front of the sequence.
pub open spec fn spec_ws_prefix_len(chars: Seq<char>) -> int
    decreases chars.len(),
{
    if chars.len() == 0 {
        0
    } else if spec_is_whitespace(chars[0]) {
        1 + spec_ws_prefix_len(chars.drop_first())
    } else {
        0
    }
}

/// The index at which the trailing whitespace of the sequence starts.
pub open spec fn spec_ws_suffix_start(chars: Seq<char>) -> int
    decreases chars.len(),
{
    if chars.len() == 0 {
        0
    } else if spec_is_whitespace(chars.last()) {
        spec_ws_suffix_start(chars.drop_last())
    } else {
        chars.len() as int
    }
}

proof fn lemma_ws_prefix_len_from_scan(chars: Seq<char>, k: int)
    requires
        0 <= k <= chars.len(),
        forall|j: int| 0 <= j < k ==> spec_is_whitespace(chars[j]),
        k < chars.len() ==> !spec_is_whitespace(chars[k]),
    ensures
        spec_ws_prefix_len(chars) == k,
    decreases chars.len(),
{
    if chars.len() == 0 {
    } else if k == 0 {
    } else {
        assert(spec_is_whitespace(chars[0]));
        lemma_ws_prefix_len_from_scan(chars.drop_first(), k - 1);
    }
}

proof fn lemma_ws_suffix_start_from_scan(chars: Seq<char>, k: int)
    requires
        0 <= k <= chars.len(),
        forall|j: int| k <= j < chars.len() ==> spec_is_whitespace(chars[j]),
        k > 0 ==> !spec_is_whitespace(chars[k - 1]),
    ensures
        spec_ws_suffix_start(chars) == k,
    decreases chars.len(),
{
    if chars.len() == 0 {
    } else if k == chars.len() {
        assert(!spec_is_whitespace(chars.last()));
    } else {
        assert(spec_is_whitespace(chars.last()));
        lemma_ws_suffix_start_from_scan(chars.drop_last(), k);
    }
}

impl PartialEq for Chunk {
    fn eq(&self, other: &Chunk) -> (r: bool) {
        eq_str(self.text.as_str(), other.text.as_str())
    }
}

impl Eq for Chunk {

}

impl vstd::std_specs::cmp::PartialEqSpecImpl for Chunk {
    open spec fn obeys_eq_spec() -> bool {
        true
    }

    open spec fn eq_spec(&self, other: &Chunk) -> bool {
        self.spec_text() == other.spec_text()
    }
}

impl Default for Chunk {
    /// The empty segment.
    fn default() -> (r: Chunk)
        ensures
            r.wf(),
            r.spec_text().len() == 0,
    {
        Chunk::new(String::new())
    }
}

impl From<&str> for Chunk {
    fn from(s: &str) -> (r: Chunk) {
        Chunk::new(s.to_owned())
    }
}

impl vstd::std_specs::convert::FromSpecImpl<&str> for Chunk {
    open spec fn obeys_from_spec() -> bool {
        false
    }

    open spec fn from_spec(s: &str) -> Chunk {
        choose|c: Chunk| c.wf() && c.spec_text() == s@
    }
}

impl From<String> for Chunk {
    fn from(s: String) -> (r: Chunk) {
        Chunk::new(s)
    }
}

impl vstd::std_specs::convert::FromSpecImpl<String> for Chunk {
    open spec fn obeys_from_spec() -> bool {
        false
    }

    open spec fn from_spec(s: String) -> Chunk {
        choose|c: Chunk| c.wf() && c.spec_text() == s@
    }
}

} // verus!
