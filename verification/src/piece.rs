//! Immutable references into externally owned source buffers.

use vstd::prelude::*;
use core::ops::Range;

verus! {

/// An immutable reference to the byte range `[start, end)` of one externally
/// owned source buffer. All transformations return a new value; the referenced
/// bytes are never touched through a `Piece`.
#[derive(Clone, Copy, Debug, PartialEq, Eq, Structural, Hash, PartialOrd, Ord)]
pub struct Piece {
    pub buffer_id: usize,
    pub start: usize,
    pub end: usize,
}

impl Piece {
    /// The range is well formed: its start does not exceed its end.
    pub open spec fn wf(self) -> bool {
        self.start <= self.end
    }

    pub open spec fn spec_len(self) -> int {
        self.end - self.start
    }

    pub open spec fn spec_contains(self, index: usize) -> bool {
        self.start <= index < self.end
    }

    pub open spec fn spec_overlaps(self, other: Piece) -> bool {
        self.buffer_id == other.buffer_id && self.start < other.end && other.start < self.end
    }

    /// Two pieces can merge when they reference the same source buffer and
    /// their local ranges are contiguous, in either order.
    pub open spec fn spec_can_merge(self, other: Piece) -> bool {
        self.buffer_id == other.buffer_id && (self.end == other.start || other.end == self.start)
    }

    /// The union of two mergeable ranges.
    pub open spec fn spec_merge(self, other: Piece) -> Piece {
        Piece {
            buffer_id: self.buffer_id,
            start: if self.start <= other.start {
                self.start
            } else {
                other.start
            },
            end: if self.end >= other.end {
                self.end
            } else {
                other.end
            },
        }
    }

    /// The two halves of this piece when cut `index` bytes after its start.
    pub open spec fn spec_split_at(self, index: usize) -> (Piece, Piece) {
        (
            Piece { buffer_id: self.buffer_id, start: self.start, end: (self.start + index) as usize },
            Piece { buffer_id: self.buffer_id, start: (self.start + index) as usize, end: self.end },
        )
    }

    pub fn new(buffer_id: usize, range: Range<usize>) -> (r: Piece)
        ensures
            r == (Piece { buffer_id, start: range.start, end: range.end }),
    {
        Piece { buffer_id, start: range.start, end: range.end }
    }

    pub fn with_length(buffer_id: usize, start: usize, length: usize) -> (r: Piece)
        requires
            start + length <= usize::MAX,
        ensures
            r == (Piece { buffer_id, start, end: (start + length) as usize }),
            r.wf(),
            r.spec_len() == length,
    {
        Piece { buffer_id, start, end: start + length }
    }

    pub fn len(&self) -> (r: usize)
        requires
            self.wf(),
        ensures
            r == self.spec_len(),
    {
        self.end - self.start
    }

    pub fn is_empty(&self) -> (r: bool)
        requires
            self.wf(),
        ensures
            r == (self.spec_len() == 0),
    {
        self.start == self.end
    }

    pub fn start(&self) -> (r: usize)
        ensures
            r == self.start,
    {
        self.start
    }

    pub fn end(&self) -> (r: usize)
        ensures
            r == self.end,
    {
        self.end
    }

    pub fn range(&self) -> (r: Range<usize>)
        ensures
            r.start == self.start,
            r.end == self.end,
    {
        self.start..self.end
    }

    pub fn contains(&self, index: usize) -> (r: bool)
        ensures
            r == self.spec_contains(index),
    {
        self.start <= index && index < self.end
    }

    pub fn overlaps(&self, other: &Piece) -> (r: bool)
        ensures
            r == self.spec_overlaps(*other),
    {
        self.buffer_id == other.buffer_id && self.start < other.end && other.start < self.end
    }

    pub fn can_merge(&self, other: &Piece) -> (r: bool)
        ensures
            r == self.spec_can_merge(*other),
    {
        self.buffer_id == other.buffer_id && (self.end == other.start || other.end == self.start)
    }

    /// Merging succeeds exactly when `can_merge` holds; the result spans the
    /// union of the two ranges.
    pub fn merge(&self, other: &Piece) -> (r: Option<Piece>)
        ensures
            r is Some <==> self.spec_can_merge(*other),
            self.spec_can_merge(*other) ==> r == Some(self.spec_merge(*other)),
    {
        if !self.can_merge(other) {
            return None;
        }
        let start = if self.start <= other.start {
            self.start
        } else {
            other.start
        };
        let end = if self.end >= other.end {
            self.end
        } else {
            other.end
        };
        Some(Piece { buffer_id: self.buffer_id, start, end })
    }

    /// Cuts this piece into `[0, index)` and `[index, len)` of its range.
    /// An index past the end is a caller programming error, ruled out here.
    pub fn split_at(&self, index: usize) -> (r: (Piece, Piece))
        requires
            self.wf(),
            index <= self.spec_len(),
        ensures
            r == self.spec_split_at(index),
            r.0.wf() && r.1.wf(),
            r.0.spec_len() == index,
            r.0.spec_len() + r.1.spec_len() == self.spec_len(),
    {
        let left = Piece { buffer_id: self.buffer_id, start: self.start, end: self.start + index };
        let right = Piece { buffer_id: self.buffer_id, start: self.start + index, end: self.end };
        (left, right)
    }

    /// The suffix of this piece starting `index` bytes after its start.
    pub fn split_from(&self, index: usize) -> (r: Piece)
        requires
            self.wf(),
            index <= self.spec_len(),
        ensures
            r == self.spec_split_at(index).1,
    {
        Piece { buffer_id: self.buffer_id, start: self.start + index, end: self.end }
    }

    /// The prefix of this piece covering its first `index` bytes.
    pub fn split_to(&self, index: usize) -> (r: Piece)
        requires
            self.wf(),
            index <= self.spec_len(),
        ensures
            r == self.spec_split_at(index).0,
    {
        Piece { buffer_id: self.buffer_id, start: self.start, end: self.start + index }
    }

    /// Translates the range by a signed offset; rejects a result that would
    /// go below zero.
    pub fn shift(&self, offset: isize) -> (r: Option<Piece>)
        requires
            self.wf(),
            self.end + offset <= usize::MAX,
        ensures
            r is Some <==> self.start + offset >= 0,
            self.start + offset >= 0 ==> r == Some(
                Piece {
                    buffer_id: self.buffer_id,
                    start: (self.start + offset) as usize,
                    end: (self.end + offset) as usize,
                },
            ),
    {
        if offset >= 0 {
            let delta = offset as usize;
            Some(Piece { buffer_id: self.buffer_id, start: self.start + delta, end: self.end + delta })
        } else {
            let magnitude: usize = if offset == isize::MIN {
                (isize::MAX as usize) + 1
            } else {
                (-offset) as usize
            };
            if self.start >= magnitude {
                Some(
                    Piece {
                        buffer_id: self.buffer_id,
                        start: self.start - magnitude,
                        end: self.end - magnitude,
                    },
                )
            } else {
                None
            }
        }
    }

    /// Translation for callers that have already validated the bounds.
    pub fn shift_unchecked(&self, offset: isize) -> (r: Piece)
        requires
            self.wf(),
            self.start + offset >= 0,
            self.end + offset <= usize::MAX,
        ensures
            r == (Piece {
                buffer_id: self.buffer_id,
                start: (self.start + offset) as usize,
                end: (self.end + offset) as usize,
            }),
    {
        if offset >= 0 {
            let delta = offset as usize;
            Piece { buffer_id: self.buffer_id, start: self.start + delta, end: self.end + delta }
        } else {
            let magnitude: usize = if offset == isize::MIN {
                (isize::MAX as usize) + 1
            } else {
                (-offset) as usize
            };
            Piece { buffer_id: self.buffer_id, start: self.start - magnitude, end: self.end - magnitude }
        }
    }

    /// Shortens the piece to at most `new_length` bytes, keeping its start.
    pub fn truncate(&self, new_length: usize) -> (r: Piece)
        requires
            self.wf(),
        ensures
            r.buffer_id == self.buffer_id,
            r.start == self.start,
            r.spec_len() == if new_length <= self.spec_len() {
                new_length as int
            } else {
                self.spec_len()
            },
            r.wf(),
    {
        let actual_length = if new_length <= self.end - self.start {
            new_length
        } else {
            self.end - self.start
        };
        Piece { buffer_id: self.buffer_id, start: self.start, end: self.start + actual_length }
    }

    /// Grows the piece by `additional_length` bytes past its end.
    pub fn extend(&self, additional_length: usize) -> (r: Piece)
        requires
            self.end + additional_length <= usize::MAX,
        ensures
            r == (Piece {
                buffer_id: self.buffer_id,
                start: self.start,
                end: (self.end + additional_length) as usize,
            }),
    {
        Piece { buffer_id: self.buffer_id, start: self.start, end: self.end + additional_length }
    }
}

impl Default for Piece {
    /// The empty piece of buffer zero.
    fn default() -> (r: Piece)
        ensures
            r == (Piece { buffer_id: 0, start: 0, end: 0 }),
    {
        Piece { buffer_id: 0, start: 0, end: 0 }
    }
}

impl From<(usize, Range<usize>)> for Piece {
    fn from(pair: (usize, Range<usize>)) -> (r: Piece) {
        Piece { buffer_id: pair.0, start: pair.1.start, end: pair.1.end }
    }
}

impl vstd::std_specs::convert::FromSpecImpl<(usize, Range<usize>)> for Piece {
    open spec fn obeys_from_spec() -> bool {
        true
    }

    open spec fn from_spec(pair: (usize, Range<usize>)) -> Piece {
        Piece { buffer_id: pair.0, start: pair.1.start, end: pair.1.end }
    }
}

impl From<(usize, usize, usize)> for Piece {
    fn from(triple: (usize, usize, usize)) -> (r: Piece) {
        Piece { buffer_id: triple.0, start: triple.1, end: triple.2 }
    }
}

impl vstd::std_specs::convert::FromSpecImpl<(usize, usize, usize)> for Piece {
    open spec fn obeys_from_spec() -> bool {
        true
    }

    open spec fn from_spec(triple: (usize, usize, usize)) -> Piece {
        Piece { buffer_id: triple.0, start: triple.1, end: triple.2 }
    }
}

/// For any well-formed piece split at an index of its range, the two halves
/// can merge back, and merging returns exactly the original piece.
pub proof fn lemma_piece_split_merge_roundtrip(p: Piece, index: usize)
    requires
        p.wf(),
        0 <= index <= p.spec_len(),
    ensures
        p.spec_split_at(index).0.spec_can_merge(p.spec_split_at(index).1),
        p.spec_split_at(index).0.spec_merge(p.spec_split_at(index).1) == p,
{
}

} // verus!
