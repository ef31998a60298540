//! A piece annotated with its absolute offset in the logical document.

use vstd::prelude::*;
use core::ops::Range;
use std::sync::Arc;
use crate::piece::Piece;

verus! {

/// Pairs a shared `Piece` with the absolute byte offset at which it appears in
/// the logical document, and translates between global (document) and local
/// (source-buffer) coordinates. Descriptors are computed on demand and never
/// stored in the piece-table buffer.
#[derive(Clone, Debug, Hash)]
pub struct PieceDescriptor {
    pub piece: Arc<Piece>,
    pub global_start: usize,
}

impl PieceDescriptor {
    /// The piece is well formed and the descriptor's global range fits in the
    /// address space.
    pub open spec fn wf(self) -> bool {
        self.piece.wf() && self.global_start + self.piece.spec_len() <= usize::MAX
    }

    pub open spec fn spec_len(self) -> int {
        self.piece.spec_len()
    }

    pub open spec fn spec_global_end(self) -> int {
        self.global_start + self.piece.spec_len()
    }

    pub open spec fn spec_contains_global(self, index: usize) -> bool {
        self.global_start <= index < self.spec_global_end()
    }

    pub open spec fn spec_intersects_global_range(self, start: usize, end: usize) -> bool {
        !(end <= self.global_start || start >= self.spec_global_end())
    }

    /// The local (source-buffer) coordinate of a global index.
    pub open spec fn spec_global_to_local(self, global_index: usize) -> int {
        self.piece.start + (global_index - self.global_start)
    }

    /// The global (document) coordinate of a local index.
    pub open spec fn spec_local_to_global(self, local_index: usize) -> int {
        self.global_start + (local_index - self.piece.start)
    }

    /// Two descriptors can merge when their pieces can merge and their global
    /// ranges are contiguous, in either order.
    pub open spec fn spec_can_merge(self, other: PieceDescriptor) -> bool {
        self.piece.spec_can_merge(*other.piece) && (self.spec_global_end() == other.global_start
            || other.spec_global_end() == self.global_start)
    }

    /// The two descriptors produced by cutting this one at a global index.
    pub open spec fn spec_split_at(self, global_index: usize) -> (PieceDescriptor, PieceDescriptor) {
        let pieces = self.piece.spec_split_at((global_index - self.global_start) as usize);
        (
            PieceDescriptor { piece: Arc::new(pieces.0), global_start: self.global_start },
            PieceDescriptor { piece: Arc::new(pieces.1), global_start: global_index },
        )
    }

    pub fn new(piece: Arc<Piece>, global_start: usize) -> (r: PieceDescriptor)
        ensures
            r.piece == piece,
            r.global_start == global_start,
    {
        PieceDescriptor { piece, global_start }
    }

    pub fn from_piece(piece: Piece, global_start: usize) -> (r: PieceDescriptor)
        ensures
            *r.piece == piece,
            r.global_start == global_start,
    {
        PieceDescriptor { piece: Arc::new(piece), global_start }
    }

    pub fn len(&self) -> (r: usize)
        requires
            self.piece.wf(),
        ensures
            r == self.spec_len(),
    {
        self.piece.len()
    }

    pub fn is_empty(&self) -> (r: bool)
        requires
            self.piece.wf(),
        ensures
            r == (self.spec_len() == 0),
    {
        self.piece.is_empty()
    }

    pub fn global_end(&self) -> (r: usize)
        requires
            self.wf(),
        ensures
            r == self.spec_global_end(),
    {
        self.global_start + self.piece.len()
    }

    pub fn global_range(&self) -> (r: Range<usize>)
        requires
            self.wf(),
        ensures
            r.start == self.global_start,
            r.end == self.spec_global_end(),
    {
        self.global_start..self.global_end()
    }

    pub fn contains_global(&self, index: usize) -> (r: bool)
        requires
            self.wf(),
        ensures
            r == self.spec_contains_global(index),
    {
        index >= self.global_start && index < self.global_end()
    }

    pub fn contains_global_range(&self, range: &Range<usize>) -> (r: bool)
        requires
            self.wf(),
        ensures
            r == (range.start >= self.global_start && range.end <= self.spec_global_end()),
    {
        range.start >= self.global_start && range.end <= self.global_end()
    }

    pub fn intersects_global_range(&self, range: &Range<usize>) -> (r: bool)
        requires
            self.wf(),
        ensures
            r == self.spec_intersects_global_range(range.start, range.end),
    {
        !(range.end <= self.global_start || range.start >= self.global_end())
    }

    pub fn local_range(&self) -> (r: Range<usize>)
        ensures
            r.start == self.piece.start,
            r.end == self.piece.end,
    {
        self.piece.range()
    }

    pub fn local_start(&self) -> (r: usize)
        ensures
            r == self.piece.start,
    {
        self.piece.start()
    }

    pub fn local_end(&self) -> (r: usize)
        ensures
            r == self.piece.end,
    {
        self.piece.end()
    }

    pub fn buffer_id(&self) -> (r: usize)
        ensures
            r == self.piece.buffer_id,
    {
        self.piece.buffer_id
    }

    /// Translates a global index to the local coordinate space; succeeds
    /// exactly when the index falls inside this descriptor's global range.
    pub fn global_to_local(&self, global_index: usize) -> (r: Option<usize>)
        requires
            self.wf(),
        ensures
            r is Some <==> self.spec_contains_global(global_index),
            self.spec_contains_global(global_index) ==> r == Some(
                self.spec_global_to_local(global_index) as usize,
            ),
    {
        if self.contains_global(global_index) {
            Some(self.local_start() + (global_index - self.global_start))
        } else {
            None
        }
    }

    /// Translates a local index to the global coordinate space; succeeds
    /// exactly when the index falls inside the piece's local range.
    pub fn local_to_global(&self, local_index: usize) -> (r: Option<usize>)
        requires
            self.wf(),
        ensures
            r is Some <==> self.piece.spec_contains(local_index),
            self.piece.spec_contains(local_index) ==> r == Some(
                self.spec_local_to_global(local_index) as usize,
            ),
    {
        if self.piece.contains(local_index) {
            Some(self.global_start + (local_index - self.local_start()))
        } else {
            None
        }
    }

    pub fn can_merge(&self, other: &PieceDescriptor) -> (r: bool)
        requires
            self.wf(),
            other.wf(),
        ensures
            r == self.spec_can_merge(*other),
    {
        self.piece.can_merge(&other.piece) && (self.global_end() == other.global_start
            || other.global_end() == self.global_start)
    }

    /// Merging succeeds exactly when `can_merge` holds; the merged piece spans
    /// the union of the local ranges and starts at the earlier global offset.
    pub fn merge(&self, other: &PieceDescriptor) -> (r: Option<PieceDescriptor>)
        requires
            self.wf(),
            other.wf(),
        ensures
            r is Some <==> self.spec_can_merge(*other),
            self.spec_can_merge(*other) ==> (r matches Some(d) && *d.piece == self.piece.spec_merge(
                *other.piece,
            ) && d.global_start == if self.global_start <= other.global_start {
                self.global_start
            } else {
                other.global_start
            }),
    {
        if !self.can_merge(other) {
            return None;
        }
        let merged_piece = match self.piece.merge(&other.piece) {
            Some(p) => p,
            None => {
                return None;
            },
        };
        let new_global_start = if self.global_start <= other.global_start {
            self.global_start
        } else {
            other.global_start
        };
        Some(PieceDescriptor::new(Arc::new(merged_piece), new_global_start))
    }

    pub fn overlaps(&self, other: &PieceDescriptor) -> (r: bool)
        requires
            self.wf(),
            other.wf(),
        ensures
            r == (self.piece.spec_overlaps(*other.piece) && self.global_start
                < other.spec_global_end() && other.global_start < self.spec_global_end()),
    {
        self.piece.overlaps(&other.piece) && self.global_start < other.global_end()
            && other.global_start < self.global_end()
    }

    /// Cuts the descriptor at a global index strictly inside it; rejects the
    /// boundaries themselves and anything outside.
    pub fn split_at(&self, global_index: usize) -> (r: Option<(PieceDescriptor, PieceDescriptor)>)
        requires
            self.wf(),
        ensures
            r is Some <==> self.spec_contains_global(global_index) && global_index
                != self.global_start,
            r is Some ==> r == Some(self.spec_split_at(global_index)),
            r matches Some(pair) ==> pair.0.wf() && pair.1.wf(),
    {
        if !self.contains_global(global_index) || self.is_empty() {
            return None;
        }
        let local_index = global_index - self.global_start;
        if local_index == 0 {
            return None;
        }
        let (left_piece, right_piece) = self.piece.split_at(local_index);
        Some(
            (
                PieceDescriptor::new(Arc::new(left_piece), self.global_start),
                PieceDescriptor::new(Arc::new(right_piece), global_index),
            ),
        )
    }

    /// Carves the portion of this descriptor covered by a global range out of
    /// it: `middle` is the intersection, and the optional remainders are the
    /// parts of the original descriptor before and after the requested range.
    /// Rejects an empty range and a range that misses the descriptor.
    pub fn split_range(&self, global_range: Range<usize>) -> (r: Option<
        (Option<PieceDescriptor>, PieceDescriptor, Option<PieceDescriptor>),
    >)
        requires
            self.wf(),
        ensures
            r is Some <==> global_range.start < global_range.end
                && self.spec_intersects_global_range(global_range.start, global_range.end),
            r matches Some(parts) ==> {
                let range_start = if global_range.start >= self.global_start {
                    global_range.start as int
                } else {
                    self.global_start as int
                };
                let range_end = if global_range.end <= self.spec_global_end() {
                    global_range.end as int
                } else {
                    self.spec_global_end()
                };
                &&& parts.1.wf()
                &&& (parts.0 matches Some(l) ==> l.wf())
                &&& (parts.2 matches Some(x) ==> x.wf())
                &&& parts.1.global_start == range_start
                &&& parts.1.spec_global_end() == range_end
                &&& parts.1.piece.buffer_id == self.piece.buffer_id
                &&& parts.1.piece.start == self.spec_global_to_local(range_start as usize)
                &&& (parts.0 is Some <==> range_start > self.global_start)
                &&& (parts.0 matches Some(l) ==> l.global_start == self.global_start
                    && l.spec_global_end() == range_start && l.piece.start == self.piece.start
                    && l.piece.buffer_id == self.piece.buffer_id)
                &&& (parts.2 is Some <==> range_end < self.spec_global_end())
                &&& (parts.2 matches Some(x) ==> x.global_start == range_end
                    && x.spec_global_end() == self.spec_global_end() && x.piece.end
                    == self.piece.end && x.piece.buffer_id == self.piece.buffer_id)
            },
    {
        if global_range.start >= global_range.end || !self.intersects_global_range(&global_range) {
            return None;
        }
        let range_start = if global_range.start >= self.global_start {
            global_range.start
        } else {
            self.global_start
        };
        let range_end = if global_range.end <= self.global_end() {
            global_range.end
        } else {
            self.global_end()
        };

        let mut left: Option<PieceDescriptor> = None;
        let mut middle = PieceDescriptor { piece: self.piece.clone(), global_start: self.global_start };
        let mut right: Option<PieceDescriptor> = None;

        if range_start > self.global_start {
            let (l, r) = match self.split_at(range_start) {
                Some(pair) => pair,
                None => {
                    return None;
                },
            };
            left = Some(l);
            middle = r;
        }

        if range_end < middle.global_end() {
            let (l, r) = match middle.split_at(range_end) {
                Some(pair) => pair,
                None => {
                    return None;
                },
            };
            middle = l;
            right = Some(r);
        }

        Some((left, middle, right))
    }

    /// Translates the global offset by a signed amount; rejects a result that
    /// would go below zero.
    pub fn shift_global(&self, offset: isize) -> (r: Option<PieceDescriptor>)
        requires
            self.global_start + offset <= usize::MAX,
        ensures
            r is Some <==> self.global_start + offset >= 0,
            self.global_start + offset >= 0 ==> (r matches Some(d) && d.piece == self.piece
                && d.global_start == self.global_start + offset),
    {
        if offset >= 0 {
            Some(PieceDescriptor::new(self.piece.clone(), self.global_start + offset as usize))
        } else {
            let magnitude: usize = if offset == isize::MIN {
                (isize::MAX as usize) + 1
            } else {
                (-offset) as usize
            };
            if self.global_start >= magnitude {
                Some(PieceDescriptor::new(self.piece.clone(), self.global_start - magnitude))
            } else {
                None
            }
        }
    }

    /// Offset translation for callers that have already validated the bounds.
    pub fn shift_global_unchecked(&self, offset: isize) -> (r: PieceDescriptor)
        requires
            self.global_start + offset >= 0,
            self.global_start + offset <= usize::MAX,
        ensures
            r.piece == self.piece,
            r.global_start == self.global_start + offset,
    {
        if offset >= 0 {
            PieceDescriptor::new(self.piece.clone(), self.global_start + offset as usize)
        } else {
            let magnitude: usize = if offset == isize::MIN {
                (isize::MAX as usize) + 1
            } else {
                (-offset) as usize
            };
            PieceDescriptor::new(self.piece.clone(), self.global_start - magnitude)
        }
    }

    /// Shortens the piece to at most `new_length` bytes; the global offset is
    /// unchanged.
    pub fn truncate(&self, new_length: usize) -> (r: PieceDescriptor)
        requires
            self.piece.wf(),
        ensures
            r.global_start == self.global_start,
            r.piece.buffer_id == self.piece.buffer_id,
            r.piece.start == self.piece.start,
            r.spec_len() == if new_length <= self.spec_len() {
                new_length as int
            } else {
                self.spec_len()
            },
            r.piece.wf(),
    {
        let truncated_piece = self.piece.truncate(new_length);
        PieceDescriptor::new(Arc::new(truncated_piece), self.global_start)
    }

    /// Grows the piece by `additional_length` bytes past its end.
    pub fn extend(&self, additional_length: usize) -> (r: PieceDescriptor)
        requires
            self.piece.end + additional_length <= usize::MAX,
        ensures
            r.global_start == self.global_start,
            *r.piece == (Piece {
                buffer_id: self.piece.buffer_id,
                start: self.piece.start,
                end: (self.piece.end + additional_length) as usize,
            }),
    {
        let extended_piece = self.piece.extend(additional_length);
        PieceDescriptor::new(Arc::new(extended_piece), self.global_start)
    }

    pub fn with_global_start(&self, new_global_start: usize) -> (r: PieceDescriptor)
        ensures
            r.piece == self.piece,
            r.global_start == new_global_start,
    {
        PieceDescriptor::new(self.piece.clone(), new_global_start)
    }

    pub fn is_adjacent_to(&self, other: &PieceDescriptor) -> (r: bool)
        requires
            self.wf(),
            other.wf(),
        ensures
            r == (self.spec_global_end() == other.global_start || other.spec_global_end()
                == self.global_start),
    {
        self.global_end() == other.global_start || other.global_end() == self.global_start
    }

    /// The gap in bytes between two non-overlapping global ranges; zero when
    /// they touch or overlap.
    pub fn distance_to(&self, other: &PieceDescriptor) -> (r: usize)
        requires
            self.wf(),
            other.wf(),
        ensures
            r == if self.spec_global_end() <= other.global_start {
                other.global_start - self.spec_global_end()
            } else if other.spec_global_end() <= self.global_start {
                self.global_start - other.spec_global_end()
            } else {
                0
            },
    {
        if self.global_end() <= other.global_start {
            other.global_start - self.global_end()
        } else if other.global_end() <= self.global_start {
            self.global_start - other.global_end()
        } else {
            0
        }
    }
}

impl PartialEq for PieceDescriptor {
    fn eq(&self, other: &PieceDescriptor) -> (r: bool) {
        *self.piece == *other.piece && self.global_start == other.global_start
    }
}

impl Eq for PieceDescriptor {

}

impl vstd::std_specs::cmp::PartialEqSpecImpl for PieceDescriptor {
    open spec fn obeys_eq_spec() -> bool {
        true
    }

    open spec fn eq_spec(&self, other: &PieceDescriptor) -> bool {
        *self.piece == *other.piece && self.global_start == other.global_start
    }
}

impl Default for PieceDescriptor {
    /// The descriptor of the default (empty) piece at global offset zero.
    fn default() -> (r: PieceDescriptor)
        ensures
            *r.piece == (Piece { buffer_id: 0, start: 0, end: 0 }),
            r.global_start == 0,
    {
        PieceDescriptor { piece: Arc::new(Piece { buffer_id: 0, start: 0, end: 0 }), global_start: 0 }
    }
}

impl From<(Piece, usize)> for PieceDescriptor {
    fn from(pair: (Piece, usize)) -> (r: PieceDescriptor) {
        PieceDescriptor::from_piece(pair.0, pair.1)
    }
}

impl vstd::std_specs::convert::FromSpecImpl<(Piece, usize)> for PieceDescriptor {
    open spec fn obeys_from_spec() -> bool {
        true
    }

    open spec fn from_spec(pair: (Piece, usize)) -> PieceDescriptor {
        PieceDescriptor { piece: Arc::new(pair.0), global_start: pair.1 }
    }
}

impl From<(Arc<Piece>, usize)> for PieceDescriptor {
    fn from(pair: (Arc<Piece>, usize)) -> (r: PieceDescriptor) {
        PieceDescriptor::new(pair.0, pair.1)
    }
}

impl vstd::std_specs::convert::FromSpecImpl<(Arc<Piece>, usize)> for PieceDescriptor {
    open spec fn obeys_from_spec() -> bool {
        true
    }

    open spec fn from_spec(pair: (Arc<Piece>, usize)) -> PieceDescriptor {
        PieceDescriptor { piece: pair.0, global_start: pair.1 }
    }
}

/// For a well-formed descriptor and any global index it contains, translating
/// the index to local coordinates and back returns the same index, and the
/// local coordinate lies inside the piece's local range.
pub proof fn lemma_descriptor_coordinate_roundtrip(d: PieceDescriptor, i: usize)
    requires
        d.wf(),
        d.spec_contains_global(i),
    ensures
        d.piece.start <= d.spec_global_to_local(i) < d.piece.end,
        d.spec_local_to_global(d.spec_global_to_local(i) as usize) == i,
{
}

/// For a well-formed descriptor and any local index inside its piece,
/// translating the index to global coordinates and back returns the same
/// index, and the global coordinate lies inside the descriptor's global range.
pub proof fn lemma_descriptor_coordinate_roundtrip_local(d: PieceDescriptor, i: usize)
    requires
        d.wf(),
        d.piece.spec_contains(i),
    ensures
        d.global_start <= d.spec_local_to_global(i) < d.spec_global_end(),
        d.spec_global_to_local(d.spec_local_to_global(i) as usize) == i,
{
}

} // verus!
