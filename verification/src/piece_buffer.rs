//! The piece-table buffer: an ordered sequence of shared pieces with a cached
//! total length.

use vstd::prelude::*;
use std::sync::Arc;
use crate::piece::Piece;

verus! {

/// The sum of the lengths of a sequence of pieces.
pub open spec fn sum_lens(s: Seq<Arc<Piece>>) -> int
    decreases s.len(),
{
    if s.len() == 0 {
        0
    } else {
        s[0].spec_len() + sum_lens(s.drop_first())
    }
}

pub proof fn lemma_sum_lens_push(s: Seq<Arc<Piece>>, p: Arc<Piece>)
    ensures
        sum_lens(s.push(p)) == sum_lens(s) + p.spec_len(),
    decreases s.len(),
{
    if s.len() == 0 {
        assert(s.push(p).drop_first() =~= s);
    } else {
        assert(s.push(p).drop_first() =~= s.drop_first().push(p));
        lemma_sum_lens_push(s.drop_first(), p);
    }
}

pub proof fn lemma_sum_lens_insert(s: Seq<Arc<Piece>>, i: int, p: Arc<Piece>)
    requires
        0 <= i <= s.len(),
    ensures
        sum_lens(s.insert(i, p)) == sum_lens(s) + p.spec_len(),
    decreases s.len(),
{
    if i == 0 {
        assert(s.insert(0, p).drop_first() =~= s);
    } else {
        assert(s.insert(i, p).drop_first() =~= s.drop_first().insert(i - 1, p));
        lemma_sum_lens_insert(s.drop_first(), i - 1, p);
    }
}

pub proof fn lemma_sum_lens_remove(s: Seq<Arc<Piece>>, i: int)
    requires
        0 <= i < s.len(),
    ensures
        sum_lens(s.remove(i)) == sum_lens(s) - s[i].spec_len(),
    decreases s.len(),
{
    if i == 0 {
        assert(s.remove(0) =~= s.drop_first());
    } else {
        assert(s.remove(i).drop_first() =~= s.drop_first().remove(i - 1));
        lemma_sum_lens_remove(s.drop_first(), i - 1);
    }
}

pub proof fn lemma_sum_lens_take(s: Seq<Arc<Piece>>, i: int)
    requires
        0 <= i <= s.len(),
    ensures
        sum_lens(s) == sum_lens(s.take(i)) + sum_lens(s.skip(i)),
    decreases i,
{
    if i == 0 {
        assert(s.take(0) =~= Seq::<Arc<Piece>>::empty());
        assert(s.skip(0) =~= s);
    } else {
        assert(s.take(i).drop_first() =~= s.drop_first().take(i - 1));
        assert(s.skip(i) =~= s.drop_first().skip(i - 1));
        lemma_sum_lens_take(s.drop_first(), i - 1);
    }
}

/// Every piece of the sequence is well formed.
pub open spec fn all_wf(s: Seq<Arc<Piece>>) -> bool {
    forall|i: int| 0 <= i < s.len() ==> (#[trigger] s[i]).wf()
}

pub proof fn lemma_sum_lens_nonneg(s: Seq<Arc<Piece>>)
    requires
        all_wf(s),
    ensures
        sum_lens(s) >= 0,
    decreases s.len(),
{
    if s.len() > 0 {
        assert(s[0].wf());
        lemma_sum_lens_nonneg(s.drop_first());
    }
}

/// The sum of the lengths of a sequence of piece values.
pub open spec fn sum_piece_lens(s: Seq<Piece>) -> int
    decreases s.len(),
{
    if s.len() == 0 {
        0
    } else {
        s[0].spec_len() + sum_piece_lens(s.drop_first())
    }
}

pub proof fn lemma_sum_piece_lens_push(s: Seq<Piece>, p: Piece)
    ensures
        sum_piece_lens(s.push(p)) == sum_piece_lens(s) + p.spec_len(),
    decreases s.len(),
{
    if s.len() == 0 {
        assert(s.push(p).drop_first() =~= s);
    } else {
        assert(s.push(p).drop_first() =~= s.drop_first().push(p));
        lemma_sum_piece_lens_push(s.drop_first(), p);
    }
}

pub proof fn lemma_sum_piece_lens_take(s: Seq<Piece>, i: int)
    requires
        0 <= i <= s.len(),
    ensures
        sum_piece_lens(s) == sum_piece_lens(s.take(i)) + sum_piece_lens(s.skip(i)),
    decreases i,
{
    if i == 0 {
        assert(s.take(0) =~= Seq::<Piece>::empty());
        assert(s.skip(0) =~= s);
    } else {
        assert(s.take(i).drop_first() =~= s.drop_first().take(i - 1));
        assert(s.skip(i) =~= s.drop_first().skip(i - 1));
        lemma_sum_piece_lens_take(s.drop_first(), i - 1);
    }
}

pub proof fn lemma_sum_piece_lens_nonneg(s: Seq<Piece>)
    requires
        forall|i: int| 0 <= i < s.len() ==> (#[trigger] s[i]).wf(),
    ensures
        sum_piece_lens(s) >= 0,
    decreases s.len(),
{
    if s.len() > 0 {
        assert(s[0].wf());
        lemma_sum_piece_lens_nonneg(s.drop_first());
    }
}

/// An ordered sequence of shared pieces whose concatenation reconstructs the
/// document, together with a cached total length. The cached length always
/// equals the live sum of the piece lengths.
#[derive(Clone, Debug)]
pub struct Buffer {
    pieces: Vec<Arc<Piece>>,
    total_length: usize,
}

impl Buffer {
    pub closed spec fn spec_pieces(self) -> Seq<Arc<Piece>> {
        self.pieces@
    }

    pub closed spec fn spec_total_length(self) -> int {
        self.total_length as int
    }

    /// All pieces are well formed and the cached total length equals the true
    /// sum of the piece lengths.
    pub closed spec fn wf(self) -> bool {
        all_wf(self.pieces@) && self.total_length == sum_lens(self.pieces@)
    }

    pub fn new() -> (r: Buffer)
        ensures
            r.wf(),
            r.spec_pieces().len() == 0,
            r.spec_total_length() == 0,
    {
        Buffer { pieces: Vec::new(), total_length: 0 }
    }

    pub fn with_capacity(capacity: usize) -> (r: Buffer)
        ensures
            r.wf(),
            r.spec_pieces().len() == 0,
            r.spec_total_length() == 0,
    {
        Buffer { pieces: Vec::with_capacity(capacity), total_length: 0 }
    }

    /// Builds a buffer from owned pieces; the cached length is the sum of the
    /// piece lengths.
    pub fn from_pieces(pieces: Vec<Piece>) -> (r: Buffer)
        requires
            forall|i: int| 0 <= i < pieces@.len() ==> (#[trigger] pieces@[i]).wf(),
            sum_piece_lens(pieces@) <= usize::MAX,
        ensures
            r.wf(),
            r.spec_pieces().len() == pieces@.len(),
            forall|i: int| 0 <= i < pieces@.len() ==> *(#[trigger] r.spec_pieces()[i])
                == pieces@[i],
            r.spec_total_length() == sum_piece_lens(pieces@),
    {
        let mut shared: Vec<Arc<Piece>> = Vec::new();
        let mut total_length: usize = 0;
        let mut idx: usize = 0;
        while idx < pieces.len()
            invariant
                idx <= pieces@.len(),
                forall|i: int| 0 <= i < pieces@.len() ==> (#[trigger] pieces@[i]).wf(),
                sum_piece_lens(pieces@) <= usize::MAX,
                shared@.len() == idx,
                forall|i: int| 0 <= i < idx ==> *(#[trigger] shared@[i]) == pieces@[i],
                total_length == sum_piece_lens(pieces@.take(idx as int)),
                total_length == sum_lens(shared@),
                all_wf(shared@),
            decreases pieces@.len() - idx,
        {
            let p = pieces[idx];
            proof {
                lemma_sum_lens_push(shared@, Arc::new(p));
                lemma_sum_piece_lens_push(pieces@.take(idx as int), p);
                assert(pieces@.take(idx + 1) =~= pieces@.take(idx as int).push(p));
                lemma_sum_piece_lens_take(pieces@, idx + 1);
                lemma_sum_piece_lens_nonneg(pieces@.skip(idx + 1));
            }
            total_length = total_length + p.len();
            shared.push(Arc::new(p));
            idx = idx + 1;
        }
        proof {
            assert(pieces@.take(pieces@.len() as int) =~= pieces@);
        }
        Buffer { pieces: shared, total_length }
    }

    /// The total document length in bytes.
    pub fn len(&self) -> (r: usize)
        ensures
            r == self.spec_total_length(),
    {
        self.total_length
    }

    pub fn is_empty(&self) -> (r: bool)
        ensures
            r == (self.spec_total_length() == 0),
    {
        self.total_length == 0
    }

    pub fn pieces(&self) -> (r: &[Arc<Piece>])
        ensures
            r@ == self.spec_pieces(),
    {
        self.pieces.as_slice()
    }

    pub fn pieces_count(&self) -> (r: usize)
        ensures
            r == self.spec_pieces().len(),
    {
        self.pieces.len()
    }

    /// Appends a piece; the cached total grows by the piece's length.
    pub fn add_piece(&mut self, piece: Piece)
        requires
            old(self).wf(),
            piece.wf(),
            old(self).spec_total_length() + piece.spec_len() <= usize::MAX,
        ensures
            final(self).wf(),
            final(self).spec_pieces() =~= old(self).spec_pieces().push(Arc::new(piece)),
            final(self).spec_total_length() == old(self).spec_total_length() + piece.spec_len(),
    {
        proof {
            lemma_sum_lens_push(self.pieces@, Arc::new(piece));
        }
        self.total_length = self.total_length + piece.len();
        self.pieces.push(Arc::new(piece));
    }

    /// Inserts a piece at a position of the piece list; fails without mutating
    /// when the position is past the end of the list.
    pub fn insert_piece(&mut self, index: usize, piece: Piece) -> (r: Result<(), &'static str>)
        requires
            old(self).wf(),
            piece.wf(),
            old(self).spec_total_length() + piece.spec_len() <= usize::MAX,
        ensures
            final(self).wf(),
            r is Ok <==> index <= old(self).spec_pieces().len(),
            r is Ok ==> final(self).spec_pieces() =~= old(self).spec_pieces().insert(
                index as int,
                Arc::new(piece),
            ) && final(self).spec_total_length() == old(self).spec_total_length()
                + piece.spec_len(),
            r is Err ==> *final(self) == *old(self),
    {
        if index > self.pieces.len() {
            return Err("Index out of bounds");
        }
        proof {
            lemma_sum_lens_insert(self.pieces@, index as int, Arc::new(piece));
        }
        self.total_length = self.total_length + piece.len();
        self.pieces.insert(index, Arc::new(piece));
        Ok(())
    }

    /// Appends every piece of the given list in order.
    pub fn extend_pieces(&mut self, pieces: Vec<Piece>)
        requires
            old(self).wf(),
            forall|i: int| 0 <= i < pieces@.len() ==> (#[trigger] pieces@[i]).wf(),
            old(self).spec_total_length() + sum_piece_lens(pieces@) <= usize::MAX,
        ensures
            final(self).wf(),
            final(self).spec_pieces().len() == old(self).spec_pieces().len() + pieces@.len(),
            forall|i: int| 0 <= i < old(self).spec_pieces().len() ==> final(self).spec_pieces()[i]
                == old(self).spec_pieces()[i],
            forall|i: int| 0 <= i < pieces@.len() ==> *(#[trigger] final(self).spec_pieces()[old(
                self,
            ).spec_pieces().len() + i]) == pieces@[i],
            final(self).spec_total_length() == old(self).spec_total_length() + sum_piece_lens(
                pieces@,
            ),
    {
        let ghost base = self.pieces@;
        let ghost base_total = self.total_length as int;
        let mut idx: usize = 0;
        while idx < pieces.len()
            invariant
                idx <= pieces@.len(),
                forall|i: int| 0 <= i < pieces@.len() ==> (#[trigger] pieces@[i]).wf(),
                self.wf(),
                self.spec_pieces().len() == base.len() + idx,
                forall|i: int| 0 <= i < base.len() ==> self.spec_pieces()[i] == base[i],
                forall|i: int| 0 <= i < idx ==> *(#[trigger] self.spec_pieces()[base.len() + i])
                    == pieces@[i],
                self.spec_total_length() == base_total + sum_piece_lens(pieces@.take(idx as int)),
                base_total + sum_piece_lens(pieces@) <= usize::MAX,
            decreases pieces@.len() - idx,
        {
            let p = pieces[idx];
            proof {
                lemma_sum_piece_lens_push(pieces@.take(idx as int), p);
                assert(pieces@.take(idx + 1) =~= pieces@.take(idx as int).push(p));
                lemma_sum_piece_lens_take(pieces@, idx + 1);
                lemma_sum_piece_lens_nonneg(pieces@.skip(idx + 1));
            }
            self.add_piece(p);
            idx = idx + 1;
        }
        proof {
            assert(pieces@.take(pieces@.len() as int) =~= pieces@);
        }
    }

    /// Removes every piece and resets the cached length.
    pub fn clear(&mut self)
        ensures
            final(self).wf(),
            final(self).spec_pieces().len() == 0,
            final(self).spec_total_length() == 0,
    {
        self.pieces.clear();
        self.total_length = 0;
    }

    pub fn get_piece(&self, index: usize) -> (r: Option<&Arc<Piece>>)
        ensures
            r is Some <==> index < self.spec_pieces().len(),
            r matches Some(p) ==> *p == self.spec_pieces()[index as int],
    {
        if index < self.pieces.len() {
            Some(&self.pieces[index])
        } else {
            None
        }
    }

    /// Removes the piece at a position of the list; the cached total shrinks
    /// by its length. Fails without mutating when the position is out of
    /// bounds.
    pub fn remove_piece(&mut self, index: usize) -> (r: Option<Arc<Piece>>)
        requires
            old(self).wf(),
        ensures
            final(self).wf(),
            r is Some <==> index < old(self).spec_pieces().len(),
            r is None ==> *final(self) == *old(self),
            r matches Some(p) ==> p == old(self).spec_pieces()[index as int]
                && final(self).spec_pieces() =~= old(self).spec_pieces().remove(index as int)
                && final(self).spec_total_length() == old(self).spec_total_length()
                    - p.spec_len(),
    {
        if index >= self.pieces.len() {
            return None;
        }
        proof {
            lemma_sum_lens_remove(self.pieces@, index as int);
            lemma_sum_lens_nonneg(self.pieces@.remove(index as int));
            assert(all_wf(self.pieces@.remove(index as int)));
        }
        let piece = self.pieces.remove(index);
        self.total_length = self.total_length - piece.len();
        Some(piece)
    }

    /// Exchanges the pieces at two positions of the list; the total length is
    /// unchanged. Fails without mutating when either position is out of
    /// bounds.
    pub fn swap_pieces(&mut self, a: usize, b: usize) -> (r: Result<(), &'static str>)
        requires
            old(self).wf(),
        ensures
            final(self).wf(),
            r is Ok <==> a < old(self).spec_pieces().len() && b < old(self).spec_pieces().len(),
            r is Err ==> *final(self) == *old(self),
            r is Ok ==> final(self).spec_pieces() =~= old(self).spec_pieces().update(
                a as int,
                old(self).spec_pieces()[b as int],
            ).update(b as int, old(self).spec_pieces()[a as int]),
            final(self).spec_total_length() == old(self).spec_total_length(),
    {
        if a >= self.pieces.len() || b >= self.pieces.len() {
            return Err("Index out of bounds");
        }
        let pa = self.pieces[a].clone();
        let pb = self.pieces[b].clone();
        self.pieces[a] = pb;
        self.pieces[b] = pa;
        proof {
            lemma_sum_lens_permutation(old(self).pieces@, self.pieces@, a as int, b as int);
        }
        Ok(())
    }

    /// Keeps only the first `len` pieces; the cached total shrinks by the
    /// lengths of the removed pieces.
    pub fn truncate_pieces(&mut self, len: usize)
        requires
            old(self).wf(),
        ensures
            final(self).wf(),
            final(self).spec_pieces() =~= if len < old(self).spec_pieces().len() {
                old(self).spec_pieces().take(len as int)
            } else {
                old(self).spec_pieces()
            },
    {
        if len < self.pieces.len() {
            let mut removed_length: usize = 0;
            let mut idx: usize = len;
            proof {
                lemma_sum_lens_take(self.pieces@, len as int);
                lemma_sum_lens_nonneg(self.pieces@.skip(len as int));
                assert(all_wf(self.pieces@.skip(len as int)));
                assert(all_wf(self.pieces@.take(len as int)));
                lemma_sum_lens_nonneg(self.pieces@.take(len as int));
            }
            while idx < self.pieces.len()
                invariant
                    len <= idx <= self.pieces@.len(),
                    all_wf(self.pieces@),
                    sum_lens(self.pieces@.take(len as int)) >= 0,
                    removed_length == sum_lens(self.pieces@.subrange(len as int, idx as int)),
                    removed_length + sum_lens(self.pieces@.take(len as int)) + sum_lens(
                        self.pieces@.skip(idx as int),
                    ) == self.total_length,
                    self.pieces@ == old(self).pieces@,
                    self.total_length == old(self).total_length,
                decreases self.pieces@.len() - idx,
            {
                proof {
                    lemma_sum_lens_push(
                        self.pieces@.subrange(len as int, idx as int),
                        self.pieces@[idx as int],
                    );
                    assert(self.pieces@.subrange(len as int, idx + 1) =~= self.pieces@.subrange(
                        len as int,
                        idx as int,
                    ).push(self.pieces@[idx as int]));
                    assert(self.pieces@.skip(idx as int).drop_first() =~= self.pieces@.skip(
                        idx + 1,
                    ));
                    lemma_sum_lens_nonneg(self.pieces@.skip(idx + 1));
                    assert(all_wf(self.pieces@.skip(idx + 1)));
                    assert(self.pieces@[idx as int].wf());
                }
                removed_length = removed_length + self.pieces[idx].len();
                idx = idx + 1;
            }
            proof {
                assert(self.pieces@.skip(self.pieces@.len() as int) =~= Seq::<
                    Arc<Piece>,
                >::empty());
                assert(self.pieces@.subrange(len as int, self.pieces@.len() as int)
                    =~= self.pieces@.skip(len as int));
                lemma_sum_lens_take(self.pieces@, len as int);
            }
            self.pieces.truncate(len);
            self.total_length = self.total_length - removed_length;
        }
    }

    pub fn iter_pieces(&self) -> (r: std::slice::Iter<Arc<Piece>>)
        ensures
            vstd::std_specs::iter::IteratorSpec::remaining(&r) == self.spec_pieces().as_ref(),
    {
        self.pieces.as_slice().iter()
    }

    pub fn shrink_to_fit(&mut self)
        ensures
            final(self).spec_pieces() == old(self).spec_pieces(),
            final(self).spec_total_length() == old(self).spec_total_length(),
            old(self).wf() ==> final(self).wf(),
    {
        shrink_vec(&mut self.pieces);
    }

    pub fn reserve(&mut self, additional: usize)
        ensures
            final(self).spec_pieces() == old(self).spec_pieces(),
            final(self).spec_total_length() == old(self).spec_total_length(),
            old(self).wf() ==> final(self).wf(),
    {
        self.pieces.reserve(additional);
    }
}

proof fn lemma_sum_lens_permutation(s1: Seq<Arc<Piece>>, s2: Seq<Arc<Piece>>, a: int, b: int)
    requires
        0 <= a < s1.len(),
        0 <= b < s1.len(),
        s2 =~= s1.update(a, s1[b]).update(b, s1[a]),
    ensures
        sum_lens(s2) == sum_lens(s1),
        all_wf(s1) ==> all_wf(s2),
{
    if a == b {
        assert(s2 =~= s1);
    } else {
        let lo = if a < b {
            a
        } else {
            b
        };
        let hi = if a < b {
            b
        } else {
            a
        };
        lemma_sum_lens_update(s1, lo, s1[hi]);
        lemma_sum_lens_update(s1.update(lo, s1[hi]), hi, s1[lo]);
        assert(s2 =~= s1.update(lo, s1[hi]).update(hi, s1[lo]));
    }
}

proof fn lemma_sum_lens_update(s: Seq<Arc<Piece>>, i: int, p: Arc<Piece>)
    requires
        0 <= i < s.len(),
    ensures
        sum_lens(s.update(i, p)) == sum_lens(s) - s[i].spec_len() + p.spec_len(),
    decreases s.len(),
{
    if i == 0 {
        assert(s.update(0, p).drop_first() =~= s.drop_first());
    } else {
        assert(s.update(i, p).drop_first() =~= s.drop_first().update(i - 1, p));
        lemma_sum_lens_update(s.drop_first(), i - 1, p);
    }
}

/// Relies on `Vec::shrink_to_fit`: releases spare capacity and leaves the
/// contents unchanged.
#[verifier::external_body]
fn shrink_vec<T>(v: &mut Vec<T>)
    ensures
        final(v)@ == old(v)@,
{
    v.shrink_to_fit();
}

impl PartialEq for Buffer {
    fn eq(&self, other: &Buffer) -> (r: bool) {
        if self.total_length != other.total_length {
            return false;
        }
        if self.pieces.len() != other.pieces.len() {
            return false;
        }
        let mut idx: usize = 0;
        while idx < self.pieces.len()
            invariant
                idx <= self.pieces@.len(),
                self.pieces@.len() == other.pieces@.len(),
                self.total_length == other.total_length,
                forall|i: int| 0 <= i < idx ==> self.pieces@[i] == other.pieces@[i],
            decreases self.pieces@.len() - idx,
        {
            let pa: Piece = *self.pieces[idx];
            let pb: Piece = *other.pieces[idx];
            if pa != pb {
                return false;
            }
            idx = idx + 1;
        }
        proof {
            assert(self.pieces@ =~= other.pieces@);
        }
        true
    }
}

impl Eq for Buffer {

}

impl vstd::std_specs::cmp::PartialEqSpecImpl for Buffer {
    open spec fn obeys_eq_spec() -> bool {
        true
    }

    closed spec fn eq_spec(&self, other: &Buffer) -> bool {
        self.total_length == other.total_length && self.pieces@ == other.pieces@
    }
}

impl Default for Buffer {
    /// The empty buffer.
    fn default() -> (r: Buffer)
        ensures
            r.wf(),
            r.spec_pieces().len() == 0,
            r.spec_total_length() == 0,
    {
        Buffer::new()
    }
}

/// For every well-formed buffer, the cached total length equals the true sum
/// of the lengths of its pieces.
pub proof fn lemma_buffer_length_invariant(b: Buffer)
    requires
        b.wf(),
    ensures
        b.spec_total_length() == sum_lens(b.spec_pieces()),
{
}

/// A numeric identifier for a source buffer.
#[derive(Clone, Copy, Debug, PartialEq, Eq, Structural, Hash, PartialOrd, Ord)]
pub struct BufferId(usize);

impl BufferId {
    pub closed spec fn spec_id(self) -> usize {
        self.0
    }

    pub fn new(id: usize) -> (r: BufferId)
        ensures
            r.spec_id() == id,
    {
        BufferId(id)
    }

    pub fn id(&self) -> (r: usize)
        ensures
            r == self.spec_id(),
    {
        self.0
    }

    /// Moves the identifier up by one, saturating at the largest value.
    pub fn increment(&mut self)
        ensures
            final(self).spec_id() == if old(self).spec_id() < usize::MAX {
                old(self).spec_id() + 1
            } else {
                usize::MAX as int
            },
    {
        self.0 = self.0.saturating_add(1);
    }

    /// Moves the identifier down by one, saturating at zero.
    pub fn decrement(&mut self)
        ensures
            final(self).spec_id() == if old(self).spec_id() > 0 {
                old(self).spec_id() - 1
            } else {
                0
            },
    {
        self.0 = self.0.saturating_sub(1);
    }

    /// Moves the identifier up, saturating at the largest value.
    pub fn add(&mut self, value: usize)
        ensures
            final(self).spec_id() == if old(self).spec_id() + value <= usize::MAX {
                old(self).spec_id() + value
            } else {
                usize::MAX as int
            },
    {
        self.0 = self.0.saturating_add(value);
    }

    /// Moves the identifier down, saturating at zero.
    pub fn sub(&mut self, value: usize)
        ensures
            final(self).spec_id() == if old(self).spec_id() >= value {
                old(self).spec_id() - value
            } else {
                0
            },
    {
        self.0 = self.0.saturating_sub(value);
    }
}

impl Default for BufferId {
    /// The identifier zero.
    fn default() -> (r: BufferId)
        ensures
            r.spec_id() == 0,
    {
        BufferId(0)
    }
}

impl From<usize> for BufferId {
    fn from(id: usize) -> (r: BufferId) {
        BufferId(id)
    }
}

impl vstd::std_specs::convert::FromSpecImpl<usize> for BufferId {
    open spec fn obeys_from_spec() -> bool {
        true
    }

    closed spec fn from_spec(id: usize) -> BufferId {
        BufferId(id)
    }
}

} // verus!
