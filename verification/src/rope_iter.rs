//! Traversal over a rope tree: a bidirectional, range-restricted character
//! iterator and derived byte, line and chunk views.

use vstd::prelude::*;
use vstd::utf8::encode_scalar;
use vstd::string::StrSliceExecFns;
use core::ops::Range;
use crate::node::{Node, spec_flat_text, spec_children_flat};
use crate::chunk::Chunk;
use crate::utf16::push_char;

verus! {

/// The direction a rope iterator advances in.
#[derive(Debug, Clone, Copy, PartialEq, Eq, Structural)]
pub enum TraversalDirection {
    Forward,
    Backward,
}

/// Collects the leaf text of a tree, in order, one character at a time.
fn collect_chars(node: &Node, out: &mut Vec<char>)
    ensures
        final(out)@ == old(out)@ + spec_flat_text(*node),
    decreases *node,
{
    if node.children.len() == 0 {
        let ghost base = out@;
        let s = node.content.as_str();
        let n = s.unicode_len();
        let mut k: usize = 0;
        while k < n
            invariant
                k <= n,
                n == s@.len(),
                s@ == node.content@,
                out@ == base + s@.take(k as int),
            decreases n - k,
        {
            let c = s.get_char(k);
            out.push(c);
            proof {
                assert(s@.take(k + 1) =~= s@.take(k as int).push(s@[k as int]));
                assert(out@ =~= base + s@.take(k + 1));
            }
            k = k + 1;
        }
        proof {
            assert(s@.take(n as int) =~= s@);
        }
    } else {
        let ghost base = out@;
        let ghost kids = node.children@;
        let mut i: usize = 0;
        proof {
            assert(kids.take(0) =~= Seq::<Node>::empty());
            assert(out@ =~= base + spec_children_flat(kids.take(0)));
        }
        while i < node.children.len()
            invariant
                i <= kids.len(),
                kids == node.children@,
                out@ == base + spec_children_flat(kids.take(i as int)),
            decreases kids.len() - i,
        {
            proof {
                assert(decreases_to!(*node => node.children));
            }
            collect_chars(&node.children[i], out);
            proof {
                lemma_children_flat_take_push(kids, i as int);
            }
            i = i + 1;
        }
        proof {
            assert(kids.take(kids.len() as int) =~= kids);
        }
    }
}

proof fn lemma_children_flat_take_push(s: Seq<Node>, i: int)
    requires
        0 <= i < s.len(),
    ensures
        spec_children_flat(s.take(i + 1)) == spec_children_flat(s.take(i)) + spec_flat_text(s[i]),
    decreases i,
{
    if i == 0 {
        assert(s.take(1).drop_first() =~= Seq::<Node>::empty());
        assert(s.take(1)[0] == s[0]);
        assert(s.take(0) =~= Seq::<Node>::empty());
        assert(spec_children_flat(s.take(1)) =~= spec_children_flat(s.take(0)) + spec_flat_text(
            s[0],
        ));
    } else {
        assert(s.take(i + 1).drop_first() =~= s.drop_first().take(i));
        assert(s.take(i).drop_first() =~= s.drop_first().take(i - 1));
        assert(s.take(i + 1)[0] == s[0]);
        assert(s.take(i)[0] == s[0]);
        lemma_children_flat_take_push(s.drop_first(), i - 1);
        assert(spec_children_flat(s.take(i + 1)) =~= spec_children_flat(s.take(i))
            + spec_flat_text(s[i]));
    }
}

/// A bidirectional, optionally range-restricted iterator over the characters
/// of a rope tree's leaves. The cursor sits on a character position; each
/// step yields the character under the cursor and then moves it in the
/// current direction. Once the cursor leaves the range, the iterator is
/// exhausted for good.
#[derive(Clone, Debug)]
pub struct RopeIterator {
    chars: Vec<char>,
    pos: usize,
    has_range: bool,
    range_start: usize,
    range_end: usize,
    forward: bool,
    exhausted: bool,
}

impl RopeIterator {
    /// The characters the iterator traverses.
    pub closed spec fn spec_chars(self) -> Seq<char> {
        self.chars@
    }

    /// The cursor position, in characters from the start of the tree.
    pub closed spec fn spec_pos(self) -> int {
        self.pos as int
    }

    pub closed spec fn spec_has_range(self) -> bool {
        self.has_range
    }

    pub closed spec fn spec_range_start(self) -> int {
        self.range_start as int
    }

    pub closed spec fn spec_range_end(self) -> int {
        self.range_end as int
    }

    pub closed spec fn spec_forward(self) -> bool {
        self.forward
    }

    pub closed spec fn spec_exhausted(self) -> bool {
        self.exhausted
    }

    /// The cursor sits on a character inside the restriction.
    pub open spec fn spec_in_range(self) -> bool {
        &&& self.spec_pos() < self.spec_chars().len()
        &&& (self.spec_has_range() ==> self.spec_range_start() <= self.spec_pos()
            < self.spec_range_end())
    }

    /// The character the next step yields.
    pub open spec fn spec_current(self) -> Option<char> {
        if !self.spec_exhausted() && self.spec_in_range() {
            Some(self.spec_chars()[self.spec_pos()])
        } else {
            None
        }
    }

    /// The iterator after one step in its direction.
    pub closed spec fn spec_step(self) -> RopeIterator {
        if self.forward {
            let p = self.pos + 1;
            RopeIterator {
                pos: p as usize,
                exhausted: p >= self.chars@.len() || (self.has_range && p >= self.range_end),
                ..self
            }
        } else {
            if self.pos == 0 {
                RopeIterator { exhausted: true, ..self }
            } else {
                let p = self.pos - 1;
                RopeIterator {
                    pos: p as usize,
                    exhausted: self.has_range && p < self.range_start,
                    ..self
                }
            }
        }
    }

    /// The step keeps the characters, the range and the direction, and moves
    /// the cursor one position in the direction; it exhausts the iterator
    /// when the new position leaves the range or the text, and at the front
    /// end when stepping backward from position zero.
    pub proof fn lemma_step(self)
        requires
            self.spec_current() is Some,
            self.spec_chars().len() <= usize::MAX,
        ensures
            self.spec_step().spec_chars() == self.spec_chars(),
            self.spec_step().spec_has_range() == self.spec_has_range(),
            self.spec_step().spec_range_start() == self.spec_range_start(),
            self.spec_step().spec_range_end() == self.spec_range_end(),
            self.spec_step().spec_forward() == self.spec_forward(),
            self.spec_forward() ==> self.spec_step().spec_pos() == self.spec_pos() + 1
                && self.spec_step().spec_exhausted() == (self.spec_pos() + 1
                >= self.spec_chars().len() || (self.spec_has_range() && self.spec_pos() + 1
                >= self.spec_range_end())),
            !self.spec_forward() && self.spec_pos() == 0 ==> self.spec_step().spec_pos()
                == self.spec_pos() && self.spec_step().spec_exhausted(),
            !self.spec_forward() && self.spec_pos() > 0 ==> self.spec_step().spec_pos()
                == self.spec_pos() - 1 && self.spec_step().spec_exhausted() == (
            self.spec_has_range() && self.spec_pos() - 1 < self.spec_range_start()),
    {
    }

    /// An iterator over the leaf text of a tree, restricted to the given
    /// character range if one is given, with its cursor at the range start.
    pub fn new(root: &Node, range: Option<Range<usize>>) -> (r: RopeIterator)
        ensures
            r.spec_chars() == spec_flat_text(*root),
            r.spec_forward(),
            !r.spec_exhausted(),
            match range {
                Some(rg) => r.spec_has_range() && r.spec_range_start() == rg.start
                    && r.spec_range_end() == rg.end && r.spec_pos() == if rg.start
                    <= spec_flat_text(*root).len() {
                    rg.start as int
                } else {
                    0
                },
                None => !r.spec_has_range() && r.spec_pos() == 0,
            },
    {
        let mut chars: Vec<char> = Vec::new();
        collect_chars(root, &mut chars);
        proof {
            assert(chars@ =~= spec_flat_text(*root));
        }
        match range {
            Some(rg) => {
                let pos = if rg.start <= chars.len() {
                    rg.start
                } else {
                    0
                };
                RopeIterator {
                    chars,
                    pos,
                    has_range: true,
                    range_start: rg.start,
                    range_end: rg.end,
                    forward: true,
                    exhausted: false,
                }
            },
            None => RopeIterator {
                chars,
                pos: 0,
                has_range: false,
                range_start: 0,
                range_end: 0,
                forward: true,
                exhausted: false,
            },
        }
    }

    /// An iterator primed to run in the given direction.
    pub fn with_direction(root: &Node, range: Option<Range<usize>>, direction: TraversalDirection)
        -> (r: RopeIterator)
        ensures
            r.spec_chars() == spec_flat_text(*root),
            !r.spec_exhausted(),
            r.spec_forward() == (direction is Forward),
            match range {
                Some(rg) => r.spec_has_range() && r.spec_range_start() == rg.start
                    && r.spec_range_end() == rg.end && r.spec_pos() == if rg.start
                    <= spec_flat_text(*root).len() {
                    rg.start as int
                } else {
                    0
                },
                None => !r.spec_has_range() && r.spec_pos() == 0,
            },
    {
        let mut iter = RopeIterator::new(root, range);
        match direction {
            TraversalDirection::Forward => iter.set_forward(),
            TraversalDirection::Backward => iter.set_backward(),
        }
        iter
    }

    /// Two iterator states that agree on everything but the direction flag.
    pub open spec fn spec_same_but_direction(self, other: RopeIterator) -> bool {
        &&& self.spec_chars() == other.spec_chars()
        &&& self.spec_pos() == other.spec_pos()
        &&& self.spec_has_range() == other.spec_has_range()
        &&& self.spec_range_start() == other.spec_range_start()
        &&& self.spec_range_end() == other.spec_range_end()
        &&& self.spec_exhausted() == other.spec_exhausted()
    }

    pub fn set_forward(&mut self)
        ensures
            final(self).spec_same_but_direction(*old(self)),
            final(self).spec_forward(),
    {
        self.forward = true;
    }

    pub fn set_backward(&mut self)
        ensures
            final(self).spec_same_but_direction(*old(self)),
            !final(self).spec_forward(),
    {
        self.forward = false;
    }

    pub fn direction(&self) -> (r: TraversalDirection)
        ensures
            r == if self.spec_forward() {
                TraversalDirection::Forward
            } else {
                TraversalDirection::Backward
            },
    {
        if self.forward {
            TraversalDirection::Forward
        } else {
            TraversalDirection::Backward
        }
    }

    /// How many characters are left before the range end (or the tree's end).
    pub fn remaining_length(&self) -> (r: usize)
        ensures
            r == if self.spec_has_range() {
                if self.spec_range_end() >= self.spec_pos() {
                    self.spec_range_end() - self.spec_pos()
                } else {
                    0
                }
            } else {
                if self.spec_chars().len() >= self.spec_pos() {
                    self.spec_chars().len() - self.spec_pos()
                } else {
                    0
                }
            },
    {
        if self.has_range {
            if self.range_end >= self.pos {
                self.range_end - self.pos
            } else {
                0
            }
        } else {
            if self.chars.len() >= self.pos {
                self.chars.len() - self.pos
            } else {
                0
            }
        }
    }

    /// The cursor position.
    pub fn position(&self) -> (r: usize)
        ensures
            r == self.spec_pos(),
    {
        self.pos
    }

    /// Moves the cursor to an absolute position; succeeds exactly when the
    /// position does not exceed the tree's length, and then also clears
    /// exhaustion.
    pub fn seek_to_position(&mut self, pos: usize) -> (r: bool)
        ensures
            r == (pos <= old(self).spec_chars().len()),
            r ==> final(self).spec_pos() == pos && !final(self).spec_exhausted() && final(self).spec_chars() == old(self).spec_chars() && final(self).spec_has_range() == old(self).spec_has_range() && final(self).spec_range_start() == old(self).spec_range_start()
                && final(self).spec_range_end() == old(self).spec_range_end() && final(self).spec_forward() == old(self).spec_forward(),
            !r ==> *final(self) == *old(self),
    {
        if pos > self.chars.len() {
            return false;
        }
        self.pos = pos;
        self.exhausted = false;
        true
    }

    /// The character under the cursor, without moving it.
    pub fn peek(&self) -> (r: Option<char>)
        ensures
            r == self.spec_current(),
    {
        self.current_char()
    }

    /// The character `n` steps ahead of the cursor in the current direction,
    /// without moving it; present exactly when every position on the way is
    /// inside the range.
    pub fn peek_ahead(&self, n: usize) -> (r: Option<char>)
        ensures
            ({
                let target = if self.spec_forward() {
                    self.spec_pos() + n
                } else {
                    self.spec_pos() - n
                };
                r == if !self.spec_exhausted() && self.spec_in_range() && 0 <= target
                    < self.spec_chars().len() && (self.spec_has_range()
                    ==> self.spec_range_start() <= target < self.spec_range_end()) {
                    Some(self.spec_chars()[target])
                } else {
                    None::<char>
                }
            }),
    {
        let total = self.chars.len();
        if self.exhausted || self.current_char().is_none() {
            return None;
        }
        if self.forward {
            match self.pos.checked_add(n) {
                Some(target) => {
                    if target < self.chars.len() && (!self.has_range || (self.range_start <= target
                        && target < self.range_end)) {
                        Some(self.chars[target])
                    } else {
                        None
                    }
                },
                None => None,
            }
        } else {
            if n > self.pos {
                return None;
            }
            let target = self.pos - n;
            if target < self.chars.len() && (!self.has_range || (self.range_start <= target
                && target < self.range_end)) {
                Some(self.chars[target])
            } else {
                None
            }
        }
    }

    fn current_char(&self) -> (r: Option<char>)
        ensures
            r == self.spec_current(),
    {
        if self.exhausted {
            return None;
        }
        if self.pos >= self.chars.len() {
            return None;
        }
        if self.has_range && !(self.range_start <= self.pos && self.pos < self.range_end) {
            return None;
        }
        Some(self.chars[self.pos])
    }

    fn advance_char(&mut self)
        requires
            old(self).spec_current() is Some,
        ensures
            *final(self) == old(self).spec_step(),
    {
        if self.forward {
            let n = self.chars.len();
            self.pos = self.pos + 1;
            if self.pos >= n || (self.has_range && self.pos >= self.range_end) {
                self.exhausted = true;
            }
        } else {
            if self.pos == 0 {
                self.exhausted = true;
            } else {
                self.pos = self.pos - 1;
                if self.has_range && self.pos < self.range_start {
                    self.exhausted = true;
                }
            }
        }
    }

    /// Yields the character under the cursor and moves the cursor one step in
    /// the current direction; yields nothing once the cursor has left the
    /// range, and then never again.
    pub fn next(&mut self) -> (r: Option<char>)
        ensures
            r == old(self).spec_current(),
            r is Some ==> *final(self) == old(self).spec_step(),
            r is None ==> *final(self) == *old(self),
    {
        let c = self.current_char();
        match c {
            Some(ch) => {
                self.advance_char();
                Some(ch)
            },
            None => None,
        }
    }

    /// Switches to backward traversal and yields the character under the
    /// cursor, moving the cursor one step back.
    pub fn next_back(&mut self) -> (r: Option<char>)
        ensures
            old(self).spec_exhausted() ==> r is None && *final(self) == *old(self),
            !old(self).spec_exhausted() ==> ({
                &&& r == old(self).spec_current()
                &&& (r is None ==> final(self).spec_same_but_direction(*old(self)) && !final(self).spec_forward())
                &&& (r is Some ==> ({
                    let stepped = *final(self);
                    &&& stepped.spec_chars() == old(self).spec_chars()
                    &&& stepped.spec_has_range() == old(self).spec_has_range()
                    &&& stepped.spec_range_start() == old(self).spec_range_start()
                    &&& stepped.spec_range_end() == old(self).spec_range_end()
                    &&& !stepped.spec_forward()
                    &&& (old(self).spec_pos() == 0 ==> stepped.spec_pos() == 0
                        && stepped.spec_exhausted())
                    &&& (old(self).spec_pos() > 0 ==> stepped.spec_pos() == old(self).spec_pos()
                        - 1 && stepped.spec_exhausted() == (old(self).spec_has_range() && old(self).spec_pos() - 1 < old(self).spec_range_start()))
                }))
            }),
    {
        if self.exhausted {
            return None;
        }
        self.set_backward();
        let c = self.current_char();
        match c {
            Some(ch) => {
                self.advance_char();
                Some(ch)
            },
            None => None,
        }
    }

    /// The characters that repeated calls of `next` would yield, in order.
    pub open spec fn spec_remaining(self) -> Seq<char> {
        if self.spec_current() is None {
            seq![]
        } else if self.spec_forward() {
            let upper = if self.spec_has_range() && self.spec_range_end() < self.spec_chars().len() {
                self.spec_range_end()
            } else {
                self.spec_chars().len() as int
            };
            self.spec_chars().subrange(self.spec_pos(), upper)
        } else {
            let lower = if self.spec_has_range() {
                self.spec_range_start()
            } else {
                0
            };
            self.spec_chars().subrange(lower, self.spec_pos() + 1).reverse()
        }
    }

    /// Collects the characters the iterator yields into text, up to the given
    /// limit if one is given.
    pub fn collect_string(&mut self, max_chars: Option<usize>) -> (r: String)
        ensures
            ({
                let rem = old(self).spec_remaining();
                let limit = match max_chars {
                    Some(m) => m as int,
                    None => rem.len() as int,
                };
                r@ == rem.take(if limit <= rem.len() {
                    limit
                } else {
                    rem.len() as int
                })
            }),
            final(self).spec_remaining() == old(self).spec_remaining().skip(r@.len() as int),
            final(self).spec_chars() == old(self).spec_chars(),
            final(self).spec_has_range() == old(self).spec_has_range(),
            final(self).spec_range_start() == old(self).spec_range_start(),
            final(self).spec_range_end() == old(self).spec_range_end(),
            final(self).spec_forward() == old(self).spec_forward(),
    {
        let total_chars = self.chars.len();
        let ghost rem = self.spec_remaining();
        proof {
            assert(rem.len() <= total_chars + 1);
        }
        let mut result = String::new();
        let mut count: usize = 0;
        let limited = max_chars.is_some();
        let limit: usize = match max_chars {
            Some(m) => m,
            None => 0,
        };
        proof {
            assert(result@ =~= rem.take(0));
        }
        loop
            invariant
                rem == old(self).spec_remaining(),
                limited == (max_chars is Some),
                limited ==> limit == max_chars->0,
                count <= rem.len(),
                rem.len() <= usize::MAX,
                self.spec_chars().len() <= usize::MAX,
                result@ == rem.take(count as int),
                limited ==> count <= limit,
                self.spec_remaining() == rem.skip(count as int),
                self.spec_chars() == old(self).spec_chars(),
                self.spec_has_range() == old(self).spec_has_range(),
                self.spec_range_start() == old(self).spec_range_start(),
                self.spec_range_end() == old(self).spec_range_end(),
                self.spec_forward() == old(self).spec_forward(),
            decreases rem.len() - count,
        {
            if limited && count >= limit {
                proof {
                    assert(rem.take(count as int) =~= rem.take(
                        if limit as int <= rem.len() {
                            limit as int
                        } else {
                            rem.len() as int
                        },
                    ));
                }
                return result;
            }
            proof {
                if self.spec_current() is Some {
                    lemma_remaining_step(*self);
                }
            }
            let c = self.next();
            match c {
                Some(ch) => {
                    push_char(&mut result, ch);
                    proof {
                        assert(rem.skip(count as int)[0] == ch);
                        assert(rem.take(count + 1) =~= rem.take(count as int).push(ch));
                        assert(rem.skip(count as int).skip(1) =~= rem.skip(count + 1));
                    }
                    count = count + 1;
                },
                None => {
                    proof {
                        assert(rem.skip(count as int) =~= Seq::<char>::empty());
                        assert(count == rem.len());
                        assert(rem.take(count as int) =~= rem);
                    }
                    return result;
                },
            }
        }
    }

    /// Moves the cursor past the characters that satisfy the predicate and
    /// reports how many were skipped.
    pub fn skip_while<F: Fn(char) -> bool>(&mut self, predicate: F) -> (r: usize)
        requires
            forall|c: char| #[trigger] predicate.requires((c,)),
        ensures
            ({
                let rem = old(self).spec_remaining();
                &&& r <= rem.len()
                &&& final(self).spec_remaining() == rem.skip(r as int)
                &&& forall|j: int| 0 <= j < r ==> call_ensures(predicate, (rem[j],), true)
                &&& (r < rem.len() ==> call_ensures(predicate, (rem[r as int],), false))
            }),
            final(self).spec_chars() == old(self).spec_chars(),
            final(self).spec_forward() == old(self).spec_forward(),
    {
        let total_chars = self.chars.len();
        let ghost rem = self.spec_remaining();
        proof {
            assert(rem.len() <= total_chars + 1);
        }
        let mut skipped: usize = 0;
        loop
            invariant
                rem == old(self).spec_remaining(),
                forall|c: char| #[trigger] predicate.requires((c,)),
                skipped <= rem.len(),
                rem.len() <= usize::MAX,
                self.spec_chars().len() <= usize::MAX,
                self.spec_remaining() == rem.skip(skipped as int),
                forall|j: int| 0 <= j < skipped ==> call_ensures(predicate, (rem[j],), true),
                self.spec_chars() == old(self).spec_chars(),
                self.spec_forward() == old(self).spec_forward(),
            decreases rem.len() - skipped,
        {
            let c = self.current_char();
            match c {
                Some(ch) => {
                    proof {
                        lemma_remaining_step(*self);
                        assert(rem.skip(skipped as int)[0] == ch);
                    }
                    if !predicate(ch) {
                        return skipped;
                    }
                    self.advance_char();
                    proof {
                        assert(rem.skip(skipped as int).skip(1) =~= rem.skip(skipped + 1));
                    }
                    skipped = skipped + 1;
                },
                None => {
                    proof {
                        assert(rem.skip(skipped as int) =~= Seq::<char>::empty());
                        assert(skipped == rem.len());
                    }
                    return skipped;
                },
            }
        }
    }

    /// Collects the characters that satisfy the predicate into text, stopping
    /// at the first that does not.
    pub fn take_while<F: Fn(char) -> bool>(&mut self, predicate: F) -> (r: String)
        requires
            forall|c: char| #[trigger] predicate.requires((c,)),
        ensures
            ({
                let rem = old(self).spec_remaining();
                &&& r@.len() <= rem.len()
                &&& r@ == rem.take(r@.len() as int)
                &&& final(self).spec_remaining() == rem.skip(r@.len() as int)
                &&& forall|j: int| 0 <= j < r@.len() ==> call_ensures(predicate, (rem[j],), true)
                &&& (r@.len() < rem.len() ==> call_ensures(
                    predicate,
                    (rem[r@.len() as int],),
                    false,
                ))
            }),
            final(self).spec_chars() == old(self).spec_chars(),
            final(self).spec_forward() == old(self).spec_forward(),
    {
        let total_chars = self.chars.len();
        let ghost rem = self.spec_remaining();
        let mut result = String::new();
        let mut taken: usize = 0;
        proof {
            assert(rem.len() <= total_chars + 1);
            assert(result@ =~= rem.take(0));
        }
        loop
            invariant
                rem == old(self).spec_remaining(),
                forall|c: char| #[trigger] predicate.requires((c,)),
                taken <= rem.len(),
                rem.len() <= usize::MAX,
                self.spec_chars().len() <= usize::MAX,
                result@ == rem.take(taken as int),
                result@.len() == taken,
                self.spec_remaining() == rem.skip(taken as int),
                forall|j: int| 0 <= j < taken ==> call_ensures(predicate, (rem[j],), true),
                self.spec_chars() == old(self).spec_chars(),
                self.spec_forward() == old(self).spec_forward(),
            decreases rem.len() - taken,
        {
            let c = self.current_char();
            match c {
                Some(ch) => {
                    proof {
                        lemma_remaining_step(*self);
                        assert(rem.skip(taken as int)[0] == ch);
                    }
                    if !predicate(ch) {
                        return result;
                    }
                    push_char(&mut result, ch);
                    self.advance_char();
                    proof {
                        assert(rem.take(taken + 1) =~= rem.take(taken as int).push(ch));
                        assert(rem.skip(taken as int).skip(1) =~= rem.skip(taken + 1));
                    }
                    taken = taken + 1;
                },
                None => {
                    proof {
                        assert(rem.skip(taken as int) =~= Seq::<char>::empty());
                        assert(taken == rem.len());
                    }
                    return result;
                },
            }
        }
    }

    /// A byte-oriented view over this iterator.
    pub fn bytes(self) -> (r: RopeByteIterator)
        ensures
            r.inner == self,
    {
        RopeByteIterator { inner: self }
    }

    /// A line-oriented view over this iterator.
    pub fn lines(self) -> (r: RopeLineIterator)
        ensures
            r.inner == self,
    {
        RopeLineIterator { inner: self }
    }

    /// A forward-only walker over the whole leaf segments of a tree.
    pub fn chunks(root: &Node, range: Option<Range<usize>>) -> (r: RopeChunkIterator)
        ensures
            r.spec_leaves() == spec_leaf_texts(*root),
            r.spec_index() == 0,
            r.spec_traversed() == 0,
            match range {
                Some(rg) => r.spec_has_range() && r.spec_range_end() == rg.end,
                None => !r.spec_has_range(),
            },
    {
        let mut leaves: Vec<String> = Vec::new();
        collect_leaves(root, &mut leaves);
        proof {
            assert(leaves@.map_values(|s: String| s@) =~= spec_leaf_texts(*root));
        }
        match range {
            Some(rg) => RopeChunkIterator {
                leaves,
                index: 0,
                traversed: 0,
                has_range: true,
                range_end: rg.end,
            },
            None => RopeChunkIterator {
                leaves,
                index: 0,
                traversed: 0,
                has_range: false,
                range_end: 0,
            },
        }
    }
}

/// One step of `next` removes the head of the remaining sequence.
proof fn lemma_remaining_step(it: RopeIterator)
    requires
        it.spec_current() is Some,
        it.spec_chars().len() <= usize::MAX,
    ensures
        it.spec_remaining().len() >= 1,
        it.spec_remaining()[0] == it.spec_current()->Some_0,
        it.spec_step().spec_remaining() == it.spec_remaining().skip(1),
{
    let rem = it.spec_remaining();
    let stepped = it.spec_step();
    if it.spec_forward() {
        assert(stepped.spec_remaining() =~= rem.skip(1));
    } else {
        let lower = if it.spec_has_range() {
            it.spec_range_start()
        } else {
            0
        };
        assert(rem[0] == it.spec_chars()[it.spec_pos()]);
        if it.spec_pos() == 0 {
            assert(stepped.spec_remaining() =~= rem.skip(1));
        } else {
            assert(stepped.spec_remaining() =~= rem.skip(1));
        }
    }
}

/// The texts of a tree's leaves, in order.
pub open spec fn spec_leaf_texts(n: Node) -> Seq<Seq<char>>
    decreases n,
{
    if n.children@.len() == 0 {
        seq![n.content@]
    } else {
        spec_children_leaf_texts(n.children@)
    }
}

/// The leaf texts of a sequence of nodes, in order.
pub open spec fn spec_children_leaf_texts(s: Seq<Node>) -> Seq<Seq<char>>
    decreases s,
{
    if s.len() == 0 {
        seq![]
    } else {
        spec_leaf_texts(s[0]) + spec_children_leaf_texts(s.drop_first())
    }
}

fn collect_leaves(node: &Node, out: &mut Vec<String>)
    ensures
        final(out)@.map_values(|s: String| s@) == old(out)@.map_values(|s: String| s@)
            + spec_leaf_texts(*node),
    decreases *node,
{
    if node.children.len() == 0 {
        let ghost base = out@.map_values(|s: String| s@);
        out.push(node.content.clone());
        proof {
            assert(out@.map_values(|s: String| s@) =~= base + seq![node.content@]);
        }
    } else {
        let ghost base = out@.map_values(|s: String| s@);
        let ghost kids = node.children@;
        let mut i: usize = 0;
        proof {
            assert(kids.take(0) =~= Seq::<Node>::empty());
            assert(out@.map_values(|s: String| s@) =~= base + spec_children_leaf_texts(
                kids.take(0),
            ));
        }
        while i < node.children.len()
            invariant
                i <= kids.len(),
                kids == node.children@,
                out@.map_values(|s: String| s@) == base + spec_children_leaf_texts(
                    kids.take(i as int),
                ),
            decreases kids.len() - i,
        {
            proof {
                assert(decreases_to!(*node => node.children));
            }
            collect_leaves(&node.children[i], out);
            proof {
                lemma_children_leaf_texts_take_push(kids, i as int);
            }
            i = i + 1;
        }
        proof {
            assert(kids.take(kids.len() as int) =~= kids);
        }
    }
}

proof fn lemma_children_leaf_texts_take_push(s: Seq<Node>, i: int)
    requires
        0 <= i < s.len(),
    ensures
        spec_children_leaf_texts(s.take(i + 1)) == spec_children_leaf_texts(s.take(i))
            + spec_leaf_texts(s[i]),
    decreases i,
{
    if i == 0 {
        assert(s.take(1).drop_first() =~= Seq::<Node>::empty());
        assert(s.take(1)[0] == s[0]);
        assert(s.take(0) =~= Seq::<Node>::empty());
        assert(spec_children_leaf_texts(s.take(1)) =~= spec_children_leaf_texts(s.take(0))
            + spec_leaf_texts(s[0]));
    } else {
        assert(s.take(i + 1).drop_first() =~= s.drop_first().take(i));
        assert(s.take(i).drop_first() =~= s.drop_first().take(i - 1));
        assert(s.take(i + 1)[0] == s[0]);
        assert(s.take(i)[0] == s[0]);
        lemma_children_leaf_texts_take_push(s.drop_first(), i - 1);
        assert(spec_children_leaf_texts(s.take(i + 1)) =~= spec_children_leaf_texts(s.take(i))
            + spec_leaf_texts(s[i]));
    }
}

/// A byte view over a rope iterator. Each step takes one character from the
/// underlying iterator and yields the first byte of its UTF-8 encoding alone;
/// the continuation bytes of a multi-byte character are not produced.
pub struct RopeByteIterator {
    pub inner: RopeIterator,
}

impl RopeByteIterator {
    /// The first UTF-8 byte of the next character, if any.
    pub fn next(&mut self) -> (r: Option<u8>)
        ensures
            r == match old(self).inner.spec_current() {
                Some(c) => Some(encode_scalar(c as u32)[0]),
                None => None::<u8>,
            },
            old(self).inner.spec_current() is Some ==> final(self).inner == old(self).inner.spec_step(),
            old(self).inner.spec_current() is None ==> *final(self) == *old(self),
    {
        let c = self.inner.next();
        match c {
            Some(ch) => Some(first_utf8_byte(ch)),
            None => None,
        }
    }
}

/// The first byte of a character's UTF-8 encoding.
fn first_utf8_byte(c: char) -> (r: u8)
    ensures
        r == encode_scalar(c as u32)[0],
{
    proof {
        vstd::utf8::char_is_scalar(c);
    }
    let cs = crate::text::char_to_string(c);
    let bytes = cs.as_str().as_bytes();
    proof {
        crate::text::lemma_encode_singleton(c);
        assert(bytes@ == encode_scalar(c as u32));
        crate::text::lemma_encode_utf8_len_zero(seq![c]);
    }
    bytes[0]
}

/// A line view over a rope iterator: splits the traversed characters on line
/// feeds, suppressing a trailing empty line.
pub struct RopeLineIterator {
    pub inner: RopeIterator,
}

impl RopeLineIterator {
    /// The next logical line: the characters up to the next line feed, which
    /// is consumed but not returned. After the final character, an empty
    /// trailing line is suppressed.
    pub fn next(&mut self) -> (r: Option<String>)
        ensures
            old(self).inner.spec_exhausted() ==> r is None && *final(self) == *old(self),
            r matches Some(line) ==> ({
                let rem = old(self).inner.spec_remaining();
                let cut = line@.len() as int;
                &&& cut <= rem.len()
                &&& line@ == rem.take(cut)
                &&& forall|j: int| 0 <= j < cut ==> rem[j] != '\n'
                &&& (cut < rem.len() ==> rem[cut] == '\n' && final(self).inner.spec_remaining()
                    == rem.skip(cut + 1))
                &&& (cut == rem.len() ==> final(self).inner.spec_remaining()
                    == Seq::<char>::empty())
            }),
            r is None ==> final(self).inner.spec_current() is None,
    {
        if self.inner.exhausted_flag() {
            return None;
        }
        let total_chars = self.inner.chars.len();
        let ghost rem = self.inner.spec_remaining();
        let mut line = String::new();
        let mut count: usize = 0;
        proof {
            assert(rem.len() <= total_chars + 1);
            assert(line@ =~= rem.take(0));
        }
        loop
            invariant
                rem == old(self).inner.spec_remaining(),
                !old(self).inner.spec_exhausted(),
                count <= rem.len(),
                rem.len() <= usize::MAX,
                self.inner.spec_chars().len() <= usize::MAX,
                line@ == rem.take(count as int),
                line@.len() == count,
                self.inner.spec_remaining() == rem.skip(count as int),
                forall|j: int| 0 <= j < count ==> rem[j] != '\n',
            decreases rem.len() - count,
        {
            proof {
                if self.inner.spec_current() is Some {
                    lemma_remaining_step(self.inner);
                    assert(rem.skip(count as int)[0] == self.inner.spec_current()->Some_0);
                }
            }
            let c = self.inner.next();
            match c {
                Some(ch) => {
                    proof {
                        assert(rem.skip(count as int).skip(1) =~= rem.skip(count + 1));
                    }
                    if ch == '\n' {
                        return Some(line);
                    }
                    push_char(&mut line, ch);
                    proof {
                        assert(rem.take(count + 1) =~= rem.take(count as int).push(ch));
                    }
                    count = count + 1;
                },
                None => {
                    proof {
                        assert(self.inner.spec_remaining() =~= Seq::<char>::empty());
                        assert(rem.skip(count as int).len() == 0);
                        assert(count == rem.len());
                    }
                    if count == 0 {
                        return None;
                    }
                    return Some(line);
                },
            }
        }
    }
}

impl RopeIterator {
    /// True once the iterator has passed the end of its range.
    pub fn exhausted_flag(&self) -> (r: bool)
        ensures
            r == self.spec_exhausted(),
    {
        self.exhausted
    }
}

/// A forward-only walker that yields whole leaf segments lazily, without
/// character-level decomposition, until the cumulative length reaches the
/// range end.
pub struct RopeChunkIterator {
    leaves: Vec<String>,
    index: usize,
    traversed: usize,
    has_range: bool,
    range_end: usize,
}

impl RopeChunkIterator {
    pub closed spec fn spec_leaves(self) -> Seq<Seq<char>> {
        self.leaves@.map_values(|s: String| s@)
    }

    pub closed spec fn spec_index(self) -> int {
        self.index as int
    }

    pub closed spec fn spec_traversed(self) -> int {
        self.traversed as int
    }

    pub closed spec fn spec_has_range(self) -> bool {
        self.has_range
    }

    pub closed spec fn spec_range_end(self) -> int {
        self.range_end as int
    }

    /// The next whole leaf segment; nothing once the leaves are consumed or
    /// the cumulative byte length has reached the range end. The returned
    /// byte count saturates at the machine limit.
    pub fn next(&mut self) -> (r: Option<Chunk>)
        ensures
            r is Some <==> old(self).spec_index() < old(self).spec_leaves().len() && (old(self).spec_has_range() ==> old(self).spec_traversed() < old(self).spec_range_end()),
            r matches Some(c) ==> c.wf() && c.spec_text() == old(self).spec_leaves()[old(self).spec_index()] && final(self).spec_index() == old(self).spec_index() + 1 && final(self).spec_traversed() == ({
                let grown = old(self).spec_traversed() + vstd::utf8::encode_utf8(
                    old(self).spec_leaves()[old(self).spec_index()],
                ).len();
                if grown <= usize::MAX {
                    grown
                } else {
                    usize::MAX as int
                }
            }),
            r is None ==> *final(self) == *old(self),
    {
        if self.index >= self.leaves.len() {
            return None;
        }
        if self.has_range && self.traversed >= self.range_end {
            return None;
        }
        let text = self.leaves[self.index].clone();
        let chunk = Chunk::new(text);
        let len = self.leaves[self.index].as_str().as_bytes().len();
        self.traversed = self.traversed.saturating_add(len);
        self.index = self.index + 1;
        Some(chunk)
    }
}

} // verus!
