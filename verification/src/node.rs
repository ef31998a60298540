//! Rope tree nodes: content-bearing nodes with children, split, merge,
//! balance and search.

use vstd::prelude::*;
use vstd::utf8::*;
use vstd::string::StringSliceAdditionalSpecFns;
use vstd::string::StrSliceExecFns;
use vstd::string::StringExecFns;
use core::ops::Range;
use crate::text::{string_bytes, substr_range, lemma_encode_utf8_concat};
use crate::encoding::{Encoding, spec_encode, EncodingHandler};
use crate::line_ending::LineEnding;
use crate::validation::{
    validate_control_characters, validate_line_endings, spec_is_rejected_control,
    spec_line_endings_ok,
};

verus! {

broadcast use {
    vstd::utf8::encode_utf8_valid_utf8,
    vstd::utf8::is_char_boundary_start_end_of_seq,
};

/// A rope tree node. A node may hold its own content and children at the
/// same time; its own content counts toward its length and is found before
/// its children when searching by offset.
#[derive(Debug)]
pub struct Node {
    pub content: String,
    pub encoding: Encoding,
    pub line_ending: LineEnding,
    pub children: Vec<Node>,
    pub length: usize,
}

/// The total byte length of a node: its own content plus all its children.
pub open spec fn spec_total_length(n: Node) -> int
    decreases n,
{
    string_bytes(n.content).len() + spec_children_total(n.children@)
}

/// The sum of the total lengths of a sequence of nodes.
pub open spec fn spec_children_total(s: Seq<Node>) -> int
    decreases s,
{
    if s.len() == 0 {
        0
    } else {
        spec_total_length(s[0]) + spec_children_total(s.drop_first())
    }
}

/// The depth of a node: one for a leaf, one more than the deepest child
/// otherwise.
pub open spec fn spec_depth(n: Node) -> int
    decreases n,
{
    1 + spec_children_depth(n.children@)
}

/// The largest depth among a sequence of nodes.
pub open spec fn spec_children_depth(s: Seq<Node>) -> int
    decreases s,
{
    if s.len() == 0 {
        0
    } else {
        let first = spec_depth(s[0]);
        let rest = spec_children_depth(s.drop_first());
        if first >= rest {
            first
        } else {
            rest
        }
    }
}

/// The text that the node's leaves carry, in order: a leaf contributes its
/// own content, an interior node the texts of its children.
pub open spec fn spec_flat_text(n: Node) -> Seq<char>
    decreases n,
{
    if n.children@.len() == 0 {
        n.content@
    } else {
        spec_children_flat(n.children@)
    }
}

/// The concatenation of the leaf texts of a sequence of nodes.
pub open spec fn spec_children_flat(s: Seq<Node>) -> Seq<char>
    decreases s,
{
    if s.len() == 0 {
        seq![]
    } else {
        spec_flat_text(s[0]) + spec_children_flat(s.drop_first())
    }
}

impl Node {
    /// The cached length is the node's own content length, every child is
    /// well formed, and the total length fits the address space.
    pub open spec fn wf(self) -> bool
        decreases self,
    {
        &&& self.length == string_bytes(self.content).len()
        &&& spec_total_length(self) <= usize::MAX
        &&& forall|i: int| 0 <= i < self.children@.len() ==> (#[trigger] self.children@[i]).wf()
    }
}

pub proof fn lemma_total_nonneg(n: Node)
    ensures
        spec_total_length(n) >= 0,
    decreases n,
{
    lemma_children_total_nonneg(n.children@);
}

pub proof fn lemma_children_total_nonneg(s: Seq<Node>)
    ensures
        spec_children_total(s) >= 0,
    decreases s,
{
    if s.len() > 0 {
        lemma_total_nonneg(s[0]);
        lemma_children_total_nonneg(s.drop_first());
    }
}

pub proof fn lemma_children_total_push(s: Seq<Node>, n: Node)
    ensures
        spec_children_total(s.push(n)) == spec_children_total(s) + spec_total_length(n),
    decreases s.len(),
{
    if s.len() == 0 {
        assert(s.push(n).drop_first() =~= s);
    } else {
        assert(s.push(n).drop_first() =~= s.drop_first().push(n));
        lemma_children_total_push(s.drop_first(), n);
    }
}

pub proof fn lemma_children_total_insert(s: Seq<Node>, i: int, n: Node)
    requires
        0 <= i <= s.len(),
    ensures
        spec_children_total(s.insert(i, n)) == spec_children_total(s) + spec_total_length(n),
    decreases s.len(),
{
    if i == 0 {
        assert(s.insert(0, n).drop_first() =~= s);
    } else {
        assert(s.insert(i, n).drop_first() =~= s.drop_first().insert(i - 1, n));
        lemma_children_total_insert(s.drop_first(), i - 1, n);
    }
}

pub proof fn lemma_children_total_remove(s: Seq<Node>, i: int)
    requires
        0 <= i < s.len(),
    ensures
        spec_children_total(s.remove(i)) == spec_children_total(s) - spec_total_length(s[i]),
    decreases s.len(),
{
    if i == 0 {
        assert(s.remove(0) =~= s.drop_first());
    } else {
        assert(s.remove(i).drop_first() =~= s.drop_first().remove(i - 1));
        lemma_children_total_remove(s.drop_first(), i - 1);
    }
}

pub proof fn lemma_children_total_take(s: Seq<Node>, i: int)
    requires
        0 <= i <= s.len(),
    ensures
        spec_children_total(s) == spec_children_total(s.take(i)) + spec_children_total(s.skip(i)),
    decreases i,
{
    if i == 0 {
        assert(s.take(0) =~= Seq::<Node>::empty());
        assert(s.skip(0) =~= s);
    } else {
        assert(s.take(i).drop_first() =~= s.drop_first().take(i - 1));
        assert(s.skip(i) =~= s.drop_first().skip(i - 1));
        lemma_children_total_take(s.drop_first(), i - 1);
    }
}

pub proof fn lemma_children_total_concat(a: Seq<Node>, b: Seq<Node>)
    ensures
        spec_children_total(a + b) == spec_children_total(a) + spec_children_total(b),
    decreases a.len(),
{
    if a.len() == 0 {
        assert(a + b =~= b);
    } else {
        assert((a + b).drop_first() =~= a.drop_first() + b);
        lemma_children_total_concat(a.drop_first(), b);
    }
}

pub proof fn lemma_children_depth_nonneg(s: Seq<Node>)
    ensures
        spec_children_depth(s) >= 0,
    decreases s.len(),
{
    if s.len() > 0 {
        lemma_children_depth_nonneg(s.drop_first());
        lemma_depth_pos(s[0]);
    }
}

pub proof fn lemma_depth_pos(n: Node)
    ensures
        spec_depth(n) >= 1,
    decreases n,
{
    lemma_children_depth_nonneg_weak(n.children@);
}

proof fn lemma_children_depth_nonneg_weak(s: Seq<Node>)
    ensures
        spec_children_depth(s) >= 0,
    decreases s,
{
    if s.len() > 0 {
        lemma_children_depth_nonneg_weak(s.drop_first());
    }
}

impl Node {
    /// A leaf node holding the given content.
    pub fn new(content: String, encoding: Encoding, line_ending: LineEnding) -> (r: Node)
        ensures
            r.wf(),
            r.content == content,
            r.encoding == encoding,
            r.line_ending == line_ending,
            r.children@.len() == 0,
            r.length == string_bytes(content).len(),
            spec_total_length(r) == string_bytes(content).len(),
    {
        let length = content.as_str().as_bytes().len();
        Node { content, encoding, line_ending, children: Vec::new(), length }
    }

    /// A leaf node with room reserved for the given number of children.
    pub fn with_capacity(
        content: String,
        encoding: Encoding,
        line_ending: LineEnding,
        capacity: usize,
    ) -> (r: Node)
        ensures
            r.wf(),
            r.content == content,
            r.encoding == encoding,
            r.line_ending == line_ending,
            r.children@.len() == 0,
            r.length == string_bytes(content).len(),
    {
        let length = content.as_str().as_bytes().len();
        Node { content, encoding, line_ending, children: Vec::with_capacity(capacity), length }
    }

    /// Appends a child; the total length grows by the child's total length.
    pub fn add_child(&mut self, child: Node)
        requires
            old(self).wf(),
            child.wf(),
            spec_total_length(*old(self)) + spec_total_length(child) <= usize::MAX,
        ensures
            final(self).wf(),
            final(self).children@ =~= old(self).children@.push(child),
            final(self).content == old(self).content,
            final(self).encoding == old(self).encoding,
            final(self).line_ending == old(self).line_ending,
            final(self).length == old(self).length,
            spec_total_length(*final(self)) == spec_total_length(*old(self)) + spec_total_length(
                child,
            ),
    {
        proof {
            lemma_children_total_push(self.children@, child);
        }
        self.children.push(child);
    }

    /// Inserts a child at a position of the child list; a position past the
    /// end leaves the node unchanged.
    pub fn insert_child(&mut self, index: usize, child: Node)
        requires
            old(self).wf(),
            child.wf(),
            spec_total_length(*old(self)) + spec_total_length(child) <= usize::MAX,
        ensures
            final(self).wf(),
            index <= old(self).children@.len() ==> final(self).children@ =~= old(
                self,
            ).children@.insert(index as int, child) && spec_total_length(*final(self))
                == spec_total_length(*old(self)) + spec_total_length(child),
            index > old(self).children@.len() ==> *final(self) == *old(self),
            final(self).content == old(self).content,
            final(self).encoding == old(self).encoding,
            final(self).line_ending == old(self).line_ending,
            final(self).length == old(self).length,
    {
        if index <= self.children.len() {
            proof {
                lemma_children_total_insert(self.children@, index as int, child);
            }
            self.children.insert(index, child);
        }
    }

    /// Removes and returns the child at a position of the child list; a
    /// position out of bounds leaves the node unchanged.
    pub fn remove_child(&mut self, index: usize) -> (r: Option<Node>)
        requires
            old(self).wf(),
        ensures
            final(self).wf(),
            r is Some <==> index < old(self).children@.len(),
            r is None ==> *final(self) == *old(self),
            r matches Some(c) ==> c == old(self).children@[index as int] && final(self).children@
                =~= old(self).children@.remove(index as int) && spec_total_length(*final(self))
                == spec_total_length(*old(self)) - spec_total_length(c) && c.wf(),
            final(self).content == old(self).content,
            final(self).encoding == old(self).encoding,
            final(self).line_ending == old(self).line_ending,
            final(self).length == old(self).length,
    {
        if index < self.children.len() {
            proof {
                lemma_children_total_remove(self.children@, index as int);
                lemma_children_total_nonneg(self.children@.remove(index as int));
                lemma_children_total_nonneg(self.children@);
                lemma_total_nonneg(self.children@[index as int]);
            }
            let child = self.children.remove(index);
            Some(child)
        } else {
            None
        }
    }

    /// A copy of the node's own content.
    pub fn get_content(&self) -> (r: String)
        ensures
            r@ == self.content@,
    {
        self.content.clone()
    }

    /// The node's own content, borrowed.
    pub fn get_content_ref(&self) -> (r: &str)
        ensures
            r@ == self.content@,
    {
        self.content.as_str()
    }

    /// The total byte length of the node's own content and all its children.
    pub fn total_length(&self) -> (r: usize)
        requires
            self.wf(),
        ensures
            r == spec_total_length(*self),
        decreases *self,
    {
        let ghost kids = self.children@;
        let mut sum: usize = self.length;
        let mut i: usize = 0;
        proof {
            assert(kids.take(0) =~= Seq::<Node>::empty());
            lemma_children_total_take(kids, 0);
        }
        while i < self.children.len()
            invariant
                i <= kids.len(),
                kids == self.children@,
                self.wf(),
                sum == string_bytes(self.content).len() + spec_children_total(
                    kids.take(i as int),
                ),
            decreases kids.len() - i,
        {
            proof {
                assert(decreases_to!(*self => self.children));
                assert(kids[i as int].wf());
                lemma_children_total_push(kids.take(i as int), kids[i as int]);
                assert(kids.take(i + 1) =~= kids.take(i as int).push(kids[i as int]));
                lemma_children_total_take(kids, i + 1);
                lemma_children_total_nonneg(kids.skip(i + 1));
                lemma_children_total_nonneg(kids.take(i as int));
            }
            let child_length = self.children[i].total_length();
            sum = sum + child_length;
            i = i + 1;
        }
        proof {
            assert(kids.take(kids.len() as int) =~= kids);
        }
        sum
    }

    /// One for a leaf, one more than the deepest child otherwise; saturates
    /// at the largest machine value.
    pub fn depth(&self) -> (r: usize)
        requires
            self.wf(),
        ensures
            r == if spec_depth(*self) <= usize::MAX {
                spec_depth(*self)
            } else {
                usize::MAX as int
            },
        decreases *self,
    {
        let ghost kids = self.children@;
        let mut deepest: usize = 0;
        let mut i: usize = 0;
        proof {
            assert(kids.take(0) =~= Seq::<Node>::empty());
        }
        while i < self.children.len()
            invariant
                i <= kids.len(),
                kids == self.children@,
                self.wf(),
                deepest == if spec_children_depth(kids.take(i as int)) <= usize::MAX {
                    spec_children_depth(kids.take(i as int))
                } else {
                    usize::MAX as int
                },
            decreases kids.len() - i,
        {
            proof {
                assert(decreases_to!(*self => self.children));
                assert(kids[i as int].wf());
                lemma_children_depth_take_push(kids, i as int);
            }
            let d = self.children[i].depth();
            if d > deepest {
                deepest = d;
            }
            i = i + 1;
        }
        proof {
            assert(kids.take(kids.len() as int) =~= kids);
            lemma_children_depth_nonneg(kids);
        }
        deepest.saturating_add(1)
    }

    pub fn is_leaf(&self) -> (r: bool)
        ensures
            r == (self.children@.len() == 0),
    {
        self.children.len() == 0
    }

    /// True when the node holds no content and no children.
    pub fn is_empty(&self) -> (r: bool)
        ensures
            r == (self.length == 0 && self.children@.len() == 0),
    {
        self.length == 0 && self.children.len() == 0
    }

    pub fn child_count(&self) -> (r: usize)
        ensures
            r == self.children@.len(),
    {
        self.children.len()
    }
}

proof fn lemma_children_depth_take_push(s: Seq<Node>, i: int)
    requires
        0 <= i < s.len(),
    ensures
        spec_children_depth(s.take(i + 1)) == if spec_depth(s[i]) >= spec_children_depth(
            s.take(i),
        ) {
            spec_depth(s[i])
        } else {
            spec_children_depth(s.take(i))
        },
    decreases i,
{
    if i == 0 {
        assert(s.take(1).drop_first() =~= Seq::<Node>::empty());
        assert(s.take(1)[0] == s[0]);
        assert(s.take(0) =~= Seq::<Node>::empty());
        lemma_depth_pos(s[0]);
    } else {
        assert(s.take(i + 1).drop_first() =~= s.drop_first().take(i));
        assert(s.take(i).drop_first() =~= s.drop_first().take(i - 1));
        assert(s.take(i + 1)[0] == s[0]);
        assert(s.take(i)[0] == s[0]);
        lemma_children_depth_take_push(s.drop_first(), i - 1);
    }
}

/// For every well-formed node, the cached length equals the node's own
/// content length, and the total length is the own length plus the sum of
/// the children's total lengths.
pub proof fn lemma_node_length_invariant(n: Node)
    requires
        n.wf(),
    ensures
        n.length == string_bytes(n.content).len(),
        spec_total_length(n) == n.length + spec_children_total(n.children@),
{
}

impl Default for Node {
    /// An empty UTF-8 leaf with line-feed terminators.
    fn default() -> (r: Node)
        ensures
            r.wf(),
            r.content@.len() == 0,
            r.encoding is UTF8,
            r.line_ending is LF,
            r.children@.len() == 0,
            r.length == 0,
    {
        proof {
            crate::text::lemma_encode_utf8_len_zero(Seq::<char>::empty());
        }
        Node::new(String::new(), Encoding::UTF8, LineEnding::LF)
    }
}

/// Where a byte offset falls in a node: in the node's own content, or in the
/// child whose span contains it.
pub open spec fn spec_find(n: Node, index: int) -> Option<Node>
    decreases n,
{
    if index < 0 || index >= spec_total_length(n) {
        None
    } else if index < string_bytes(n.content).len() {
        Some(n)
    } else {
        spec_find_children(n.children@, index - string_bytes(n.content).len())
    }
}

/// Where an offset falls among a sequence of nodes laid end to end.
pub open spec fn spec_find_children(s: Seq<Node>, index: int) -> Option<Node>
    decreases s,
{
    if s.len() == 0 {
        None
    } else if index < spec_total_length(s[0]) {
        spec_find(s[0], index)
    } else {
        spec_find_children(s.drop_first(), index - spec_total_length(s[0]))
    }
}

/// A search succeeds exactly on the offsets below the total length, and the
/// node it returns is well formed.
pub proof fn lemma_find_in_range(n: Node, index: int)
    requires
        n.wf(),
    ensures
        spec_find(n, index) is Some <==> 0 <= index < spec_total_length(n),
        spec_find(n, index) matches Some(m) ==> m.wf(),
    decreases n,
{
    if 0 <= index < spec_total_length(n) {
        if index < string_bytes(n.content).len() {
        } else {
            lemma_find_children_in_range(n.children@, index - string_bytes(n.content).len());
        }
    }
}

proof fn lemma_find_children_in_range(s: Seq<Node>, index: int)
    requires
        forall|i: int| 0 <= i < s.len() ==> (#[trigger] s[i]).wf(),
    ensures
        spec_find_children(s, index) is Some <==> 0 <= index < spec_children_total(s),
        spec_find_children(s, index) matches Some(m) ==> m.wf(),
    decreases s,
{
    if s.len() == 0 {
    } else {
        lemma_total_nonneg(s[0]);
        lemma_children_total_nonneg(s.drop_first());
        assert(s[0].wf());
        lemma_find_in_range(s[0], index);
        lemma_find_children_in_range(s.drop_first(), index - spec_total_length(s[0]));
    }
}

/// Two node sequences with pointwise equal totals have the same sum.
proof fn lemma_children_total_pointwise(a: Seq<Node>, b: Seq<Node>)
    requires
        a.len() == b.len(),
        forall|i: int| 0 <= i < a.len() ==> spec_total_length(#[trigger] a[i])
            == spec_total_length(b[i]),
    ensures
        spec_children_total(a) == spec_children_total(b),
    decreases a.len(),
{
    if a.len() > 0 {
        lemma_children_total_pointwise(a.drop_first(), b.drop_first());
    }
}

/// Two node sequences with pointwise equal leaf texts have the same
/// concatenated leaf text.
proof fn lemma_children_flat_pointwise(a: Seq<Node>, b: Seq<Node>)
    requires
        a.len() == b.len(),
        forall|i: int| 0 <= i < a.len() ==> spec_flat_text(#[trigger] a[i]) == spec_flat_text(
            b[i],
        ),
    ensures
        spec_children_flat(a) == spec_children_flat(b),
    decreases a.len(),
{
    if a.len() > 0 {
        lemma_children_flat_pointwise(a.drop_first(), b.drop_first());
        assert(spec_children_flat(a) =~= spec_children_flat(b));
    }
}

proof fn lemma_children_flat_concat(a: Seq<Node>, b: Seq<Node>)
    ensures
        spec_children_flat(a + b) == spec_children_flat(a) + spec_children_flat(b),
    decreases a.len(),
{
    if a.len() == 0 {
        assert(a + b =~= b);
        assert(spec_children_flat(a) + spec_children_flat(b) =~= spec_children_flat(b));
    } else {
        assert((a + b).drop_first() =~= a.drop_first() + b);
        lemma_children_flat_concat(a.drop_first(), b);
        assert(spec_children_flat(a + b) =~= spec_children_flat(a) + spec_children_flat(b));
    }
}

proof fn lemma_children_total_drop_last(s: Seq<Node>)
    requires
        s.len() > 0,
    ensures
        spec_children_total(s) == spec_children_total(s.drop_last()) + spec_total_length(s.last()),
{
    lemma_children_total_push(s.drop_last(), s.last());
    assert(s.drop_last().push(s.last()) =~= s);
}

/// True of a child that `compact` keeps: it holds content or children.
pub open spec fn spec_keep_child() -> spec_fn(Node) -> bool {
    |c: Node| !(c.length == 0 && c.children@.len() == 0)
}

/// True of the text a content setter accepts: representable in the encoding,
/// free of rejected control characters, and consistent with the terminator
/// convention.
pub open spec fn spec_content_ok(encoding: Encoding, line_ending: LineEnding, chars: Seq<char>) -> bool {
    &&& spec_encode(encoding, chars) is Some
    &&& forall|i: int| 0 <= i < chars.len() ==> !spec_is_rejected_control(#[trigger] chars[i])
    &&& spec_line_endings_ok(chars, line_ending)
}

impl Node {
    /// Checks a candidate text against the node's encoding, the control
    /// character rule and the terminator convention.
    fn validate_text(&self, text: &str) -> (r: Result<(), String>)
        ensures
            r is Ok <==> spec_content_ok(self.encoding, self.line_ending, text@),
    {
        let handler = EncodingHandler::new(self.encoding);
        match handler.encode(text) {
            Ok(_) => {},
            Err(_) => {
                return Err("content not representable in the node encoding".to_owned());
            },
        }
        match validate_control_characters(text) {
            Ok(_) => {},
            Err(_) => {
                return Err("content holds a raw control character".to_owned());
            },
        }
        match validate_line_endings(text, self.line_ending) {
            Ok(_) => {},
            Err(_) => {
                return Err("content disagrees with the node line ending".to_owned());
            },
        }
        Ok(())
    }

    /// Replaces the node's own content after validating it; on failure the
    /// node keeps its prior content.
    pub fn set_content(&mut self, new_content: String) -> (r: Result<(), String>)
        requires
            old(self).wf(),
            spec_total_length(*old(self)) - string_bytes(old(self).content).len() + string_bytes(
                new_content,
            ).len() <= usize::MAX,
        ensures
            r is Ok <==> spec_content_ok(old(self).encoding, old(self).line_ending, new_content@),
            r is Ok ==> final(self).wf() && final(self).content == new_content && final(self).length == string_bytes(new_content).len() && final(self).children == old(
                self,
            ).children && final(self).encoding == old(self).encoding && final(self).line_ending
                == old(self).line_ending && spec_total_length(*final(self)) == spec_total_length(
                *old(self),
            ) - string_bytes(old(self).content).len() + string_bytes(new_content).len(),
            r is Err ==> *final(self) == *old(self),
    {
        match self.validate_text(new_content.as_str()) {
            Ok(_) => {},
            Err(e) => {
                return Err(e);
            },
        }
        let new_length = new_content.as_str().as_bytes().len();
        proof {
            lemma_children_total_nonneg(self.children@);
        }
        self.content = new_content;
        self.length = new_length;
        Ok(())
    }

    /// Appends text to the node's own content through the validating setter.
    pub fn append_content(&mut self, additional_content: &str) -> (r: Result<(), String>)
        requires
            old(self).wf(),
            spec_total_length(*old(self)) + encode_utf8(additional_content@).len() <= usize::MAX,
        ensures
            r is Ok <==> spec_content_ok(
                old(self).encoding,
                old(self).line_ending,
                old(self).content@ + additional_content@,
            ),
            r is Ok ==> final(self).wf() && final(self).content@ == old(self).content@
                + additional_content@ && final(self).children == old(self).children && final(self).encoding == old(self).encoding && final(self).line_ending == old(self).line_ending,
            r is Err ==> *final(self) == *old(self),
    {
        proof {
            lemma_encode_utf8_concat(self.content@, additional_content@);
        }
        let mut combined = self.content.clone();
        combined.append(additional_content);
        self.set_content(combined)
    }

    /// The text of the byte range of the node's own content; an invalid or
    /// misaligned range reads as empty.
    pub fn stream_read(&self, range: Range<usize>) -> (r: String)
        requires
            self.wf(),
        ensures
            r@ == ({
                let bytes = string_bytes(self.content);
                if range.start <= range.end <= bytes.len() && is_char_boundary(
                    bytes,
                    range.start as int,
                ) && is_char_boundary(bytes, range.end as int) {
                    decode_utf8(bytes.subrange(range.start as int, range.end as int))
                } else {
                    Seq::<char>::empty()
                }
            }),
    {
        if range.start > range.end || range.end > self.length {
            return String::new();
        }
        if !self.content.as_str().is_char_boundary(range.start) || !self.content.as_str()
            .is_char_boundary(range.end) {
            return String::new();
        }
        let piece = substr_range(self.content.as_str(), range.start, range.end);
        piece.to_owned()
    }

    /// Replaces the byte range of the node's own content with new text,
    /// validating the result; on failure the node keeps its prior content.
    pub fn stream_write(&mut self, range: Range<usize>, new_content: String) -> (r: Result<
        (),
        String,
    >)
        requires
            old(self).wf(),
            spec_total_length(*old(self)) + string_bytes(new_content).len() <= usize::MAX,
        ensures
            r is Ok <==> ({
                let bytes = string_bytes(old(self).content);
                &&& range.start <= range.end <= bytes.len()
                &&& is_char_boundary(bytes, range.start as int)
                &&& is_char_boundary(bytes, range.end as int)
                &&& spec_content_ok(
                    old(self).encoding,
                    old(self).line_ending,
                    decode_utf8(bytes.subrange(0, range.start as int)) + new_content@
                        + decode_utf8(bytes.subrange(range.end as int, bytes.len() as int)),
                )
            }),
            r is Ok ==> final(self).wf() && final(self).content@ == decode_utf8(
                string_bytes(old(self).content).subrange(0, range.start as int),
            ) + new_content@ + decode_utf8(
                string_bytes(old(self).content).subrange(
                    range.end as int,
                    string_bytes(old(self).content).len() as int,
                ),
            ) && final(self).children == old(self).children && final(self).encoding == old(
                self,
            ).encoding && final(self).line_ending == old(self).line_ending,
            r is Err ==> *final(self) == *old(self),
    {
        if range.start > range.end || range.end > self.length {
            return Err("write range out of bounds".to_owned());
        }
        if !self.content.as_str().is_char_boundary(range.start) || !self.content.as_str()
            .is_char_boundary(range.end) {
            return Err("write range not on a character boundary".to_owned());
        }
        let pre = substr_range(self.content.as_str(), 0, range.start);
        let post = substr_range(self.content.as_str(), range.end, self.length);
        let mut spliced = String::new();
        spliced.append(pre);
        spliced.append(new_content.as_str());
        spliced.append(post);
        proof {
            lemma_encode_utf8_concat(pre@ + new_content@, post@);
            lemma_encode_utf8_concat(pre@, new_content@);
            assert(spliced@ =~= (pre@ + new_content@) + post@);
            crate::text::lemma_decode_char_prefix(self.content@, 0);
        }
        self.set_content(spliced)
    }

    /// The node whose span contains the byte offset: the node itself when the
    /// offset falls in its own content, otherwise the child found by walking
    /// the children in order. Fails exactly when the offset is at or past the
    /// total length.
    pub fn find_node(&self, index: usize) -> (r: Option<&Node>)
        requires
            self.wf(),
        ensures
            r is Some <==> index < spec_total_length(*self),
            r matches Some(n) ==> Some(*n) == spec_find(*self, index as int) && n.wf(),
        decreases *self,
    {
        proof {
            lemma_find_in_range(*self, index as int);
        }
        let total = self.total_length();
        if index >= total {
            return None;
        }
        if index < self.length {
            return Some(self);
        }
        let ghost kids = self.children@;
        let mut current: usize = index - self.length;
        let mut i: usize = 0;
        proof {
            assert(kids.skip(0) =~= kids);
            lemma_children_total_take(kids, 0);
            assert(kids.take(0) =~= Seq::<Node>::empty());
        }
        while i < self.children.len()
            invariant
                i <= kids.len(),
                kids == self.children@,
                self.wf(),
                current < spec_children_total(kids.skip(i as int)),
                spec_find_children(kids, index - string_bytes(self.content).len())
                    == spec_find_children(kids.skip(i as int), current as int),
                spec_find(*self, index as int) == spec_find_children(
                    kids.skip(i as int),
                    current as int,
                ),
            decreases kids.len() - i,
        {
            proof {
                assert(decreases_to!(*self => self.children));
                assert(kids[i as int].wf());
                assert(kids.skip(i as int)[0] == kids[i as int]);
                lemma_total_nonneg(kids[i as int]);
                lemma_children_total_nonneg(kids.skip(i + 1));
            }
            let child_length = self.children[i].total_length();
            if current < child_length {
                proof {
                    lemma_find_in_range(kids[i as int], current as int);
                }
                return self.children[i].find_node(current);
            }
            proof {
                assert(kids.skip(i as int).drop_first() =~= kids.skip(i + 1));
            }
            current = current - child_length;
            i = i + 1;
        }
        proof {
            assert(kids.skip(kids.len() as int) =~= Seq::<Node>::empty());
            assert(false);
        }
        None
    }

    /// Calls the action on this node and then on every node below it, in
    /// preorder.
    pub fn traverse<F: Fn(&Node)>(&self, action: &F)
        requires
            forall|n: &Node| #[trigger] action.requires((n,)),
        decreases *self,
    {
        action(self);
        let mut i: usize = 0;
        while i < self.children.len()
            invariant
                forall|n: &Node| #[trigger] action.requires((n,)),
            decreases self.children@.len() - i,
        {
            proof {
                assert(decreases_to!(*self => self.children));
            }
            self.children[i].traverse(action);
            i = i + 1;
        }
    }

    /// Cuts the node's own content at a byte offset, keeping the left part
    /// and returning the right part as a new leaf. Fails on the boundaries of
    /// the content, on an offset that cuts a character in half, and when the
    /// left part does not pass content validation; the node is then
    /// unchanged.
    pub fn split(&mut self, index: usize) -> (r: Option<Node>)
        requires
            old(self).wf(),
        ensures
            r is Some <==> ({
                let bytes = string_bytes(old(self).content);
                &&& 0 < index < old(self).length
                &&& is_char_boundary(bytes, index as int)
                &&& spec_content_ok(
                    old(self).encoding,
                    old(self).line_ending,
                    decode_utf8(bytes.subrange(0, index as int)),
                )
            }),
            r matches Some(right) ==> ({
                let bytes = string_bytes(old(self).content);
                &&& final(self).wf() && right.wf()
                &&& string_bytes(final(self).content) == bytes.subrange(0, index as int)
                &&& string_bytes(right.content) == bytes.subrange(index as int, bytes.len() as int)
                &&& right.children@.len() == 0
                &&& right.encoding == old(self).encoding && right.line_ending == old(
                    self,
                ).line_ending
                &&& final(self).children == old(self).children
                &&& final(self).encoding == old(self).encoding && final(self).line_ending == old(
                    self,
                ).line_ending
            }),
            r is None ==> *final(self) == *old(self),
    {
        if index == 0 || index >= self.length {
            return None;
        }
        if !self.content.as_str().is_char_boundary(index) {
            return None;
        }
        let left = substr_range(self.content.as_str(), 0, index);
        let right = substr_range(self.content.as_str(), index, self.length);
        let left_owned = left.to_owned();
        let right_owned = right.to_owned();
        proof {
            lemma_children_total_nonneg(self.children@);
        }
        match self.set_content(left_owned) {
            Ok(_) => Some(Node::new(right_owned, self.encoding, self.line_ending)),
            Err(_) => None,
        }
    }

    /// Concatenates another node's content onto this node's own content and
    /// reparents its children onto this node. Fails when the encoding or the
    /// terminator convention differ, and when the combined content does not
    /// pass validation; the node is then unchanged.
    pub fn merge(&mut self, other: Node) -> (r: Result<(), String>)
        requires
            old(self).wf(),
            other.wf(),
            spec_total_length(*old(self)) + spec_total_length(other) <= usize::MAX,
        ensures
            r is Ok <==> old(self).encoding == other.encoding && old(self).line_ending
                == other.line_ending && spec_content_ok(
                old(self).encoding,
                old(self).line_ending,
                old(self).content@ + other.content@,
            ),
            r is Ok ==> final(self).wf() && final(self).content@ == old(self).content@
                + other.content@ && final(self).children@ == old(self).children@ + other.children@
                && spec_total_length(*final(self)) == spec_total_length(*old(self))
                + spec_total_length(other),
            r is Err ==> *final(self) == *old(self),
    {
        if !(self.encoding == other.encoding) || !(self.line_ending == other.line_ending) {
            return Err("cannot merge nodes with different encoding or line endings".to_owned());
        }
        proof {
            lemma_encode_utf8_concat(self.content@, other.content@);
            lemma_children_total_nonneg(self.children@);
            lemma_children_total_nonneg(other.children@);
            lemma_total_nonneg(other);
        }
        let mut combined = self.content.clone();
        combined.append(other.content.as_str());
        match self.set_content(combined) {
            Ok(_) => {},
            Err(e) => {
                return Err(e);
            },
        }
        let mut other_children = other.children;
        proof {
            lemma_children_total_concat(self.children@, other_children@);
        }
        self.children.append(&mut other_children);
        Ok(())
    }

    /// Balances the children: each child is balanced first, and a node with
    /// more than four children then splits them in half, wrapping the right
    /// half in a new sibling appended to the children. A node with at most
    /// two children is left alone.
    pub fn balance(&mut self)
        requires
            old(self).wf(),
        ensures
            final(self).wf(),
            spec_total_length(*final(self)) == spec_total_length(*old(self)),
            spec_flat_text(*final(self)) == spec_flat_text(*old(self)),
            final(self).content == old(self).content,
            final(self).encoding == old(self).encoding,
            final(self).line_ending == old(self).line_ending,
            final(self).length == old(self).length,
            old(self).children@.len() <= 2 ==> *final(self) == *old(self),
            2 < old(self).children@.len() <= 4 ==> final(self).children@.len() == old(
                self,
            ).children@.len(),
            old(self).children@.len() > 4 ==> final(self).children@.len() == old(
                self,
            ).children@.len() / 2 + 1,
        decreases *old(self),
    {
        if self.children.len() <= 2 {
            return;
        }
        let ghost orig = self.children@;
        let mut i: usize = 0;
        while i < self.children.len()
            invariant
                i <= self.children@.len(),
                self.children@.len() == orig.len(),
                self.wf(),
                self.content == old(self).content,
                self.encoding == old(self).encoding,
                self.line_ending == old(self).line_ending,
                self.length == old(self).length,
                orig == old(self).children@,
                spec_children_total(self.children@) == spec_children_total(orig),
                forall|j: int| 0 <= j < i ==> spec_total_length(#[trigger] self.children@[j])
                    == spec_total_length(orig[j]) && spec_flat_text(self.children@[j])
                    == spec_flat_text(orig[j]),
                forall|j: int| i <= j < orig.len() ==> #[trigger] self.children@[j] == orig[j],
            decreases self.children@.len() - i,
        {
            let ghost before = self.children@;
            proof {
                assert(decreases_to!(*old(self) => old(self).children));
                assert(self.children@[i as int].wf());
                assert(spec_total_length(self.children@[i as int]) <= usize::MAX) by {
                    lemma_children_total_take(self.children@, i as int);
                    lemma_children_total_take(self.children@.skip(i as int), 1);
                    assert(self.children@.skip(i as int).take(1)[0] == self.children@[i as int]);
                    lemma_children_total_nonneg(self.children@.take(i as int));
                    lemma_children_total_nonneg(self.children@.skip(i as int).skip(1));
                    assert(spec_children_total(self.children@.skip(i as int).take(1))
                        == spec_total_length(self.children@[i as int])) by {
                        assert(self.children@.skip(i as int).take(1).drop_first() =~= Seq::<
                            Node,
                        >::empty());
                    }
                }
            }
            self.children[i].balance();
            proof {
                lemma_children_total_pointwise(self.children@, before);
            }
            i = i + 1;
        }
        proof {
            lemma_children_flat_pointwise(self.children@, orig);
        }
        if self.children.len() > 4 {
            let ghost balanced = self.children@;
            let mid = self.children.len() / 2;
            let right_children = self.children.split_off(mid);
            let mut right_node = Node::new(String::new(), self.encoding, self.line_ending);
            proof {
                crate::text::lemma_encode_utf8_len_zero(Seq::<char>::empty());
                lemma_children_total_take(balanced, mid as int);
                lemma_children_total_nonneg(balanced.take(mid as int));
                lemma_children_total_nonneg(balanced.skip(mid as int));
                assert(right_children@ =~= balanced.skip(mid as int));
                assert(self.children@ =~= balanced.take(mid as int));
            }
            right_node.children = right_children;
            proof {
                assert(right_node.length == string_bytes(right_node.content).len());
                assert forall|j: int| 0 <= j < right_node.children@.len() implies (
                #[trigger] right_node.children@[j]).wf() by {
                    assert(right_node.children@[j] == balanced[mid + j]);
                }
                assert(spec_total_length(right_node) == spec_children_total(
                    balanced.skip(mid as int),
                ));
                assert(right_node.wf());
                lemma_children_total_push(self.children@, right_node);
                lemma_children_flat_concat(balanced.take(mid as int), balanced.skip(mid as int));
                assert(balanced.take(mid as int) + balanced.skip(mid as int) =~= balanced);
            }
            self.children.push(right_node);
            proof {
                assert(self.children@.drop_last() =~= balanced.take(mid as int));
                lemma_children_flat_push_last(balanced.take(mid as int), self.children@.last());
                assert forall|j: int| 0 <= j < self.children@.len() implies (
                #[trigger] self.children@[j]).wf() by {
                    if j < mid {
                        assert(self.children@[j] == balanced[j]);
                    } else {
                        assert(self.children@[j] == self.children@.last());
                    }
                }
            }
        }
    }

    /// Drops empty children, and collapses a node that has exactly one
    /// remaining child and no own content into that child.
    pub fn compact(&mut self)
        requires
            old(self).wf(),
        ensures
            final(self).wf(),
            spec_total_length(*final(self)) == spec_total_length(*old(self)),
            ({
                let kept = old(self).children@.filter(spec_keep_child());
                if old(self).length == 0 && kept.len() == 1 {
                    *final(self) == kept[0]
                } else {
                    final(self).children@ == kept && final(self).content == old(self).content
                        && final(self).encoding == old(self).encoding && final(self).line_ending
                        == old(self).line_ending && final(self).length == old(self).length
                }
            }),
    {
        let ghost orig = self.children@;
        let ghost pred = spec_keep_child();
        let total_children = self.children.len();
        proof {
            assert(orig.len() == total_children);
        }
        let mut old_children: Vec<Node> = Vec::new();
        core::mem::swap(&mut self.children, &mut old_children);
        let mut kept: Vec<Node> = Vec::new();
        let mut i: usize = 0;
        proof {
            reveal(Seq::filter);
            assert(orig.take(0) =~= Seq::<Node>::empty());
            assert(orig.take(0).filter(pred) =~= Seq::<Node>::empty());
            lemma_children_total_nonneg(orig);
        }
        while old_children.len() > 0
            invariant
                i <= orig.len(),
                orig.len() <= usize::MAX,
                i + old_children@.len() == orig.len(),
                old_children@ == orig.skip(i as int),
                pred == spec_keep_child(),
                forall|j: int| 0 <= j < orig.len() ==> (#[trigger] orig[j]).wf(),
                kept@ == orig.take(i as int).filter(pred),
                forall|j: int| 0 <= j < kept@.len() ==> (#[trigger] kept@[j]).wf(),
                spec_children_total(kept@) == spec_children_total(orig.take(i as int)),
            decreases orig.len() - i,
        {
            proof {
                reveal(Seq::filter);
                assert(orig.take(i + 1).drop_last() =~= orig.take(i as int));
                assert(orig.take(i + 1).last() == orig[i as int]);
                lemma_children_total_push(kept@, orig[i as int]);
                lemma_children_total_push(orig.take(i as int), orig[i as int]);
                assert(orig.take(i + 1) =~= orig.take(i as int).push(orig[i as int]));
                assert(orig[i as int].wf());
                if orig[i as int].length == 0 && orig[i as int].children@.len() == 0 {
                    assert(spec_total_length(orig[i as int]) == 0) by {
                        crate::text::lemma_encode_utf8_len_zero(orig[i as int].content@);
                        assert(spec_children_total(orig[i as int].children@) == 0);
                    }
                }
            }
            proof {
                assert(old_children@[0] == orig[i as int]);
            }
            let c = old_children.remove(0);
            proof {
                assert(old_children@ =~= orig.skip(i + 1));
            }
            if !(c.length == 0 && c.children.len() == 0) {
                kept.push(c);
            }
            i = i + 1;
        }
        proof {
            assert(orig.take(orig.len() as int) =~= orig);
            assert(orig.skip(0) =~= orig);
        }
        self.children = kept;
        if self.children.len() == 1 && self.length == 0 {
            let ghost kept_seq = self.children@;
            proof {
                lemma_children_total_drop_last(kept_seq);
                assert(kept_seq.drop_last() =~= Seq::<Node>::empty());
            }
            let child = self.children.remove(0);
            proof {
                assert(child == kept_seq[0]);
            }
            *self = child;
        }
    }
}

proof fn lemma_children_flat_push_last(s: Seq<Node>, n: Node)
    ensures
        spec_children_flat(s.push(n)) == spec_children_flat(s) + spec_flat_text(n),
    decreases s.len(),
{
    if s.len() == 0 {
        assert(s.push(n).drop_first() =~= s);
        assert(spec_children_flat(s.push(n)) =~= spec_children_flat(s) + spec_flat_text(n));
    } else {
        assert(s.push(n).drop_first() =~= s.drop_first().push(n));
        lemma_children_flat_push_last(s.drop_first(), n);
        assert(spec_children_flat(s.push(n)) =~= spec_children_flat(s) + spec_flat_text(n));
    }
}

} // verus!
