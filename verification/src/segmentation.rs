//! Word segmentation for text whose terminator convention is unknown.

use vstd::prelude::*;
use unicode_segmentation::UnicodeSegmentation;
use crate::text::{spec_is_whitespace, is_whitespace_char};
use vstd::string::StrSliceExecFns;

verus! {

/// The UAX 29 word segments of a text.
pub uninterp spec fn word_bounds_of(s: Seq<char>) -> Seq<Seq<char>>;

/// Relies on unicode-segmentation's `split_word_bounds`: splits the text on
/// UAX 29 word boundaries; the concatenation of the segments is the original
/// text.
#[verifier::external_body]
fn split_word_bounds<'a>(s: &'a str) -> (r: Vec<&'a str>)
    ensures
        r@.len() == word_bounds_of(s@).len(),
        forall|i: int| 0 <= i < r@.len() ==> (#[trigger] r@[i])@ == word_bounds_of(s@)[i],
        r.deep_view().flatten() == s@,
{
    s.split_word_bounds().collect()
}

/// True when some character of the text is not whitespace.
fn has_non_whitespace(s: &str) -> (r: bool)
    ensures
        r == exists|j: int| 0 <= j < s@.len() && !spec_is_whitespace(s@[j]),
{
    let n = s.unicode_len();
    let mut i: usize = 0;
    while i < n
        invariant
            i <= n,
            n == s@.len(),
            forall|j: int| 0 <= j < i ==> spec_is_whitespace(s@[j]),
        decreases n - i,
    {
        if !is_whitespace_char(s.get_char(i)) {
            return true;
        }
        i = i + 1;
    }
    false
}

/// The word segments of the text that hold more than whitespace.
pub fn non_blank_word_bounds<'a>(text: &'a str) -> (r: Vec<&'a str>)
    ensures
        ({
            let kept = word_bounds_of(text@).filter(
                |p: Seq<char>| exists|j: int| 0 <= j < p.len() && !spec_is_whitespace(p[j]),
            );
            r@.len() == kept.len() && forall|i: int|
                0 <= i < r@.len() ==> (#[trigger] r@[i])@ == kept[i]
        }),
{
    let ghost pred = |p: Seq<char>| exists|j: int| 0 <= j < p.len() && !spec_is_whitespace(p[j]);
    let ghost all = word_bounds_of(text@);
    let segments = split_word_bounds(text);
    let mut out: Vec<&'a str> = Vec::new();
    let mut i: usize = 0;
    proof {
        reveal(Seq::filter);
        assert(all.take(0) =~= Seq::<Seq<char>>::empty());
        assert(all.take(0).filter(pred) =~= Seq::<Seq<char>>::empty());
    }
    while i < segments.len()
        invariant
            i <= segments@.len(),
            segments@.len() == all.len(),
            forall|k: int| 0 <= k < segments@.len() ==> (#[trigger] segments@[k])@ == all[k],
            all == word_bounds_of(text@),
            pred == (|p: Seq<char>| exists|j: int| 0 <= j < p.len() && !spec_is_whitespace(p[j])),
            out@.len() == all.take(i as int).filter(pred).len(),
            forall|k: int| 0 <= k < out@.len() ==> (#[trigger] out@[k])@ == all.take(
                i as int,
            ).filter(pred)[k],
        decreases segments@.len() - i,
    {
        let seg = segments[i];
        let keep = has_non_whitespace(seg);
        proof {
            reveal(Seq::filter);
            assert(all.take(i + 1).drop_last() =~= all.take(i as int));
            assert(all.take(i + 1).last() == all[i as int]);
            assert(keep == pred(all[i as int]));
        }
        if keep {
            out.push(seg);
        }
        i = i + 1;
    }
    proof {
        assert(all.take(all.len() as int) =~= all);
    }
    out
}

} // verus!
