//! Word-boundary segmentation of a cover message, as defined by UAX #29.
//! The segmentation itself comes from an outside crate; this module gives
//! its result a name and records the one fact the contracts need: the
//! segments concatenate back to the original string.

use unicode_segmentation::UnicodeSegmentation;
use vstd::prelude::*;

verus! {

/// The UAX #29 word-boundary segments of a string: maximal runs between two
/// word boundaries, in order. The segmentation depends on the characters alone.
pub uninterp spec fn word_segments(s: Seq<char>) -> Seq<Seq<char>>;

/// The flat concatenation of a sequence of segments.
pub open spec fn concat_segs(segs: Seq<Seq<char>>) -> Seq<char>
    decreases segs.len(),
{
    if segs.len() == 0 {
        Seq::empty()
    } else {
        concat_segs(segs.drop_last()) + segs.last()
    }
}

/// Relies on unicode_segmentation's UnicodeSegmentation::split_word_bounds:
/// it splits a string at UAX #29 word boundaries, and the concatenation of
/// the returned substrings is the original string.
#[verifier::external_body]
pub(crate) fn split_word_bounds(s: &str) -> (r: Vec<String>)
    ensures
        r@.map_values(|t: String| t@) == word_segments(s@),
        concat_segs(r@.map_values(|t: String| t@)) == s@,
{
    s.split_word_bounds().map(|w| w.to_string()).collect()
}

/// Every character of every segment is a character of the concatenation, so a
/// predicate that holds of every character of the whole string holds inside
/// each segment; stated here for the one predicate the laws need.
pub proof fn lemma_segments_none_invisible(segs: Seq<Seq<char>>)
    requires
        crate::codec::none_invisible(concat_segs(segs)),
    ensures
        forall|i: int|
            0 <= i < segs.len() ==> crate::codec::none_invisible(#[trigger] segs[i]),
    decreases segs.len(),
{
    if segs.len() > 0 {
        let whole = concat_segs(segs);
        let front = concat_segs(segs.drop_last());
        assert forall|j: int| 0 <= j < front.len() implies !crate::codec::invisible(
            front[j],
        ) by {
            assert(whole[j] == front[j]);
        }
        lemma_segments_none_invisible(segs.drop_last());
        assert forall|j: int| 0 <= j < segs.last().len() implies !crate::codec::invisible(
            segs.last()[j],
        ) by {
            assert(whole[front.len() + j] == segs.last()[j]);
        }
        assert forall|i: int| 0 <= i < segs.len() implies crate::codec::none_invisible(
            #[trigger] segs[i],
        ) by {
            if i < segs.len() - 1 {
                assert(segs.drop_last()[i] == segs[i]);
            } else {
                assert(segs[i] == segs.last());
            }
        }
    }
}

} // verus!
