//! What a search is to find: the places at which a pattern occurs in a content.

use vstd::prelude::*;
use vstd::seq_lib::lemma_seq_contains_after_push;

verus! {

/// Whether `pattern` occurs in `content` at `start`: the window of the
/// pattern's length that begins there lies within the content and equals
/// the pattern.
pub open spec fn occurs_at(pattern: Seq<u8>, content: Seq<u8>, start: int) -> bool {
    &&& 0 <= start
    &&& start + pattern.len() <= content.len()
    &&& content.subrange(start, start + pattern.len()) == pattern
}

/// The starts from `lo` up to, but not including, `hi` at which `pattern`
/// occurs in `content`, in ascending order.
pub open spec fn occurrences_in(pattern: Seq<u8>, content: Seq<u8>, lo: int, hi: int) -> Seq<int>
    decreases hi - lo,
{
    if hi <= lo {
        Seq::empty()
    } else if occurs_at(pattern, content, hi - 1) {
        occurrences_in(pattern, content, lo, hi - 1).push(hi - 1)
    } else {
        occurrences_in(pattern, content, lo, hi - 1)
    }
}

/// Every start at which `pattern` occurs in `content`, in ascending order,
/// occurrences that overlap included. An empty pattern occurs nowhere.
pub open spec fn occurrences(pattern: Seq<u8>, content: Seq<u8>) -> Seq<int> {
    if pattern.len() == 0 {
        Seq::empty()
    } else {
        occurrences_in(pattern, content, 0, content.len() as int)
    }
}

/// An occurrence agrees with the pattern byte by byte, and the other way round.
pub proof fn lemma_occurs_at_bytewise(pattern: Seq<u8>, content: Seq<u8>, start: int)
    requires
        0 <= start,
        start + pattern.len() <= content.len(),
    ensures
        occurs_at(pattern, content, start) <==> (forall|j: int|
            0 <= j < pattern.len() ==> content[start + j] == #[trigger] pattern[j]),
{
    let window = content.subrange(start, start + pattern.len());
    if window == pattern {
        assert forall|j: int| 0 <= j < pattern.len() implies content[start + j]
            == #[trigger] pattern[j] by {
            assert(window[j] == content[start + j]);
        }
    }
    if forall|j: int| 0 <= j < pattern.len() ==> content[start + j] == #[trigger] pattern[j] {
        assert(window =~= pattern);
    }
}

/// `occurrences_in` holds exactly the starts of its range at which the
/// pattern occurs, each of them once, and in strictly ascending order.
pub proof fn lemma_occurrences_in_exact(pattern: Seq<u8>, content: Seq<u8>, lo: int, hi: int)
    ensures
        forall|start: int|
            #[trigger] occurrences_in(pattern, content, lo, hi).contains(start) <==> (lo <= start
                < hi && occurs_at(pattern, content, start)),
        forall|j: int, k: int|
            0 <= j < k < occurrences_in(pattern, content, lo, hi).len() ==> occurrences_in(
                pattern,
                content,
                lo,
                hi,
            )[j] < occurrences_in(pattern, content, lo, hi)[k],
    decreases hi - lo,
{
    broadcast use lemma_seq_contains_after_push;

    if lo < hi {
        lemma_occurrences_in_exact(pattern, content, lo, hi - 1);
        let found = occurrences_in(pattern, content, lo, hi);
        let before = occurrences_in(pattern, content, lo, hi - 1);
        assert forall|j: int, k: int| 0 <= j < k < found.len() implies found[j] < found[k] by {
            // What stands before the last start was found below it.
            assert(before.contains(before[j]));
        }
    }
}

/// A range can be searched in two parts.
pub proof fn lemma_occurrences_in_split(
    pattern: Seq<u8>,
    content: Seq<u8>,
    lo: int,
    mid: int,
    hi: int,
)
    requires
        lo <= mid <= hi,
    ensures
        occurrences_in(pattern, content, lo, hi) == occurrences_in(pattern, content, lo, mid)
            + occurrences_in(pattern, content, mid, hi),
    decreases hi - mid,
{
    if mid < hi {
        lemma_occurrences_in_split(pattern, content, lo, mid, hi - 1);
    }
}

/// No occurrence starts so late that the pattern would pass the end of the content.
pub proof fn lemma_no_occurrence_past_end(pattern: Seq<u8>, content: Seq<u8>, lo: int, hi: int)
    requires
        lo + pattern.len() > content.len(),
    ensures
        occurrences_in(pattern, content, lo, hi) == Seq::<int>::empty(),
    decreases hi - lo,
{
    if lo < hi {
        lemma_no_occurrence_past_end(pattern, content, lo, hi - 1);
    }
}

/// `occurrences` holds exactly the starts at which a pattern that is not
/// empty occurs, each of them once, and in strictly ascending order.
pub proof fn lemma_occurrences_exact(pattern: Seq<u8>, content: Seq<u8>)
    ensures
        forall|start: int|
            #[trigger] occurrences(pattern, content).contains(start) <==> (pattern.len() > 0
                && occurs_at(pattern, content, start)),
        forall|j: int, k: int|
            0 <= j < k < occurrences(pattern, content).len() ==> occurrences(pattern, content)[j]
                < occurrences(pattern, content)[k],
{
    if pattern.len() > 0 {
        lemma_occurrences_in_exact(pattern, content, 0, content.len() as int);
    }
}

/// A pattern that is longer than the content occurs nowhere in it.
pub proof fn lemma_longer_pattern_has_no_occurrence(pattern: Seq<u8>, content: Seq<u8>)
    requires
        pattern.len() > content.len(),
    ensures
        occurrences(pattern, content) == Seq::<int>::empty(),
{
    lemma_no_occurrence_past_end(pattern, content, 0, content.len() as int);
}

} // verus!
