//! What the indexed search reports, and why that is every occurrence.
//!
//! The indexed search cuts the content into blocks of the pattern's
//! length and reads one byte of each: the last one, at the cursor. An
//! occurrence that starts in a block covers that block's cursor, so the
//! byte there is one of the pattern's bytes, and the occurrence starts
//! as far before the cursor as that byte stands behind the pattern's
//! start. The index gives those distances, and the search tries each.

use vstd::prelude::*;
use super::char_lookup::positions_of;
use super::occurrences::{
    lemma_no_occurrence_past_end, lemma_occurrences_in_split, lemma_occurs_at_bytewise,
    occurrences, occurrences_in, occurs_at,
};

verus! {

/// The starts that are reported from one cursor for the pattern offsets
/// `offsets`, taken from the last to the first: an offset stands for the
/// start that lies that far before the cursor, and the start is reported
/// where the pattern occurs at it.
pub open spec fn confirmed_starts(
    pattern: Seq<u8>,
    content: Seq<u8>,
    cursor: int,
    offsets: Seq<int>,
) -> Seq<int>
    decreases offsets.len(),
{
    if offsets.len() == 0 {
        Seq::empty()
    } else {
        let start = cursor - offsets.last();
        let later = confirmed_starts(pattern, content, cursor, offsets.drop_last());
        if occurs_at(pattern, content, start) {
            seq![start] + later
        } else {
            later
        }
    }
}

/// The starts that are reported from one cursor: those that the offsets
/// of the byte at the cursor stand for, the highest offset first.
pub open spec fn hits_at(pattern: Seq<u8>, content: Seq<u8>, cursor: int) -> Seq<int> {
    confirmed_starts(pattern, content, cursor, positions_of(pattern, content[cursor]))
}

/// The starts that are reported from `cursor` on, the cursor moving on
/// by the pattern's length until it leaves the content.
pub open spec fn scan_from(pattern: Seq<u8>, content: Seq<u8>, cursor: int) -> Seq<int>
    decreases content.len() + pattern.len() - cursor,
{
    if pattern.len() == 0 || cursor < 0 || cursor >= content.len() {
        Seq::empty()
    } else {
        hits_at(pattern, content, cursor) + scan_from(pattern, content, cursor + pattern.len())
    }
}

/// The starts that the block scan reports, in the order in which it finds
/// them: the first cursor is the last byte of the first block. An empty
/// pattern is not searched for.
pub open spec fn block_scan(pattern: Seq<u8>, content: Seq<u8>) -> Seq<int> {
    scan_from(pattern, content, pattern.len() - 1)
}

/// From the offsets of the cursor's byte among the first `prefix` bytes
/// of the pattern, the scan reports the occurrences that start less than
/// `prefix` bytes before the cursor, or at it.
proof fn lemma_hits_of_prefix(pattern: Seq<u8>, content: Seq<u8>, cursor: int, prefix: int)
    requires
        0 <= prefix <= pattern.len(),
        pattern.len() - 1 <= cursor < content.len(),
    ensures
        confirmed_starts(
            pattern,
            content,
            cursor,
            positions_of(pattern.take(prefix), content[cursor]),
        ) == occurrences_in(pattern, content, cursor - prefix + 1, cursor + 1),
    decreases prefix,
{
    if prefix > 0 {
        let offset = prefix - 1;
        let start = cursor - offset;
        let offsets = positions_of(pattern.take(prefix), content[cursor]);
        let fewer = positions_of(pattern.take(offset), content[cursor]);
        assert(pattern.take(prefix).drop_last() == pattern.take(offset));
        lemma_hits_of_prefix(pattern, content, cursor, offset);
        lemma_occurrences_in_split(pattern, content, start, start + 1, cursor + 1);
        assert(occurrences_in(pattern, content, start, start) == Seq::<int>::empty());
        if pattern[offset] == content[cursor] {
            assert(offsets.drop_last() == fewer);
        } else if start + pattern.len() <= content.len() {
            // The pattern does not occur at `start`: it would have this
            // offset at the cursor.
            lemma_occurs_at_bytewise(pattern, content, start);
        }
    }
}

/// From one cursor the scan reports exactly the occurrences that start in
/// the cursor's block.
pub proof fn lemma_hits_at_are_block_occurrences(pattern: Seq<u8>, content: Seq<u8>, cursor: int)
    requires
        pattern.len() > 0,
        pattern.len() - 1 <= cursor < content.len(),
    ensures
        hits_at(pattern, content, cursor) == occurrences_in(
            pattern,
            content,
            cursor - pattern.len() + 1,
            cursor + 1,
        ),
{
    assert(pattern.take(pattern.len() as int) == pattern);
    lemma_hits_of_prefix(pattern, content, cursor, pattern.len() as int);
}

/// From a cursor on the scan reports exactly the occurrences that start
/// in the cursor's block or behind it.
pub proof fn lemma_scan_from_is_exhaustive(pattern: Seq<u8>, content: Seq<u8>, cursor: int)
    requires
        pattern.len() > 0,
        pattern.len() - 1 <= cursor,
    ensures
        scan_from(pattern, content, cursor) == occurrences_in(
            pattern,
            content,
            cursor - pattern.len() + 1,
            content.len() as int,
        ),
    decreases content.len() + pattern.len() - cursor,
{
    let block = cursor - pattern.len() + 1;
    if cursor < content.len() {
        lemma_hits_at_are_block_occurrences(pattern, content, cursor);
        lemma_scan_from_is_exhaustive(pattern, content, cursor + pattern.len());
        lemma_occurrences_in_split(pattern, content, block, cursor + 1, content.len() as int);
    } else {
        lemma_no_occurrence_past_end(pattern, content, block, content.len() as int);
    }
}

/// The block scan misses nothing and reports nothing twice: for every
/// pattern and every content it reports the occurrences of the pattern in
/// the content, all of them, in ascending order.
pub proof fn lemma_block_scan_is_exhaustive(pattern: Seq<u8>, content: Seq<u8>)
    ensures
        block_scan(pattern, content) == occurrences(pattern, content),
{
    if pattern.len() > 0 {
        lemma_scan_from_is_exhaustive(pattern, content, pattern.len() - 1);
    }
}

} // verus!
