//! The occurrence index: for each byte value, where it stands in a text.

use vstd::prelude::*;
use vstd::seq_lib::lemma_seq_contains_after_push;

verus! {

/// The positions at which `byte` stands in `text`, in ascending order.
pub open spec fn positions_of(text: Seq<u8>, byte: u8) -> Seq<int>
    decreases text.len(),
{
    if text.len() == 0 {
        Seq::empty()
    } else if text.last() == byte {
        positions_of(text.drop_last(), byte).push(text.len() - 1)
    } else {
        positions_of(text.drop_last(), byte)
    }
}

/// A sequence of recorded positions, read as mathematical integers.
pub open spec fn as_ints(positions: Seq<usize>) -> Seq<int> {
    Seq::new(positions.len(), |k: int| positions[k] as int)
}

/// `positions_of(text, byte)` holds exactly the positions of `text` that
/// carry `byte`, each of them once, and in strictly ascending order.
pub proof fn lemma_positions_of_exact(text: Seq<u8>, byte: u8)
    ensures
        forall|p: int|
            #[trigger] positions_of(text, byte).contains(p) <==> (0 <= p < text.len() && text[p]
                == byte),
        forall|j: int, k: int|
            0 <= j < k < positions_of(text, byte).len() ==> positions_of(text, byte)[j]
                < positions_of(text, byte)[k],
    decreases text.len(),
{
    broadcast use lemma_seq_contains_after_push;

    if text.len() > 0 {
        lemma_positions_of_exact(text.drop_last(), byte);
        let found = positions_of(text, byte);
        let before = positions_of(text.drop_last(), byte);
        assert forall|j: int, k: int| 0 <= j < k < found.len() implies found[j] < found[k] by {
            // What stands before the last position was found below it.
            assert(before.contains(before[j]));
        }
    }
}

/// A byte has recorded positions exactly when it stands somewhere in the text.
pub proof fn lemma_positions_of_nonempty(text: Seq<u8>, byte: u8)
    ensures
        positions_of(text, byte).len() > 0 <==> text.contains(byte),
{
    lemma_positions_of_exact(text, byte);
    let found = positions_of(text, byte);
    if found.len() > 0 {
        assert(found.contains(found[0]));
    }
    if text.contains(byte) {
        let p = choose|p: int| 0 <= p < text.len() && text[p] == byte;
        assert(found.contains(p));
    }
}

/// The positions recorded for one byte value. A byte that was never
/// recorded has no buffer at all.
struct OccurenceVec {
    buffer: Option<Vec<usize>>,
}

impl View for OccurenceVec {
    type V = Seq<usize>;

    closed spec fn view(&self) -> Seq<usize> {
        match self.buffer {
            Some(v) => v@,
            None => Seq::empty(),
        }
    }
}

impl OccurenceVec {
    /// Whether the entry has a buffer, that is, whether anything was recorded.
    closed spec fn recorded(&self) -> bool {
        self.buffer is Some
    }

    /// An entry with nothing recorded.
    fn new() -> (fresh: Self)
        ensures
            fresh@ == Seq::<usize>::empty(),
            !fresh.recorded(),
    {
        Self { buffer: None }
    }

    /// Records `position` behind those that are there.
    fn add_position(&mut self, position: usize)
        ensures
            final(self)@ == old(self)@.push(position),
            final(self).recorded(),
    {
        if let Some(v) = &mut self.buffer {
            v.push(position);
        } else {
            self.buffer = Some(vec![position]);
        }
    }

    /// Whether anything was recorded.
    fn is_recorded(&self) -> (recorded: bool)
        ensures
            recorded == self.recorded(),
    {
        self.buffer.is_some()
    }
}

/// The occurrence index of a text: a table with one entry for each of the
/// 256 byte values, which holds the positions of that byte in the text.
pub struct CharLookup {
    char_lkup: Vec<OccurenceVec>,
    nothing: Vec<usize>,
    text: Ghost<Seq<u8>>,
}

impl View for CharLookup {
    type V = Seq<u8>;

    /// The text that was indexed.
    closed spec fn view(&self) -> Seq<u8> {
        self.text@
    }
}

/// Whether `entry` is the entry that an index of `text` holds for `byte`:
/// it holds the positions of `byte`, and has a buffer only where there
/// are any.
spec fn is_entry_of(entry: OccurenceVec, text: Seq<u8>, byte: u8) -> bool {
    &&& as_ints(entry@) == positions_of(text, byte)
    &&& entry.recorded() <==> entry@.len() > 0
}

/// Whether `table` is the table of the index of `text`.
spec fn is_table_of(table: Seq<OccurenceVec>, text: Seq<u8>) -> bool {
    &&& table.len() == 256
    &&& forall|byte: u8| is_entry_of(#[trigger] table[byte as int], text, byte)
}

impl CharLookup {
    #[verifier::type_invariant]
    spec fn well_formed(&self) -> bool {
        &&& is_table_of(self.char_lkup@, self.text@)
        &&& self.nothing@.len() == 0
    }

    /// Indexes `text`.
    pub fn from(text: &[u8]) -> (lkup: Self)
        ensures
            lkup@ == text@,
    {
        let mut lkup: Vec<OccurenceVec> = Vec::new();
        while lkup.len() < 256
            invariant
                lkup@.len() <= 256,
                forall|byte: int|
                    0 <= byte < lkup@.len() ==> is_entry_of(
                        #[trigger] lkup@[byte],
                        Seq::empty(),
                        byte as u8,
                    ),
            decreases 256 - lkup@.len(),
        {
            lkup.push(OccurenceVec::new());
            assert(as_ints(lkup@.last()@) == Seq::<int>::empty());
        }
        for i in 0..text.len()
            invariant
                is_table_of(lkup@, text@.take(i as int)),
        {
            let ch = text[i];
            let ghost before = lkup@;
            lkup[ch as usize].add_position(i);
            proof {
                let grown = text@.take(i + 1);
                assert(grown.drop_last() == text@.take(i as int));
                assert forall|byte: u8| is_entry_of(#[trigger] lkup@[byte as int], grown, byte) by {
                    if byte == ch {
                        assert(as_ints(lkup@[byte as int]@) == as_ints(before[byte as int]@).push(
                            i as int,
                        ));
                    }
                }
            }
        }
        assert(text@.take(text@.len() as int) == text@);
        Self { char_lkup: lkup, nothing: Vec::new(), text: Ghost(text@) }
    }

    /// Whether `ch` stands anywhere in the indexed text.
    pub fn contains(&self, ch: u8) -> (found: bool)
        ensures
            found == self@.contains(ch),
    {
        proof {
            use_type_invariant(self);
            lemma_positions_of_nonempty(self@, ch);
        }
        self.char_lkup[ch as usize].is_recorded()
    }

    /// The positions of `ch` in the indexed text, in ascending order;
    /// none where `ch` does not stand in it.
    pub fn get_positions<'a>(&'a self, ch: u8) -> (positions: &'a Vec<usize>)
        ensures
            as_ints(positions@) == positions_of(self@, ch),
    {
        proof {
            use_type_invariant(self);
        }
        match &self.char_lkup[ch as usize].buffer {
            Some(recorded) => recorded,
            None => &self.nothing,
        }
    }
}

} // verus!
