//! The matcher: a fixed pattern, searched for in any number of contents.

use vstd::prelude::*;
use vstd::slice::slice_to_vec;
use vstd::utf8::encode_utf8;

pub mod block_scan;
pub mod char_lookup;
pub mod occurrences;

use self::block_scan::{
    block_scan, hits_at, lemma_block_scan_is_exhaustive, scan_from, confirmed_starts,
};
use self::char_lookup::{
    as_ints, lemma_positions_of_exact, lemma_positions_of_nonempty, positions_of, CharLookup,
};
use self::occurrences::{
    lemma_longer_pattern_has_no_occurrence, lemma_no_occurrence_past_end,
    lemma_occurrences_in_split, lemma_occurs_at_bytewise, occurrences, occurrences_in, occurs_at,
};

verus! {

/// One occurrence of the pattern: the byte offset in the content at which it starts.
#[derive(PartialEq, Debug)]
pub struct Match {
    pub position: usize,
}

/// The starts that a sequence of matches reports.
pub open spec fn match_positions(matches: Seq<Match>) -> Seq<int> {
    Seq::new(matches.len(), |k: int| matches[k].position as int)
}

/// The starts that the matches found from one cursor report; none
/// where nothing was found there.
spec fn reported(found: Option<Vec<Match>>) -> Seq<int> {
    match found {
        Some(matches) => match_positions(matches@),
        None => Seq::empty(),
    }
}

/// The lowercase form of a text, as `str::to_lowercase` defines it.
pub uninterp spec fn lowercase(text: Seq<char>) -> Seq<char>;

/// `str::to_lowercase` maps every character by the Unicode lowercase
/// tables that are built into the standard library, so its result
/// depends on the characters of the text alone. The contract gives that
/// result the name [`lowercase`] and claims nothing more of it.
pub assume_specification[ str::to_lowercase ](text: &str) -> (lower: String)
    ensures
        lower@ == lowercase(text@),
;

/// The bytes that a matcher works on in place of a text: the text's
/// UTF-8 bytes, those of its lowercase form where case is ignored.
pub open spec fn normalized(text: Seq<char>, case_sensitive: bool) -> Seq<u8> {
    if case_sensitive {
        encode_utf8(text)
    } else {
        encode_utf8(lowercase(text))
    }
}

/// Ignoring case is searching in lowercase: for a pattern and a content,
/// what is found where case does not count is what is found, case
/// counting, for the lowercase pattern in the lowercase content.
pub proof fn lemma_ignoring_case_is_searching_lowercase(pattern: Seq<char>, content: Seq<char>)
    ensures
        occurrences(normalized(pattern, false), normalized(content, false)) == occurrences(
            normalized(lowercase(pattern), true),
            normalized(lowercase(content), true),
        ),
        block_scan(normalized(pattern, false), normalized(content, false)) == block_scan(
            normalized(lowercase(pattern), true),
            normalized(lowercase(content), true),
        ),
{
}

/// The lowercase form of `text` where `condition` holds, nothing otherwise.
fn get_lowercase_string_if(condition: bool, text: &str) -> (lower: Option<String>)
    ensures
        condition ==> lower.is_some() && lower.unwrap()@ == lowercase(text@),
        !condition ==> lower.is_none(),
{
    if condition {
        Some(text.to_lowercase())
    } else {
        None
    }
}

/// Collects what a matcher is made of: the pattern, and whether case counts.
pub struct SearchBuilder {
    pattern: String,
    case_sensitive: bool,
}

impl SearchBuilder {
    /// The pattern that was handed in.
    pub closed spec fn spec_pattern(&self) -> Seq<char> {
        self.pattern@
    }

    /// Whether the matcher will tell upper case from lower case.
    pub closed spec fn spec_case_sensitive(&self) -> bool {
        self.case_sensitive
    }

    /// Starts from `pattern`, with case counting.
    pub fn from_pattern(pattern: &str) -> (builder: Self)
        ensures
            builder.spec_pattern() == pattern@,
            builder.spec_case_sensitive(),
    {
        Self { pattern: pattern.to_owned(), case_sensitive: true }
    }

    /// Sets whether case counts.
    pub fn case_sensitive(self, case_sensitive: bool) -> (builder: Self)
        ensures
            builder.spec_pattern() == self.spec_pattern(),
            builder.spec_case_sensitive() == case_sensitive,
    {
        Self { pattern: self.pattern, case_sensitive }
    }

    /// Makes the matcher.
    pub fn build(self) -> (searcher: Searcher)
        ensures
            searcher.spec_pattern() == normalized(self.spec_pattern(), self.spec_case_sensitive()),
            searcher.spec_case_sensitive() == self.spec_case_sensitive(),
    {
        Searcher::create(self.pattern, self.case_sensitive)
    }
}

/// A pattern in the form in which it is compared, with the index of its bytes.
pub struct Searcher {
    pattern: Vec<u8>,
    char_lkup: CharLookup,
    case_sensitive: bool,
}

impl Searcher {
    #[verifier::type_invariant]
    spec fn well_formed(&self) -> bool {
        self.char_lkup@ == self.pattern@
    }

    /// The bytes that are searched for.
    pub closed spec fn spec_pattern(&self) -> Seq<u8> {
        self.pattern@
    }

    /// Whether contents are searched as they are, not in their lowercase form.
    pub closed spec fn spec_case_sensitive(&self) -> bool {
        self.case_sensitive
    }

    /// Makes the matcher for `pattern`, which is brought into lowercase
    /// first where case is not to count.
    fn create(pattern: String, case_sensitive: bool) -> (searcher: Self)
        ensures
            searcher.spec_pattern() == normalized(pattern@, case_sensitive),
            searcher.spec_case_sensitive() == case_sensitive,
    {
        let lower = get_lowercase_string_if(!case_sensitive, pattern.as_str());
        let pattern = if let Some(lower) = &lower {
            lower.as_str().as_bytes()
        } else {
            pattern.as_str().as_bytes()
        };
        Self::from_bytes(pattern, case_sensitive)
    }

    /// Makes a matcher for the bytes `pattern`, which are taken as they
    /// are. Where case is not to count, they are the bytes of a
    /// lowercase text.
    pub fn from_bytes(pattern: &[u8], case_sensitive: bool) -> (searcher: Self)
        ensures
            searcher.spec_pattern() == pattern@,
            searcher.spec_case_sensitive() == case_sensitive,
    {
        Self {
            pattern: slice_to_vec(pattern),
            char_lkup: CharLookup::from(pattern),
            case_sensitive,
        }
    }

    /// Finds the pattern in `content` by trying every start in turn.
    pub fn naive_search(&self, content: &str) -> (result: Vec<Match>)
        ensures
            match_positions(result@) == occurrences(
                self.spec_pattern(),
                normalized(content@, self.spec_case_sensitive()),
            ),
            self.spec_pattern().len() == 0 ==> result@.len() == 0,
            self.spec_pattern().len() > normalized(content@, self.spec_case_sensitive()).len()
                ==> result@.len() == 0,
    {
        if self.pattern.len() == 0 {
            return Vec::new();
        }
        let lowercase_content = get_lowercase_string_if(!self.case_sensitive, content);
        let content = if let Some(lower) = &lowercase_content {
            lower.as_str().as_bytes()
        } else {
            content.as_bytes()
        };
        self.naive_search_bytes(content)
    }

    /// Finds the pattern in the bytes `content`, taken as they are, by
    /// trying every start in turn.
    pub fn naive_search_bytes(&self, content: &[u8]) -> (result: Vec<Match>)
        ensures
            match_positions(result@) == occurrences(self.spec_pattern(), content@),
            self.spec_pattern().len() == 0 ==> result@.len() == 0,
            self.spec_pattern().len() > content@.len() ==> result@.len() == 0,
    {
        let mut result: Vec<Match> = Vec::new();
        if self.pattern.len() == 0 {
            return result;
        }
        let mut position: usize = 0;
        while self.pattern.len() <= content.len() - position
            invariant
                self.pattern@.len() > 0,
                position <= content.len(),
                match_positions(result@) == occurrences_in(
                    self.pattern@,
                    content@,
                    0,
                    position as int,
                ),
            decreases content.len() - position,
        {
            if self.is_match_at_pos(content, position) {
                result.push(Match { position });
            }
            position += 1;
        }
        proof {
            let end = content@.len() as int;
            lemma_no_occurrence_past_end(self.pattern@, content@, position as int, end);
            lemma_occurrences_in_split(self.pattern@, content@, 0, position as int, end);
            if self.pattern@.len() > content@.len() {
                lemma_longer_pattern_has_no_occurrence(self.pattern@, content@);
            }
        }
        result
    }

    /// Finds the pattern in `content` with the help of the index: of
    /// each block of the pattern's length only the last byte is read, and
    /// only the starts for which that byte speaks are compared in full.
    pub fn search(&self, content: &str) -> (result: Vec<Match>)
        ensures
            match_positions(result@) == block_scan(
                self.spec_pattern(),
                normalized(content@, self.spec_case_sensitive()),
            ),
            match_positions(result@) == occurrences(
                self.spec_pattern(),
                normalized(content@, self.spec_case_sensitive()),
            ),
            self.spec_pattern().len() == 0 ==> result@.len() == 0,
            self.spec_pattern().len() > normalized(content@, self.spec_case_sensitive()).len()
                ==> result@.len() == 0,
    {
        if self.pattern.len() == 0 {
            return Vec::new();
        }
        let lowercase_content = get_lowercase_string_if(!self.case_sensitive, content);
        let content = if let Some(lower) = &lowercase_content {
            lower.as_str().as_bytes()
        } else {
            content.as_bytes()
        };
        self.search_bytes(content)
    }

    /// Finds the pattern in the bytes `content`, taken as they are, with
    /// the help of the index.
    pub fn search_bytes(&self, content: &[u8]) -> (result: Vec<Match>)
        ensures
            match_positions(result@) == block_scan(self.spec_pattern(), content@),
            match_positions(result@) == occurrences(self.spec_pattern(), content@),
            self.spec_pattern().len() == 0 ==> result@.len() == 0,
            self.spec_pattern().len() > content@.len() ==> result@.len() == 0,
    {
        let mut result: Vec<Match> = Vec::new();
        proof {
            lemma_block_scan_is_exhaustive(self.pattern@, content@);
            if self.pattern@.len() > content@.len() {
                lemma_longer_pattern_has_no_occurrence(self.pattern@, content@);
            }
        }
        if self.pattern.len() == 0 {
            return result;
        }
        let mut position: usize = self.pattern.len() - 1;
        while position < content.len()
            invariant_except_break
                match_positions(result@) + scan_from(self.pattern@, content@, position as int)
                    == block_scan(self.pattern@, content@),
            invariant
                0 < self.pattern@.len() <= position + 1,
            ensures
                match_positions(result@) == block_scan(self.pattern@, content@),
            decreases content.len() - position,
        {
            let ghost before = match_positions(result@);
            let ghost hits = hits_at(self.pattern@, content@, position as int);
            let ghost rest = scan_from(
                self.pattern@,
                content@,
                position + self.pattern@.len(),
            );
            if self.contains(content[position]) {
                let position_match = self.search_position(content, position);
                if let Some(mut mat) = position_match {
                    result.append(&mut mat);
                }
            } else {
                proof {
                    lemma_positions_of_nonempty(self.pattern@, content@[position as int]);
                }
            }
            assert(match_positions(result@) + rest == before + (hits + rest));
            if self.pattern.len() >= content.len() - position {
                // The next cursor would lie behind the content.
                break;
            }
            position += self.pattern.len();
        }
        result
    }

    /// The matches that are found from the cursor `position`: one for
    /// each offset of the byte at the cursor at which the pattern would
    /// start within the content and does occur, the highest offset
    /// first. `None` where there is none.
    fn search_position(&self, content: &[u8], position: usize) -> (found: Option<Vec<Match>>)
        requires
            self.spec_pattern().len() - 1 <= position < content@.len(),
        ensures
            reported(found) == hits_at(self.spec_pattern(), content@, position as int),
            found matches Some(matches) ==> matches@.len() > 0,
    {
        let mut result: Option<Vec<Match>> = None;
        let offsets = self.char_lkup.get_positions(content[position]);
        proof {
            use_type_invariant(self);
            lemma_positions_of_exact(self.pattern@, content@[position as int]);
        }
        let ghost all = positions_of(self.pattern@, content@[position as int]);
        assert(all.take(all.len() as int) == all);
        for i in tried: offsets.iter().rev()
            invariant
                tried.seq().len() == offsets@.len(),
                forall|k: int|
                    0 <= k < offsets@.len() ==> *tried.seq()[k] == offsets@[offsets@.len() - 1
                        - k],
                as_ints(offsets@) == all,
                forall|p: int| #[trigger] all.contains(p) ==> 0 <= p < self.pattern@.len(),
                self.pattern@.len() - 1 <= position < content.len(),
                result matches Some(matches) ==> matches@.len() > 0,
                reported(result) + confirmed_starts(
                    self.pattern@,
                    content@,
                    position as int,
                    all.take(all.len() - tried.index()),
                ) == hits_at(self.pattern@, content@, position as int),
        {
            let ghost untried = all.len() - tried.index() - 1;
            proof {
                assert(all.contains(*i as int));
                assert(all.take(untried + 1).drop_last() == all.take(untried));
            }
            let start = position - *i;
            if self.pattern.len() <= content.len() - start && self.is_match_at_pos(content, start) {
                let ghost before = reported(result);
                if let Some(v) = &mut result {
                    v.push(Match { position: start });
                } else {
                    result = Some(vec![Match { position: start }]);
                }
                assert(reported(result) == before + seq![start as int]);
            }
        }
        result
    }

    /// Whether the pattern occurs in `text` at `position`.
    fn is_match_at_pos(&self, text: &[u8], position: usize) -> (matched: bool)
        requires
            position + self.spec_pattern().len() <= text@.len(),
        ensures
            matched == occurs_at(self.spec_pattern(), text@, position as int),
    {
        let mut j: usize = 0;
        while j < self.pattern.len()
            invariant
                j <= self.pattern@.len(),
                position + self.pattern@.len() <= text.len(),
                forall|k: int| 0 <= k < j ==> text@[position + k] == #[trigger] self.pattern@[k],
            decreases self.pattern@.len() - j,
        {
            if text[position + j] != self.pattern[j] {
                proof {
                    lemma_occurs_at_bytewise(self.pattern@, text@, position as int);
                }
                return false;
            }
            j += 1;
        }
        proof {
            lemma_occurs_at_bytewise(self.pattern@, text@, position as int);
        }
        true
    }

    /// Whether `c` is one of the pattern's bytes.
    fn contains(&self, c: u8) -> (found: bool)
        ensures
            found == self.spec_pattern().contains(c),
    {
        proof {
            use_type_invariant(self);
        }
        self.char_lkup.contains(c)
    }
}

} // verus!
