use fsearch::search::{Match, SearchBuilder, Searcher};

fn positions(matches: &Vec<Match>) -> Vec<usize> {
    let mut out = Vec::new();
    for m in matches {
        out.push(m.position);
    }
    out
}

#[test]
fn basic_search() {
    let searcher = SearchBuilder::from_pattern("bc").build();
    let mats = searcher.naive_search("abcd".into());
    assert_eq!(mats.len(), 1);
    let mat1 = mats.first().unwrap();
    assert_eq!(mat1.position, 1);
}

#[test]
fn no_matches() {
    let searcher = SearchBuilder::from_pattern("bd").build();
    let mats = searcher.naive_search("abcd".into());
    assert_eq!(mats.len(), 0);
}

#[test]
fn empty_content() {
    let searcher = SearchBuilder::from_pattern("abc").build();
    let mats = searcher.naive_search("".into());
    assert_eq!(mats.len(), 0);
}

#[test]
fn search_string_too_long() {
    let searcher = SearchBuilder::from_pattern("abcdefgh").build();
    let mats = searcher.naive_search("abc");
    assert_eq!(mats.len(), 0);
}

#[test]
fn two_matches() {
    let searcher = SearchBuilder::from_pattern("abc").build();
    let mats = searcher.naive_search("xabc123abcx".into());
    assert_eq!(mats.len(), 2);
    assert_eq!(mats, vec![Match { position: 1 }, Match { position: 7 }]);
}

#[test]
fn case_no_match() {
    let searcher = SearchBuilder::from_pattern("bcd").build();
    let mats = searcher.search("ABCDEF");
    assert_eq!(mats.len(), 0);
}

#[test]
fn longer_test() {
    let content = "Lorem ipsum dolor sit amet, officia excepteur ex fugiat reprehenderit enim labore culpa sint ad nisi Lorem pariatur mollit ex esse exercitation amet. Nisi anim cupidatat excepteur officia. Reprehenderit nostrud nostrud ipsum Lorem est aliquip amet voluptate voluptate dolor minim nulla est proident. Nostrud officia pariatur ut officia. Sit irure elit esse ea nulla sunt ex occaecat reprehenderit commodo officia dolor Lorem duis laboris cupidatat officia voluptate. Culpa proident adipisicing id nulla nisi laboris ex in Lorem sunt duis officia eiusmod. Aliqua reprehenderit commodo ex non excepteur duis sunt velit enim. Voluptate laboris sint cupidatat ullamco ut ea consectetur et est culpa et culpa duis.";
    let searcher = SearchBuilder::from_pattern("dolor").build();
    let mats = searcher.naive_search(content);
    let mats2 = searcher.search(content);
    assert_eq!(mats2, mats);
}

#[test]
fn case_insensitive_basic() {
    let searcher = SearchBuilder::from_pattern("AbCd")
        .case_sensitive(false)
        .build();
    let mats = searcher.search("123aBcd123");
    assert_eq!(mats, vec![Match { position: 3 }]);
}

#[test]
fn search_random_test_1() {
    let searcher = SearchBuilder::from_pattern("abcabc").build();
    let mats = searcher.search("abcabcabc");
    assert_eq!(mats, vec![Match { position: 0 }, Match { position: 3 }]);
}

#[test]
fn longer_test_finds_every_dolor() {
    let content = "Lorem ipsum dolor sit amet, dolor. DOLOR dolordolor";
    let searcher = SearchBuilder::from_pattern("dolor").build();
    assert_eq!(positions(&searcher.naive_search(content)), vec![12, 28, 41, 46]);
    assert_eq!(positions(&searcher.search(content)), vec![12, 28, 41, 46]);
}

#[test]
fn naive_search_finds_one_match_in_the_middle() {
    let searcher = SearchBuilder::from_pattern("bc").build();
    assert_eq!(searcher.naive_search("abcd"), vec![Match { position: 1 }]);
    assert_eq!(searcher.search("abcd"), vec![Match { position: 1 }]);
}

#[test]
fn indexed_search_finds_two_separate_matches() {
    let searcher = SearchBuilder::from_pattern("abc").build();
    assert_eq!(positions(&searcher.search("xabc123abcx")), vec![1, 7]);
}

#[test]
fn overlapping_matches_are_all_found() {
    let searcher = SearchBuilder::from_pattern("abcabc").build();
    assert_eq!(positions(&searcher.naive_search("abcabcabc")), vec![0, 3]);
    assert_eq!(positions(&searcher.search("abcabcabc")), vec![0, 3]);

    let searcher = SearchBuilder::from_pattern("aa").build();
    assert_eq!(positions(&searcher.naive_search("aaaa")), vec![0, 1, 2]);
    assert_eq!(positions(&searcher.search("aaaa")), vec![0, 1, 2]);

    let searcher = SearchBuilder::from_pattern("aba").build();
    assert_eq!(positions(&searcher.naive_search("abababa")), vec![0, 2, 4]);
    assert_eq!(positions(&searcher.search("abababa")), vec![0, 2, 4]);
}

#[test]
fn naive_search_reports_exactly_the_windows_that_equal_the_pattern() {
    let pattern = "ab";
    let content = "abxabababyab";
    let searcher = SearchBuilder::from_pattern(pattern).build();
    let found = positions(&searcher.naive_search(content));
    let mut expected = Vec::new();
    let bytes = content.as_bytes();
    for start in 0..bytes.len() {
        if start + pattern.len() <= bytes.len()
            && &bytes[start..start + pattern.len()] == pattern.as_bytes()
        {
            expected.push(start);
        }
    }
    assert_eq!(found, expected);
    assert_eq!(found, vec![0, 3, 5, 7, 10]);
}

#[test]
fn pattern_longer_than_content_is_not_found() {
    let searcher = SearchBuilder::from_pattern("abcdefgh").build();
    assert_eq!(searcher.naive_search("abc").len(), 0);
    assert_eq!(searcher.search("abc").len(), 0);
    let searcher = SearchBuilder::from_pattern("abcd").build();
    assert_eq!(searcher.naive_search("abc").len(), 0);
    assert_eq!(searcher.search("abc").len(), 0);
}

#[test]
fn empty_pattern_is_not_found() {
    let searcher = SearchBuilder::from_pattern("").build();
    assert_eq!(searcher.naive_search("anything").len(), 0);
    assert_eq!(searcher.search("anything").len(), 0);
    assert_eq!(searcher.naive_search("").len(), 0);
    assert_eq!(searcher.search("").len(), 0);
    let searcher = SearchBuilder::from_pattern("").case_sensitive(false).build();
    assert_eq!(searcher.naive_search("Anything").len(), 0);
    assert_eq!(searcher.search("Anything").len(), 0);
}

#[test]
fn empty_content_holds_no_match() {
    let searcher = SearchBuilder::from_pattern("abc").build();
    assert_eq!(searcher.search("").len(), 0);
    let searcher = SearchBuilder::from_pattern("a").case_sensitive(false).build();
    assert_eq!(searcher.search("").len(), 0);
    assert_eq!(searcher.naive_search("").len(), 0);
}

#[test]
fn pattern_equal_to_content_is_found_once() {
    let searcher = SearchBuilder::from_pattern("abcd").build();
    assert_eq!(positions(&searcher.naive_search("abcd")), vec![0]);
    assert_eq!(positions(&searcher.search("abcd")), vec![0]);
}

#[test]
fn match_at_the_very_end_is_found() {
    let searcher = SearchBuilder::from_pattern("cd").build();
    assert_eq!(positions(&searcher.search("abcd")), vec![2]);
    assert_eq!(positions(&searcher.search("abccd")), vec![3]);
    let searcher = SearchBuilder::from_pattern("xyz").build();
    assert_eq!(positions(&searcher.search("abxyz")), vec![2]);
    assert_eq!(positions(&searcher.search("abcxyz")), vec![3]);
    assert_eq!(positions(&searcher.search("abcdxyz")), vec![4]);
}

#[test]
fn single_byte_pattern_is_found_everywhere() {
    let searcher = SearchBuilder::from_pattern("a").build();
    assert_eq!(positions(&searcher.search("banana")), vec![1, 3, 5]);
    assert_eq!(positions(&searcher.naive_search("banana")), vec![1, 3, 5]);
}

#[test]
fn builder_heeds_case_unless_told_otherwise() {
    let searcher = SearchBuilder::from_pattern("ABC").build();
    assert_eq!(searcher.search("xabcx").len(), 0);
    assert_eq!(searcher.naive_search("xabcx").len(), 0);
    assert_eq!(positions(&searcher.search("xABCx")), vec![1]);

    let searcher = SearchBuilder::from_pattern("ABC").case_sensitive(false).build();
    assert_eq!(positions(&searcher.search("xabcx")), vec![1]);
    assert_eq!(positions(&searcher.naive_search("xaBcx")), vec![1]);

    let searcher = SearchBuilder::from_pattern("ABC")
        .case_sensitive(false)
        .case_sensitive(true)
        .build();
    assert_eq!(searcher.search("xabcx").len(), 0);
}

#[test]
fn case_insensitive_naive_search() {
    let searcher = SearchBuilder::from_pattern("AbCd")
        .case_sensitive(false)
        .build();
    assert_eq!(searcher.naive_search("123aBcd123"), vec![Match { position: 3 }]);
}

#[test]
fn ignoring_case_is_searching_lowercase() {
    let patterns = ["AbC", "abc", "ABC", "Straße", "ÉCOLE", "x"];
    let contents = [
        "abcABCaBc",
        "xxAbCxx",
        "Die STRASSE, die Straße, die STRAßE",
        "école École ÉCOLE",
        "XxXx",
        "",
    ];
    for pattern in patterns {
        for content in contents {
            let folding = SearchBuilder::from_pattern(pattern).case_sensitive(false).build();
            let exact = SearchBuilder::from_pattern(&pattern.to_lowercase()).build();
            let lower = content.to_lowercase();
            assert_eq!(folding.search(content), exact.search(&lower));
            assert_eq!(folding.naive_search(content), exact.naive_search(&lower));
        }
    }
}

#[test]
fn positions_count_the_bytes_of_the_lowercase_content() {
    let searcher = SearchBuilder::from_pattern("É").case_sensitive(false).build();
    assert_eq!(positions(&searcher.search("éÉ")), vec![0, 2]);
    assert_eq!(positions(&searcher.naive_search("éÉ")), vec![0, 2]);

    let searcher = SearchBuilder::from_pattern("x").case_sensitive(false).build();
    assert_eq!(positions(&searcher.search("İx")), vec![3]);
    assert_eq!(positions(&searcher.naive_search("İx")), vec![3]);
    let searcher = SearchBuilder::from_pattern("x").build();
    assert_eq!(positions(&searcher.search("İx")), vec![2]);
}

#[test]
fn non_ascii_text_is_searched_by_its_bytes() {
    let searcher = SearchBuilder::from_pattern("é").build();
    assert_eq!(positions(&searcher.search("cafébébé")), vec![3, 6, 9]);
    assert_eq!(positions(&searcher.naive_search("cafébébé")), vec![3, 6, 9]);
}

#[test]
fn bytes_are_searched_as_they_are() {
    let searcher = Searcher::from_bytes(&[0xff, 0x00], true);
    let content = [0x00, 0xff, 0x00, 0xff, 0xff, 0x00, 0xff];
    assert_eq!(positions(&searcher.naive_search_bytes(&content)), vec![1, 4]);
    assert_eq!(positions(&searcher.search_bytes(&content)), vec![1, 4]);

    let searcher = Searcher::from_bytes(b"AB", false);
    assert_eq!(positions(&searcher.search_bytes(b"abAB")), vec![2]);
    assert_eq!(positions(&searcher.naive_search_bytes(b"abAB")), vec![2]);
}

#[test]
fn bytes_with_an_empty_or_long_pattern() {
    let searcher = Searcher::from_bytes(&[], true);
    assert_eq!(searcher.search_bytes(&[1, 2, 3]).len(), 0);
    assert_eq!(searcher.naive_search_bytes(&[1, 2, 3]).len(), 0);
    let searcher = Searcher::from_bytes(&[1, 2, 3, 4], true);
    assert_eq!(searcher.search_bytes(&[1, 2, 3]).len(), 0);
    assert_eq!(searcher.naive_search_bytes(&[1, 2, 3]).len(), 0);
    assert_eq!(searcher.search_bytes(&[]).len(), 0);
    assert_eq!(searcher.naive_search_bytes(&[]).len(), 0);
}

fn texts_over(alphabet: &[u8], max_len: usize) -> Vec<Vec<u8>> {
    let mut all: Vec<Vec<u8>> = vec![Vec::new()];
    let mut last: Vec<Vec<u8>> = vec![Vec::new()];
    for _ in 0..max_len {
        let mut next = Vec::new();
        for text in &last {
            for byte in alphabet {
                let mut longer = text.clone();
                longer.push(*byte);
                next.push(longer);
            }
        }
        all.extend(next.iter().cloned());
        last = next;
    }
    all
}

#[test]
fn indexed_search_equals_naive_search_on_every_short_input() {
    let patterns = texts_over(b"ab", 4);
    let contents = texts_over(b"ab", 9);
    for pattern in &patterns {
        let searcher = Searcher::from_bytes(pattern, true);
        for content in &contents {
            let naive = searcher.naive_search_bytes(content);
            let mut expected = Vec::new();
            if !pattern.is_empty() {
                for start in 0..content.len() {
                    if start + pattern.len() <= content.len()
                        && content[start..start + pattern.len()] == pattern[..]
                    {
                        expected.push(Match { position: start });
                    }
                }
            }
            assert_eq!(naive, expected);
            assert_eq!(searcher.search_bytes(content), naive);
        }
    }
}

#[test]
fn indexed_search_equals_naive_search_over_three_letters() {
    let patterns = texts_over(b"abc", 3);
    let contents = texts_over(b"abc", 6);
    for pattern in &patterns {
        let searcher = Searcher::from_bytes(pattern, true);
        for content in &contents {
            assert_eq!(searcher.search_bytes(content), searcher.naive_search_bytes(content));
        }
    }
}

#[test]
fn indexed_search_equals_naive_search_at_the_length_boundary() {
    let content = "abcabcabcab";
    for len in 0..=content.len() {
        let pattern = &content[..len];
        let searcher = SearchBuilder::from_pattern(pattern).build();
        assert_eq!(searcher.search(content), searcher.naive_search(content));
        let equal = searcher.search(pattern);
        assert_eq!(equal, searcher.naive_search(pattern));
        assert_eq!(equal.len(), if len == 0 { 0 } else { 1 });
        let longer = format!("{}x", content);
        let searcher = SearchBuilder::from_pattern(&longer).build();
        assert_eq!(searcher.search(content).len(), 0);
        assert_eq!(searcher.naive_search(content).len(), 0);
    }
}

#[test]
fn a_searcher_serves_many_contents() {
    let searcher = SearchBuilder::from_pattern("na").build();
    assert_eq!(positions(&searcher.search("banana")), vec![2, 4]);
    assert_eq!(positions(&searcher.search("nana")), vec![0, 2]);
    assert_eq!(positions(&searcher.search("banana")), vec![2, 4]);
    assert_eq!(searcher.search("bnn").len(), 0);
}
