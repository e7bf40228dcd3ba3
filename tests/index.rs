use word_search::completions::{top_completions, CompletionsRec};
use word_search::index::{WordIndex, WordLoc};
use word_search::normalize::remove_interpunction;

fn records(lines: &[&str]) -> Vec<String> {
    lines.iter().map(|l| l.to_string()).collect()
}

fn pairs(rec: &CompletionsRec) -> Vec<(String, usize)> {
    rec.compl.iter().map(|c| (c.completion.clone(), c.count)).collect()
}

#[test]
fn test_find_completions() {
    let state = CompletionsRec::new(2);

    // add the first item to 'state'
    let state = top_completions(
        state,
        (
            &"initial-value".to_string(),
            &(vec![
                WordLoc { line: 1, word: 1 },
                WordLoc { line: 2, word: 2 },
                WordLoc { line: 3, word: 3 },
            ]),
        ),
    );
    assert_eq!(state.compl[0].count, 3);
    // // add the second item to 'state'
    let state = top_completions(state, (&"at end".to_string(), &vec![WordLoc { line: 3, word: 3 }]));
    assert_eq!(state.compl[0].count, 3);
    assert_eq!(state.compl[1].count, 1);
    // and append a third item
    let state = top_completions(
        state,
        (
            &"at start".to_string(),
            &vec![
                WordLoc { line: 4, word: 3 },
                WordLoc { line: 5, word: 3 },
                WordLoc { line: 6, word: 3 },
                WordLoc { line: 7, word: 3 },
            ],
        ),
    );
    assert_eq!(state.compl[0].count, 4);
    assert_eq!(state.compl[1].count, 3);
}

#[test]
fn two_records_end_to_end() {
    let idx = WordIndex::build_index(&records(&["the cat sat.", "the dog sat."])).unwrap();
    let the = idx.find_matches("the").unwrap();
    assert_eq!(the, &vec![WordLoc { line: 0, word: 0 }, WordLoc { line: 1, word: 0 }]);

    let c = idx.find_completions(&"sa".to_string(), 5);
    assert_eq!(pairs(&c), vec![("sat".to_string(), 2)]);
    assert_eq!(c.total_count, 1);

    let f = idx.find_dl_completions(&"cap".to_string(), 5, 1);
    assert_eq!(pairs(&f), vec![("cat".to_string(), 1)]);
    assert_eq!(f.total_count, 1);

    // a word that starts with the query is left to the prefix query
    let f = idx.find_dl_completions(&"ca".to_string(), 5, 1);
    assert!(f.compl.iter().all(|c| c.completion != "cat"));

    assert_eq!(idx.record_count(), 2);
    assert_eq!(idx.word_count(), 6);
    assert_eq!(idx.len(), 4);
}

#[test]
fn lookup_lists_every_place_in_order() {
    let idx = WordIndex::build_index(&records(&["a b a", "", "b a"])).unwrap();
    assert_eq!(
        idx.find_matches("a").unwrap(),
        &vec![
            WordLoc { line: 0, word: 0 },
            WordLoc { line: 0, word: 2 },
            WordLoc { line: 2, word: 1 },
        ]
    );
    assert_eq!(
        idx.find_matches("b").unwrap(),
        &vec![WordLoc { line: 0, word: 1 }, WordLoc { line: 2, word: 0 }]
    );
    assert!(idx.find_matches("c").is_none());
    assert_eq!(idx.record_count(), 3);
    assert_eq!(idx.word_count(), 5);
}

#[test]
fn positions_count_tokens_before_normalization() {
    let idx = WordIndex::build_index(&records(&["\"Hello,\" she said ."])).unwrap();
    assert_eq!(idx.find_matches("Hello,").unwrap(), &vec![WordLoc { line: 0, word: 0 }]);
    assert_eq!(idx.find_matches("said").unwrap(), &vec![WordLoc { line: 0, word: 2 }]);
    // a lone full stop normalizes to the empty word, which is kept
    assert_eq!(idx.find_matches("").unwrap(), &vec![WordLoc { line: 0, word: 3 }]);
    assert_eq!(idx.len(), 4);
}

#[test]
fn size_counts_distinct_normalized_words() {
    let idx = WordIndex::build_index(&records(&["(x) x. x; [y y]", "z"])).unwrap();
    assert_eq!(idx.len(), 3);
    let idx = WordIndex::build_index(&records(&["x ! y"])).unwrap();
    assert_eq!(idx.len(), 3);
}

#[test]
fn any_whitespace_separates_tokens() {
    let idx = WordIndex::build_index(&records(&["a\tb\u{3000}c  \n d"])).unwrap();
    assert_eq!(idx.len(), 4);
    assert_eq!(idx.find_matches("d").unwrap(), &vec![WordLoc { line: 0, word: 3 }]);
    assert_eq!(idx.word_count(), 4);
}

#[test]
fn empty_corpus() {
    let idx = WordIndex::build_index(&Vec::new()).unwrap();
    assert_eq!(idx.len(), 0);
    assert_eq!(idx.record_count(), 0);
    assert_eq!(idx.word_count(), 0);
    assert!(idx.find_matches("a").is_none());
    let c = idx.find_completions(&"a".to_string(), 3);
    assert!(c.compl.is_empty());
    assert_eq!(c.total_count, 0);
    let f = idx.find_dl_completions(&"ab".to_string(), 3, 2);
    assert!(f.compl.is_empty());
    assert_eq!(f.total_count, 0);
}

#[test]
fn records_without_words_are_counted() {
    let idx = WordIndex::build_index(&records(&["", "   ", "w"])).unwrap();
    assert_eq!(idx.record_count(), 3);
    assert_eq!(idx.word_count(), 1);
    assert_eq!(idx.find_matches("w").unwrap(), &vec![WordLoc { line: 2, word: 0 }]);
}

#[test]
fn too_many_tokens_in_one_record_is_refused() {
    let fits = vec!["a"; 65536].join(" ");
    assert!(WordIndex::build_index(&vec![fits]).is_some());
    let too_long = vec!["a"; 65537].join(" ");
    assert!(WordIndex::build_index(&vec!["ok".to_string(), too_long]).is_none());
}

#[test]
fn completions_rank_by_count_then_word() {
    let idx = WordIndex::build_index(&records(&[
        "ten tea tea tan ten tex",
        "tea toe tan",
        "other words",
    ]))
    .unwrap();
    let c = idx.find_completions(&"t".to_string(), 10);
    assert_eq!(
        pairs(&c),
        vec![
            ("tea".to_string(), 3),
            ("tan".to_string(), 2),
            ("ten".to_string(), 2),
            ("tex".to_string(), 1),
            ("toe".to_string(), 1),
        ]
    );
    assert_eq!(c.total_count, 5);

    // only the best two are kept; the count still covers all candidates
    let c = idx.find_completions(&"t".to_string(), 2);
    assert_eq!(pairs(&c), vec![("tea".to_string(), 3), ("tan".to_string(), 2)]);
    assert_eq!(c.total_count, 5);

    let c = idx.find_completions(&"te".to_string(), 3);
    assert_eq!(
        pairs(&c),
        vec![("tea".to_string(), 3), ("ten".to_string(), 2), ("tex".to_string(), 1)]
    );
    assert_eq!(c.total_count, 3);
}

#[test]
fn zero_completions_still_counts_candidates() {
    let idx = WordIndex::build_index(&records(&["ab ac ad"])).unwrap();
    let c = idx.find_completions(&"a".to_string(), 0);
    assert!(c.compl.is_empty());
    assert_eq!(c.total_count, 3);
}

#[test]
fn prefix_range_keeps_long_and_high_words() {
    // long words, and words with characters that sort after 'z', are found too
    let idx = WordIndex::build_index(&records(&["abzzzzzzzzzzzz ab\u{00e9}t ab abc b"])).unwrap();
    let c = idx.find_completions(&"ab".to_string(), 10);
    assert_eq!(c.total_count, 4);
    let words: Vec<String> = c.compl.iter().map(|c| c.completion.clone()).collect();
    assert_eq!(
        words,
        vec![
            "ab".to_string(),
            "abc".to_string(),
            "abzzzzzzzzzzzz".to_string(),
            "ab\u{00e9}t".to_string(),
        ]
    );
}

#[test]
fn fuzzy_completions_rank_and_filter() {
    let idx = WordIndex::build_index(&records(&["cat cat cot cut dog cart cap"])).unwrap();
    let f = idx.find_dl_completions(&"cit".to_string(), 2, 1);
    assert_eq!(pairs(&f), vec![("cat".to_string(), 2), ("cot".to_string(), 1)]);
    assert_eq!(f.total_count, 3);
}

#[test]
fn ranker_keeps_first_of_equal_counts() {
    let one = vec![WordLoc { line: 0, word: 0 }];
    let state = CompletionsRec::new(2);
    let state = top_completions(state, (&"a".to_string(), &one));
    let state = top_completions(state, (&"b".to_string(), &one));
    let state = top_completions(state, (&"c".to_string(), &one));
    assert_eq!(pairs(&state), vec![("a".to_string(), 1), ("b".to_string(), 1)]);
    assert_eq!(state.total_count, 3);
    let state = CompletionsRec::new(0);
    let state = top_completions(state, (&"a".to_string(), &one));
    assert!(state.compl.is_empty());
    assert_eq!(state.total_count, 1);
}

#[test]
fn normalization_strips_one_character_each_side() {
    assert_eq!(remove_interpunction("\"word\""), "word");
    assert_eq!(remove_interpunction("(word),"), "word)");
    assert_eq!(remove_interpunction("''word''"), "'word'");
    assert_eq!(remove_interpunction("don't"), "don't");
    assert_eq!(remove_interpunction("."), "");
    assert_eq!(remove_interpunction("\""), "");
    assert_eq!(remove_interpunction("()"), "");
    assert_eq!(remove_interpunction("(a)"), "a");
    assert_eq!(remove_interpunction("well-known!"), "well-known");
    assert_eq!(remove_interpunction("{x}"), "x");
}
