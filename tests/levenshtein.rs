use word_search::levenshtein::dam_lev_prefix;
use word_search::text::is_white_space;

#[test]
fn test_dam_lev_prefix() {
    // equal strings
    assert_eq!(dam_lev_prefix("abc", "abc", 2), Some(0));
    assert_eq!(dam_lev_prefix("abc", "acdef", 2), Some(1)); // one deletion is better than two replaces
    assert_eq!(dam_lev_prefix("abc", "acdef", 2), Some(1)); // one deletion is better than two replaces
    // prefix is longer than word
    assert_eq!(dam_lev_prefix("abcX", "abc", 2), Some(1));
    assert_eq!(dam_lev_prefix("abcXY", "abc", 2), Some(2));
    assert_eq!(dam_lev_prefix("abcXYZ", "abc", 2), None);

    // prefix does not match with word, and word is longer
    assert_eq!(dam_lev_prefix("abc", "abc____", 2), Some(0));
    assert_eq!(dam_lev_prefix("abc", "Xbcdef", 2), Some(1));
    assert_eq!(dam_lev_prefix("abc", "Xbcdef", 2), Some(1));
    assert_eq!(dam_lev_prefix("abc", "aXcdef", 2), Some(1));
    assert_eq!(dam_lev_prefix("abc", "XYcdef", 2), Some(2));
    assert_eq!(dam_lev_prefix("abc", "XYZdef", 2), None);

    // a single transposition (swap) is counted, instead of 2 replace statements.
    assert_eq!(dam_lev_prefix("abc", "acb____", 2), Some(1));
}

#[test]
fn same_word_is_at_distance_zero() {
    for s in ["a", "abc", "héllo", "word with spaces"] {
        for d in [0usize, 1, 2, 5] {
            assert_eq!(dam_lev_prefix(s, s, d), Some(0));
        }
    }
}

#[test]
fn empty_query_matches_everything() {
    assert_eq!(dam_lev_prefix("", "", 0), Some(0));
    assert_eq!(dam_lev_prefix("", "anything", 0), Some(0));
}

#[test]
fn over_budget_gives_none() {
    // three substitutions are needed, so a budget of two is too small
    assert_eq!(dam_lev_prefix("abc", "XYZ", 2), None);
    assert_eq!(dam_lev_prefix("abc", "XYZ", 3), Some(3));
    // the query may not be longer than the candidate for free
    assert_eq!(dam_lev_prefix("abcd", "a", 2), None);
}

#[test]
fn raising_budget_keeps_the_match() {
    let pairs = [("abc", "XYcdef"), ("abcX", "abc"), ("kitten", "sitting"), ("abc", "acb")];
    for (q, w) in pairs {
        let mut found: Option<usize> = None;
        for d in 0usize..8 {
            let r = dam_lev_prefix(q, w, d);
            if let Some(prev) = found {
                assert_eq!(r, Some(prev));
            } else if r.is_some() {
                found = r;
            }
        }
        assert!(found.is_some());
    }
}

#[test]
fn transposition_costs_one() {
    assert_eq!(dam_lev_prefix("abc", "acb____", 2), Some(1));
    assert_eq!(dam_lev_prefix("ab", "ba", 1), Some(1));
}

#[test]
fn excess_query_characters_cost_one_each() {
    assert_eq!(dam_lev_prefix("abcXY", "abc", 2), Some(2));
    assert_eq!(dam_lev_prefix("abcXYZ", "abc", 2), None);
    assert_eq!(dam_lev_prefix("abcXYZ", "abc", 3), Some(3));
}

#[test]
fn single_edits_cost_one() {
    // substitution
    assert_eq!(dam_lev_prefix("cap", "cat", 1), Some(1));
    // a character missing from the candidate
    assert_eq!(dam_lev_prefix("abcd", "acd", 1), Some(1));
    // an extra character in the candidate
    assert_eq!(dam_lev_prefix("acd", "abcd", 1), Some(1));
    // a substitution followed by a matching character
    assert_eq!(dam_lev_prefix("abb", "axb", 2), Some(1));
    // an extra character in the candidate, the rest realigned
    assert_eq!(dam_lev_prefix("abcd", "acbcd", 2), Some(1));
    // a character missing from the candidate, the rest realigned
    assert_eq!(dam_lev_prefix("acbcd", "abcd", 2), Some(1));
    // zero budget admits only literal prefixes
    assert_eq!(dam_lev_prefix("cap", "cat", 0), None);
    assert_eq!(dam_lev_prefix("ca", "cat", 0), Some(0));
}

#[test]
fn several_errors_are_counted_exactly() {
    // a deletion followed by a substitution
    assert_eq!(dam_lev_prefix("abcde", "acdxe", 3), Some(2));
    // a swap and a substitution
    assert_eq!(dam_lev_prefix("abcd", "bacx", 2), Some(2));
    assert_eq!(dam_lev_prefix("abcd", "bacx", 1), None);
    // the best prefix of the candidate is chosen
    assert_eq!(dam_lev_prefix("kitten", "sitting", 2), Some(2));
}

#[test]
fn white_space_agrees_with_std() {
    for v in 0u32..=0x10ffff {
        if let Some(c) = char::from_u32(v) {
            assert_eq!(is_white_space(c), c.is_whitespace(), "code point {:x}", v);
        }
    }
}
