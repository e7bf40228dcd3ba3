//! The occurrence model of a corpus: which normalized word stands at which
//! record and token position, and what an index of it must hold.
use vstd::prelude::*;
use crate::index::{WordIndex, WordLoc};
use crate::normalize::normalized;
use crate::text::{lemma_lex_irreflexive, lex_lt, tokens};

verus! {

/// The largest number of records an index can address.
pub const MAX_RECORDS: u64 = 0x1_0000_0000;

/// The largest number of tokens a record can hold.
pub const MAX_TOKENS: usize = 0x1_0000;

/// Tokens `toks` of record `r`, each normalized and paired with its place.
pub open spec fn located(toks: Seq<Seq<char>>, r: int) -> Seq<(Seq<char>, WordLoc)> {
    toks.map(|p: int, t: Seq<char>| (normalized(t), WordLoc { line: r as u32, word: p as u16 }))
}

/// Every occurrence in `recs`, record by record, token by token.
pub open spec fn occurrences(recs: Seq<Seq<char>>) -> Seq<(Seq<char>, WordLoc)>
    decreases recs.len(),
{
    if recs.len() == 0 {
        seq![]
    } else {
        occurrences(recs.drop_last()) + located(tokens(recs.last()), recs.len() - 1)
    }
}

/// The places of word `w` among `occ`, in order.
pub open spec fn locations(occ: Seq<(Seq<char>, WordLoc)>, w: Seq<char>) -> Seq<WordLoc>
    decreases occ.len(),
{
    if occ.len() == 0 {
        seq![]
    } else if occ.last().0 == w {
        locations(occ.drop_last(), w).push(occ.last().1)
    } else {
        locations(occ.drop_last(), w)
    }
}

/// Whether every record and every token position of `recs` can be
/// addressed.
pub open spec fn fits(recs: Seq<Seq<char>>) -> bool {
    &&& recs.len() <= MAX_RECORDS
    &&& forall|r: int| 0 <= r < recs.len() ==> tokens(#[trigger] recs[r]).len() <= MAX_TOKENS
}

pub open spec fn record_views(records: Seq<String>) -> Seq<Seq<char>> {
    records.map_values(|s: String| s@)
}

/// Entries in strictly increasing word order.
pub open spec fn words_sorted(items: Seq<(Seq<char>, Seq<WordLoc>)>) -> bool {
    forall|i: int, j: int| 0 <= i < j < items.len() ==> lex_lt(items[i].0, items[j].0)
}

/// `items` holds exactly the words of `occ`, in increasing order, each with
/// all its places.
pub open spec fn represents(
    items: Seq<(Seq<char>, Seq<WordLoc>)>,
    occ: Seq<(Seq<char>, WordLoc)>,
) -> bool {
    &&& words_sorted(items)
    &&& forall|i: int|
        0 <= i < items.len() ==> #[trigger] items[i].1 == locations(occ, items[i].0)
            && items[i].1.len() > 0
    &&& forall|w: Seq<char>|
        #[trigger] locations(occ, w).len() > 0 ==> exists|i: int|
            0 <= i < items.len() && items[i].0 == w
}
/// Strict order of places: by record, then by position.
pub open spec fn loc_lt(a: WordLoc, b: WordLoc) -> bool {
    a.line < b.line || (a.line == b.line && a.word < b.word)
}

/// The places along `occ` are strictly increasing.
pub open spec fn places_increasing(occ: Seq<(Seq<char>, WordLoc)>) -> bool {
    forall|a: int, b: int| 0 <= a < b < occ.len() ==> loc_lt(occ[a].1, occ[b].1)
}

/// The `m`-th place of `w` is the place of some occurrence of `w`.
pub proof fn lemma_location_source(occ: Seq<(Seq<char>, WordLoc)>, w: Seq<char>, m: int) -> (k:
    int)
    requires
        0 <= m < locations(occ, w).len(),
    ensures
        0 <= k < occ.len(),
        occ[k].0 == w,
        occ[k].1 == locations(occ, w)[m],
    decreases occ.len(),
{
    let prev = occ.drop_last();
    if occ.last().0 == w && m == locations(prev, w).len() {
        occ.len() - 1
    } else {
        let k = lemma_location_source(prev, w, m);
        assert(occ[k] == prev[k]);
        k
    }
}

/// Every occurrence of a word is among its places.
pub proof fn lemma_location_found(occ: Seq<(Seq<char>, WordLoc)>, k: int)
    requires
        0 <= k < occ.len(),
    ensures
        locations(occ, occ[k].0).contains(occ[k].1),
    decreases occ.len(),
{
    let prev = occ.drop_last();
    let w = occ[k].0;
    if k == occ.len() - 1 {
        assert(locations(occ, w).last() == occ[k].1);
    } else {
        assert(prev[k] == occ[k]);
        lemma_location_found(prev, k);
        let m = choose|m: int| 0 <= m < locations(prev, w).len() && locations(prev, w)[m] == occ[k].1;
        assert(locations(occ, w)[m] == occ[k].1);
    }
}

/// The places of a word inherit the order of all places.
pub proof fn lemma_locations_increasing(occ: Seq<(Seq<char>, WordLoc)>, w: Seq<char>)
    requires
        places_increasing(occ),
    ensures
        forall|a: int, b: int|
            0 <= a < b < locations(occ, w).len() ==> loc_lt(
                locations(occ, w)[a],
                locations(occ, w)[b],
            ),
    decreases occ.len(),
{
    if occ.len() > 0 {
        let prev = occ.drop_last();
        assert(places_increasing(prev)) by {
            assert forall|a: int, b: int| 0 <= a < b < prev.len() implies loc_lt(
                prev[a].1,
                prev[b].1,
            ) by {
                assert(prev[a] == occ[a] && prev[b] == occ[b]);
            }
        }
        lemma_locations_increasing(prev, w);
        let lp = locations(prev, w);
        let l = locations(occ, w);
        if occ.last().0 == w {
            assert forall|a: int, b: int| 0 <= a < b < l.len() implies loc_lt(l[a], l[b]) by {
                if b < lp.len() {
                    assert(l[a] == lp[a] && l[b] == lp[b]);
                } else {
                    let k = lemma_location_source(prev, w, a);
                    assert(occ[k] == prev[k]);
                    assert(l[b] == occ[occ.len() - 1].1);
                }
            }
        }
    }
}

/// All places of `recs` are in increasing order and name records of `recs`.
pub proof fn lemma_occurrences_increasing(recs: Seq<Seq<char>>)
    requires
        fits(recs),
    ensures
        places_increasing(occurrences(recs)),
        forall|a: int|
            0 <= a < occurrences(recs).len() ==> (#[trigger] occurrences(recs)[a]).1.line
                < recs.len(),
    decreases recs.len(),
{
    if recs.len() > 0 {
        let prev = recs.drop_last();
        assert(fits(prev)) by {
            assert forall|r: int| 0 <= r < prev.len() implies tokens(#[trigger] prev[r]).len()
                <= MAX_TOKENS by {
                assert(prev[r] == recs[r]);
            }
        }
        lemma_occurrences_increasing(prev);
        let a_occ = occurrences(prev);
        let n = recs.len() - 1;
        let toks = tokens(recs[n]);
        assert(recs.last() == recs[n]);
        let l_occ = located(toks, n);
        let occ = occurrences(recs);
        assert(occ == a_occ + l_occ);
        assert forall|a: int| 0 <= a < l_occ.len() implies (#[trigger] l_occ[a]).1.line == n
            && l_occ[a].1.word == a by {}
        assert forall|a: int, b: int| 0 <= a < b < occ.len() implies loc_lt(occ[a].1, occ[b].1) by {
            if b < a_occ.len() {
                assert(occ[a] == a_occ[a] && occ[b] == a_occ[b]);
            } else if a < a_occ.len() {
                assert(occ[a] == a_occ[a]);
                assert(occ[b] == l_occ[b - a_occ.len()]);
            } else {
                assert(occ[a] == l_occ[a - a_occ.len()]);
                assert(occ[b] == l_occ[b - a_occ.len()]);
            }
        }
        assert forall|a: int| 0 <= a < occ.len() implies (#[trigger] occ[a]).1.line < recs.len() by {
            if a < a_occ.len() {
                assert(occ[a] == a_occ[a]);
            } else {
                assert(occ[a] == l_occ[a - a_occ.len()]);
            }
        }
    }
}

/// Token `p` of record `r` is among the occurrences, at its place.
pub proof fn lemma_token_occurs(recs: Seq<Seq<char>>, r: int, p: int) -> (k: int)
    requires
        0 <= r < recs.len(),
        0 <= p < tokens(recs[r]).len(),
    ensures
        0 <= k < occurrences(recs).len(),
        occurrences(recs)[k] == (
            normalized(tokens(recs[r])[p]),
            WordLoc { line: r as u32, word: p as u16 },
        ),
    decreases recs.len(),
{
    let prev = recs.drop_last();
    let a_occ = occurrences(prev);
    let n = recs.len() - 1;
    assert(occurrences(recs) == a_occ + located(tokens(recs.last()), n));
    if r == n {
        a_occ.len() + p
    } else {
        assert(prev[r] == recs[r]);
        lemma_token_occurs(prev, r, p)
    }
}

/// Every token of every record is found under its normalized word, at its
/// record and position; and the places of each word are in increasing
/// (record, position) order.
pub proof fn lemma_tokens_found_in_order(idx: &WordIndex, recs: Seq<Seq<char>>, r: int, p: int)
    requires
        fits(recs),
        represents(idx.items(), occurrences(recs)),
        0 <= r < recs.len(),
        0 <= p < tokens(recs[r]).len(),
    ensures
        r as u32 == r,
        p as u16 == p,
        exists|i: int|
            0 <= i < idx.items().len() && idx.items()[i].0 == normalized(tokens(recs[r])[p])
                && idx.items()[i].1.contains(WordLoc { line: r as u32, word: p as u16 }),
        forall|i: int, a: int, b: int|
            0 <= i < idx.items().len() && 0 <= a < b < idx.items()[i].1.len() ==> loc_lt(
                idx.items()[i].1[a],
                idx.items()[i].1[b],
            ),
{
    let items = idx.items();
    let occ = occurrences(recs);
    let k = lemma_token_occurs(recs, r, p);
    lemma_location_found(occ, k);
    let w = occ[k].0;
    assert(locations(occ, w).len() > 0);
    let i = choose|i: int| 0 <= i < items.len() && items[i].0 == w;
    assert(items[i].1 == locations(occ, items[i].0));
    lemma_occurrences_increasing(recs);
    assert forall|i: int, a: int, b: int|
        0 <= i < items.len() && 0 <= a < b < items[i].1.len() implies loc_lt(
        items[i].1[a],
        items[i].1[b],
    ) by {
        assert(items[i].1 == locations(occ, items[i].0));
        lemma_locations_increasing(occ, items[i].0);
    }
}

/// Words that occur are exactly those with places.
pub proof fn lemma_occurs_iff_located(occ: Seq<(Seq<char>, WordLoc)>, w: Seq<char>)
    ensures
        locations(occ, w).len() > 0 <==> exists|k: int| 0 <= k < occ.len() && occ[k].0 == w,
{
    if locations(occ, w).len() > 0 {
        let k = lemma_location_source(occ, w, 0);
    }
    if exists|k: int| 0 <= k < occ.len() && occ[k].0 == w {
        let k = choose|k: int| 0 <= k < occ.len() && occ[k].0 == w;
        lemma_location_found(occ, k);
    }
}

/// The index holds one entry per distinct normalized token, the empty word
/// included when some token normalizes to nothing.
pub proof fn lemma_size_is_distinct_words(idx: &WordIndex, recs: Seq<Seq<char>>)
    requires
        represents(idx.items(), occurrences(recs)),
    ensures
        idx.items().len() == occurrences(recs).map_values(
            |o: (Seq<char>, WordLoc)| o.0,
        ).to_set().len(),
{
    let items = idx.items();
    let occ = occurrences(recs);
    let keys = items.map_values(|e: (Seq<char>, Seq<WordLoc>)| e.0);
    let words = occ.map_values(|o: (Seq<char>, WordLoc)| o.0);
    assert forall|w: Seq<char>| keys.to_set().contains(w) <==> words.to_set().contains(w) by {
        lemma_occurs_iff_located(occ, w);
        if keys.to_set().contains(w) {
            assert(keys.contains(w));
            let i = choose|i: int| 0 <= i < keys.len() && keys[i] == w;
            assert(items[i].1 == locations(occ, items[i].0));
            let k = choose|k: int| 0 <= k < occ.len() && occ[k].0 == w;
            assert(words[k] == w);
            assert(words.contains(w));
        }
        if words.to_set().contains(w) {
            assert(words.contains(w));
            let k = choose|k: int| 0 <= k < words.len() && words[k] == w;
            assert(occ[k].0 == w);
            assert(locations(occ, w).len() > 0);
            let i = choose|i: int| 0 <= i < items.len() && items[i].0 == w;
            assert(keys[i] == w);
            assert(keys.contains(w));
        }
    }
    assert(keys.to_set() =~= words.to_set());
    assert(keys.no_duplicates()) by {
        assert forall|a: int, b: int| 0 <= a < keys.len() && 0 <= b < keys.len() && a != b
            implies keys[a] != keys[b] by {
            if a < b {
                assert(lex_lt(items[a].0, items[b].0));
                lemma_lex_irreflexive(items[a].0);
            } else {
                assert(lex_lt(items[b].0, items[a].0));
                lemma_lex_irreflexive(items[b].0);
            }
        }
    }
    keys.unique_seq_to_set();
}
} // verus!
