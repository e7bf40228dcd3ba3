//! Selection of index entries for a query, in index order.
use vstd::prelude::*;
use crate::completions::words_increasing;
use crate::corpus::words_sorted;
use crate::index::WordLoc;
use crate::levenshtein::bounded_prefix_distance;
use crate::text::{has_prefix, lemma_lex_irreflexive, lex_lt};

verus! {

/// The entries of `items` whose word `keep` accepts, as (word, count), in
/// order.
pub open spec fn select(
    items: Seq<(Seq<char>, Seq<WordLoc>)>,
    keep: spec_fn(Seq<char>) -> bool,
) -> Seq<(Seq<char>, nat)>
    decreases items.len(),
{
    if items.len() == 0 {
        seq![]
    } else {
        let rest = select(items.drop_last(), keep);
        let e = items.last();
        if keep(e.0) {
            rest.push((e.0, e.1.len()))
        } else {
            rest
        }
    }
}

pub open spec fn prefixed_by(p: Seq<char>) -> spec_fn(Seq<char>) -> bool {
    |w: Seq<char>| has_prefix(p, w)
}

/// Words that do not start with `p` but are within `max` of it.
pub open spec fn near_but_not_prefixed(p: Seq<char>, max: nat) -> spec_fn(Seq<char>) -> bool {
    |w: Seq<char>| !has_prefix(p, w) && bounded_prefix_distance(p, w, max) is Some
}

pub proof fn lemma_select_step(
    items: Seq<(Seq<char>, Seq<WordLoc>)>,
    keep: spec_fn(Seq<char>) -> bool,
    i: int,
)
    requires
        0 <= i < items.len(),
    ensures
        select(items.take(i + 1), keep) == if keep(items[i].0) {
            select(items.take(i), keep).push((items[i].0, items[i].1.len()))
        } else {
            select(items.take(i), keep)
        },
        select(items.take(i), keep).len() <= i ==> select(items.take(i + 1), keep).len() <= i + 1,
{
    assert(items.take(i + 1).drop_last() =~= items.take(i));
}

pub proof fn lemma_select_none_before(
    items: Seq<(Seq<char>, Seq<WordLoc>)>,
    keep: spec_fn(Seq<char>) -> bool,
    i: int,
)
    requires
        0 <= i <= items.len(),
        forall|j: int| 0 <= j < i ==> !keep(#[trigger] items[j].0),
    ensures
        select(items.take(i), keep) == Seq::<(Seq<char>, nat)>::empty(),
    decreases i,
{
    if i == 0 {
        assert(items.take(0) =~= Seq::<(Seq<char>, Seq<WordLoc>)>::empty());
    } else {
        lemma_select_none_before(items, keep, i - 1);
        lemma_select_step(items, keep, i - 1);
    }
}

pub proof fn lemma_select_none_after(
    items: Seq<(Seq<char>, Seq<WordLoc>)>,
    keep: spec_fn(Seq<char>) -> bool,
    i: int,
)
    requires
        0 <= i <= items.len(),
        forall|j: int| i <= j < items.len() ==> !keep(#[trigger] items[j].0),
    ensures
        select(items, keep) == select(items.take(i), keep),
    decreases items.len() - i,
{
    if i == items.len() {
        assert(items.take(i) =~= items);
    } else {
        lemma_select_none_after(items, keep, i + 1);
        lemma_select_step(items, keep, i);
    }
}

/// The entry of `items` that the `j`-th selected entry comes from.
pub proof fn lemma_select_source(
    items: Seq<(Seq<char>, Seq<WordLoc>)>,
    keep: spec_fn(Seq<char>) -> bool,
    j: int,
) -> (i: int)
    requires
        0 <= j < select(items, keep).len(),
    ensures
        0 <= i < items.len(),
        items[i].0 == select(items, keep)[j].0,
        keep(items[i].0),
        select(items, keep)[j].1 == items[i].1.len(),
    decreases items.len(),
{
    let prev = items.drop_last();
    let sp = select(prev, keep);
    if j < sp.len() {
        let i = lemma_select_source(prev, keep, j);
        assert(items[i] == prev[i]);
        i
    } else {
        items.len() - 1
    }
}

/// Each entry of `items` that `keep` accepts is selected.
pub proof fn lemma_select_complete(
    items: Seq<(Seq<char>, Seq<WordLoc>)>,
    keep: spec_fn(Seq<char>) -> bool,
    i: int,
) -> (j: int)
    requires
        0 <= i < items.len(),
        keep(items[i].0),
    ensures
        0 <= j < select(items, keep).len(),
        select(items, keep)[j].0 == items[i].0,
    decreases items.len(),
{
    let prev = items.drop_last();
    let sp = select(prev, keep);
    if i < prev.len() {
        assert(prev[i] == items[i]);
        let j = lemma_select_complete(prev, keep, i);
        j
    } else {
        sp.len() as int
    }
}

/// Selecting from entries in increasing word order keeps that order.
pub proof fn lemma_select_sorted(
    items: Seq<(Seq<char>, Seq<WordLoc>)>,
    keep: spec_fn(Seq<char>) -> bool,
)
    requires
        words_sorted(items),
    ensures
        words_increasing(select(items, keep)),
    decreases items.len(),
{
    if items.len() > 0 {
        let prev = items.drop_last();
        assert(words_sorted(prev)) by {
            assert forall|i: int, j: int| 0 <= i < j < prev.len() implies lex_lt(
                prev[i].0,
                prev[j].0,
            ) by {
                assert(prev[i] == items[i] && prev[j] == items[j]);
            }
        }
        lemma_select_sorted(prev, keep);
        let s = select(items, keep);
        let sp = select(prev, keep);
        let e = items.last();
        assert(s == if keep(e.0) {
            sp.push((e.0, e.1.len()))
        } else {
            sp
        });
        assert forall|a: int, b: int| 0 <= a < b < s.len() implies lex_lt(s[a].0, s[b].0) by {
            if b < sp.len() {
                assert(s[a] == sp[a] && s[b] == sp[b]);
                assert(lex_lt(sp[a].0, sp[b].0));
            } else {
                assert(s[a] == sp[a]);
                let i = lemma_select_source(prev, keep, a);
                assert(items[i] == prev[i]);
                assert(s[b].0 == items[items.len() - 1].0);
                assert(lex_lt(items[i].0, items[items.len() - 1].0));
            }
        }
    }
}

/// The words of `items` that start with `prefix`.
pub open spec fn words_with_prefix(items: Seq<(Seq<char>, Seq<WordLoc>)>, prefix: Seq<char>) -> Set<
    Seq<char>,
> {
    Set::new(
        |w: Seq<char>| has_prefix(prefix, w) && exists|i: int| 0 <= i < items.len() && items[i].0 == w,
    )
}

/// The candidates of a prefix query are the words with that prefix, each
/// once.
pub proof fn lemma_prefix_candidates_distinct(
    items: Seq<(Seq<char>, Seq<WordLoc>)>,
    prefix: Seq<char>,
)
    requires
        words_sorted(items),
    ensures
        select(items, prefixed_by(prefix)).map_values(|e: (Seq<char>, nat)| e.0).to_set()
            == words_with_prefix(items, prefix),
        select(items, prefixed_by(prefix)).len() == words_with_prefix(items, prefix).len(),
{
    let keep = prefixed_by(prefix);
    let c = select(items, keep);
    lemma_select_sorted(items, keep);
    let words = c.map_values(|e: (Seq<char>, nat)| e.0);
    let target = words_with_prefix(items, prefix);
    assert forall|w: Seq<char>| words.to_set().contains(w) <==> target.contains(w) by {
        if words.to_set().contains(w) {
            assert(words.contains(w));
            let j = choose|j: int| 0 <= j < words.len() && words[j] == w;
            assert(c[j].0 == w);
            let i = lemma_select_source(items, keep, j);
        }
        if target.contains(w) {
            let i = choose|i: int| 0 <= i < items.len() && items[i].0 == w;
            assert(keep(items[i].0));
            let j = lemma_select_complete(items, keep, i);
            assert(words[j] == w);
            assert(words.contains(w));
        }
    }
    assert(words.to_set() =~= target);
    assert(words.no_duplicates()) by {
        assert forall|a: int, b: int| 0 <= a < words.len() && 0 <= b < words.len() && a != b
            implies words[a] != words[b] by {
            if a < b {
                assert(lex_lt(c[a].0, c[b].0));
                lemma_lex_irreflexive(c[a].0);
            } else {
                assert(lex_lt(c[b].0, c[a].0));
                lemma_lex_irreflexive(c[b].0);
            }
        }
    }
    words.unique_seq_to_set();
}
} // verus!
