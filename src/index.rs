//! The word index: every normalized word of a corpus with the places where
//! it occurs, kept in increasing word order.
use vstd::prelude::*;
use crate::completions::{
    lemma_offer_keeps_top, lemma_top_ranked_ordered, rank_ordered, top_completions, top_ranked,
    CompletionsRec,
};
use crate::corpus::{
    fits, located, locations, occurrences, record_views, represents, words_sorted, MAX_RECORDS,
    MAX_TOKENS,
};
use crate::levenshtein::dam_lev_chars;
use crate::normalize::{normalize_chars, normalized};
use crate::selection::{
    lemma_prefix_candidates_distinct, lemma_select_none_after, lemma_select_none_before, lemma_select_sorted, lemma_select_step, near_but_not_prefixed,
    prefixed_by, select, words_with_prefix,
};
use crate::text::{
    chars_of, compare_chars, has_prefix, is_white_space, lemma_lex_irreflexive, lemma_lex_total,
    lemma_lex_transitive, lemma_prefix_between, lemma_prefix_not_after, lemma_tokens_grow, lex_lt,
    split_state, starts_with_chars, string_of, tokens,
};

verus! {

/// One occurrence of a word: the record it is in, and its token position
/// within that record (both counted from zero).
#[derive(Clone, Copy, Debug, PartialEq, Eq, Structural)]
pub struct WordLoc {
    pub line: u32,
    pub word: u16,
}
/// Prefix completions come by count from high to low, and by word among
/// equal counts; there are at most `k` of them; and the number of
/// candidates is the number of distinct words of the index that start with
/// `prefix`.
pub proof fn lemma_completions_ranked(idx: &WordIndex, prefix: Seq<char>, k: nat)
    requires
        idx.wf(),
    ensures
        rank_ordered(top_ranked(select(idx.items(), prefixed_by(prefix)), k)),
        top_ranked(select(idx.items(), prefixed_by(prefix)), k).len() <= k,
        top_ranked(select(idx.items(), prefixed_by(prefix)), k).len() <= select(
            idx.items(),
            prefixed_by(prefix),
        ).len(),
        select(idx.items(), prefixed_by(prefix)).len() == words_with_prefix(
            idx.items(),
            prefix,
        ).len(),
{
    lemma_select_sorted(idx.items(), prefixed_by(prefix));
    lemma_top_ranked_ordered(select(idx.items(), prefixed_by(prefix)), k);
    lemma_prefix_candidates_distinct(idx.items(), prefix);
}
struct Entry {
    key: Vec<char>,
    word: String,
    locs: Vec<WordLoc>,
}

/// Every normalized word of a corpus with its occurrences.
pub struct WordIndex {
    entries: Vec<Entry>,
    record_count: usize,
    word_count: u64,
}

impl WordIndex {
    /// The entries as (word, occurrences), in increasing word order.
    pub closed spec fn items(&self) -> Seq<(Seq<char>, Seq<WordLoc>)> {
        self.entries@.map_values(|e: Entry| (e.key@, e.locs@))
    }

    pub closed spec fn wf(&self) -> bool {
        &&& words_sorted(self.items())
        &&& forall|i: int|
            0 <= i < self.entries.len() ==> (#[trigger] self.entries[i]).word@
                == self.entries[i].key@
    }

    pub closed spec fn num_records(&self) -> nat {
        self.record_count as nat
    }

    pub closed spec fn num_tokens(&self) -> nat {
        self.word_count as nat
    }

    /// Number of records indexed.
    pub fn record_count(&self) -> (r: usize)
        ensures
            r == self.num_records(),
    {
        self.record_count
    }

    /// Number of tokens indexed, before normalization.
    pub fn word_count(&self) -> (r: u64)
        ensures
            r == self.num_tokens(),
    {
        self.word_count
    }

    /// Number of distinct words.
    pub fn len(&self) -> (r: usize)
        ensures
            r == self.items().len(),
    {
        self.entries.len()
    }

    /// Index of the first entry whose word does not sort before `p`.
    fn lower_bound(&self, p: &Vec<char>) -> (r: usize)
        requires
            self.wf(),
        ensures
            r <= self.items().len(),
            forall|j: int| 0 <= j < r ==> lex_lt(#[trigger] self.items()[j].0, p@),
            forall|j: int| r <= j < self.items().len() ==> !lex_lt(#[trigger] self.items()[j].0, p@),
    {
        let ghost items = self.items();
        let mut lo: usize = 0;
        let mut hi: usize = self.entries.len();
        while lo < hi
            invariant
                items == self.items(),
                words_sorted(items),
                0 <= lo <= hi <= items.len() == self.entries.len(),
                forall|j: int| 0 <= j < lo ==> lex_lt(#[trigger] items[j].0, p@),
                forall|j: int| hi <= j < items.len() ==> !lex_lt(#[trigger] items[j].0, p@),
            decreases hi - lo,
        {
            let mid = lo + (hi - lo) / 2;
            assert(items[mid as int].0 == self.entries[mid as int].key@);
            if compare_chars(&self.entries[mid].key, p) < 0 {
                assert forall|j: int| 0 <= j < mid + 1 implies lex_lt(#[trigger] items[j].0, p@) by {
                    if j < mid {
                        lemma_lex_transitive(items[j].0, items[mid as int].0, p@);
                    }
                }
                lo = mid + 1;
            } else {
                assert forall|j: int| mid <= j < items.len() implies !lex_lt(
                    #[trigger] items[j].0,
                    p@,
                ) by {
                    if j > mid && lex_lt(items[j].0, p@) {
                        lemma_lex_transitive(items[mid as int].0, items[j].0, p@);
                    }
                }
                hi = mid;
            }
        }
        lo
    }

    /// Records one more occurrence of `key`, at `loc`.
    fn add(&mut self, key: Vec<char>, loc: WordLoc, Ghost(occ): Ghost<Seq<(Seq<char>, WordLoc)>>)
        requires
            old(self).wf(),
            represents(old(self).items(), occ),
        ensures
            final(self).wf(),
            represents(final(self).items(), occ.push((key@, loc))),
            final(self).record_count == old(self).record_count,
            final(self).word_count == old(self).word_count,
    {
        let ghost items = self.items();
        let ghost occ2 = occ.push((key@, loc));
        assert(occ2.drop_last() =~= occ);
        let pos = self.lower_bound(&key);
        if pos < self.entries.len() && compare_chars(&self.entries[pos].key, &key) == 0 {
            self.entries[pos].locs.push(loc);
            let ghost items2 = self.items();
            assert(items2 =~= items.update(pos as int, (key@, items[pos as int].1.push(loc))));
            assert forall|i: int| 0 <= i < items2.len() implies #[trigger] items2[i].1
                == locations(occ2, items2[i].0) && items2[i].1.len() > 0 by {
                if i != pos {
                    if i < pos {
                        assert(lex_lt(items[i].0, items[pos as int].0));
                    } else {
                        assert(lex_lt(items[pos as int].0, items[i].0));
                    }
                    lemma_lex_irreflexive(key@);
                }
            }
            assert forall|w: Seq<char>| #[trigger] locations(occ2, w).len() > 0 implies exists|
                i: int,
            | 0 <= i < items2.len() && items2[i].0 == w by {
                if w != key@ {
                    assert(locations(occ, w).len() > 0);
                    let i = choose|i: int| 0 <= i < items.len() && items[i].0 == w;
                    assert(items2[i].0 == w);
                } else {
                    assert(items2[pos as int].0 == w);
                }
            }
            assert(self.entries[pos as int].word@ == self.entries[pos as int].key@);
        } else {
            assert forall|i: int| 0 <= i < items.len() implies items[i].0 != key@ by {
                if i < pos {
                    lemma_lex_irreflexive(key@);
                } else if i > pos && items[i].0 == key@ {
                    assert(lex_lt(items[pos as int].0, items[i].0));
                }
            }
            assert(locations(occ, key@).len() == 0);
            let word = string_of(&key);
            let mut locs: Vec<WordLoc> = Vec::new();
            locs.push(loc);
            let ghost k = key@;
            let e = Entry { key, word, locs };
            self.entries.insert(pos, e);
            let ghost items2 = self.items();
            assert(items2 =~= items.insert(pos as int, (k, seq![loc])));
            assert(locations(occ2, k) =~= seq![loc]);
            assert forall|i: int, j: int| 0 <= i < j < items2.len() implies lex_lt(
                items2[i].0,
                items2[j].0,
            ) by {
                if j < pos {
                } else if j == pos {
                } else if i < pos {
                    lemma_lex_total(k, items[j - 1].0);
                    lemma_lex_transitive(items[i].0, k, items[j - 1].0);
                } else if i == pos {
                    lemma_lex_total(k, items[j - 1].0);
                } else {
                }
            }
            assert forall|i: int| 0 <= i < items2.len() implies #[trigger] items2[i].1
                == locations(occ2, items2[i].0) && items2[i].1.len() > 0 by {
                if i < pos {
                    assert(items2[i] == items[i]);
                } else if i > pos {
                    assert(items2[i] == items[i - 1]);
                }
            }
            assert forall|w: Seq<char>| #[trigger] locations(occ2, w).len() > 0 implies exists|
                i: int,
            | 0 <= i < items2.len() && items2[i].0 == w by {
                if w != k {
                    assert(locations(occ, w).len() > 0);
                    let i = choose|i: int| 0 <= i < items.len() && items[i].0 == w;
                    if i < pos {
                        assert(items2[i].0 == w);
                    } else {
                        assert(items2[i + 1].0 == w);
                    }
                } else {
                    assert(items2[pos as int].0 == w);
                }
            }
            assert forall|i: int| 0 <= i < self.entries.len() implies (
            #[trigger] self.entries[i]).word@ == self.entries[i].key@ by {
                if i < pos {
                    assert(self.entries[i] == old(self).entries[i]);
                } else if i > pos {
                    assert(self.entries[i] == old(self).entries[i - 1]);
                }
            }
        }
    }

    /// Indexes the tokens of one record, `line`, numbered `r`; `false`,
    /// with the index left unspecified, when the record has more tokens
    /// than can be addressed.
    fn add_record(&mut self, line: &str, r: usize, Ghost(before): Ghost<Seq<(Seq<char>, WordLoc)>>) -> (ok: bool)
        requires
            old(self).wf(),
            represents(old(self).items(), before),
            r < MAX_RECORDS,
            old(self).word_count <= r * MAX_TOKENS,
        ensures
            ok <==> tokens(line@).len() <= MAX_TOKENS,
            ok ==> final(self).wf(),
            ok ==> represents(final(self).items(), before + located(tokens(line@), r as int)),
            ok ==> final(self).word_count == old(self).word_count + tokens(line@).len(),
            final(self).record_count == old(self).record_count,
    {
        let mut cur: Vec<char> = Vec::new();
        let mut pos: usize = 0;
        let ghost start_count = self.word_count;
        assert(before + located(seq![], r as int) =~= before);
        for c in it: line.chars()
            invariant
                self.wf(),
                r < MAX_RECORDS,
                start_count <= r * MAX_TOKENS,
                it.seq() == line@,
                pos <= MAX_TOKENS,
                split_state(line@.take(it.index() as int)).0.len() == pos,
                split_state(line@.take(it.index() as int)).1 == cur@,
                represents(
                    self.items(),
                    before + located(split_state(line@.take(it.index() as int)).0, r as int),
                ),
                self.word_count == start_count + pos,
                self.record_count == old(self).record_count,
        {
            let ghost seen = line@.take(it.index() as int);
            let ghost seen2 = line@.take(it.index() + 1);
            assert(seen2.drop_last() =~= seen);
            let ghost done = split_state(seen).0;
            if is_white_space(c) {
                if cur.len() > 0 {
                    if pos >= MAX_TOKENS {
                        proof {
                            lemma_tokens_grow(line@, it.index() + 1);
                        }
                        return false;
                    }
                    let key = normalize_chars(&cur);
                    let loc = WordLoc { line: r as u32, word: pos as u16 };
                    let ghost occ = before + located(done, r as int);
                    assert(located(done.push(cur@), r as int) =~= located(done, r as int).push(
                        (normalized(cur@), loc),
                    ));
                    assert(occ.push((key@, loc)) =~= before + located(done.push(cur@), r as int));
                    self.add(key, loc, Ghost(occ));
                    self.word_count = self.word_count + 1;
                    pos = pos + 1;
                    cur = Vec::new();
                }
            } else {
                cur.push(c);
            }
        }
        assert(line@.take(line@.len() as int) =~= line@);
        if cur.len() > 0 {
            if pos >= MAX_TOKENS {
                return false;
            }
            let ghost done = split_state(line@).0;
            let key = normalize_chars(&cur);
            let loc = WordLoc { line: r as u32, word: pos as u16 };
            let ghost occ = before + located(done, r as int);
            assert(located(done.push(cur@), r as int) =~= located(done, r as int).push(
                (normalized(cur@), loc),
            ));
            assert(occ.push((key@, loc)) =~= before + located(done.push(cur@), r as int));
            self.add(key, loc, Ghost(occ));
            self.word_count = self.word_count + 1;
        }
        true
    }

    /// Indexes every token of `records`: record `r`, token `p` (counted
    /// before normalization) is found at `WordLoc { line: r, word: p }`.
    /// `None` when there are too many records or a record has too many
    /// tokens to be addressed.
    pub fn build_index(records: &Vec<String>) -> (r: Option<WordIndex>)
        ensures
            r is None <==> !fits(record_views(records@)),
            r matches Some(idx) ==> {
                &&& idx.wf()
                &&& represents(idx.items(), occurrences(record_views(records@)))
                &&& idx.num_records() == records.len()
                &&& idx.num_tokens() == occurrences(record_views(records@)).len()
            },
    {
        let ghost recs = record_views(records@);
        if records.len() as u64 > MAX_RECORDS {
            return None;
        }
        let mut idx = WordIndex { entries: Vec::new(), record_count: 0, word_count: 0 };
        assert(idx.items() =~= Seq::<(Seq<char>, Seq<WordLoc>)>::empty());
        assert(recs.take(0) =~= Seq::<Seq<char>>::empty());
        for r in 0..records.len()
            invariant
                recs == record_views(records@),
                records.len() <= MAX_RECORDS,
                idx.wf(),
                represents(idx.items(), occurrences(recs.take(r as int))),
                idx.record_count == r,
                idx.word_count == occurrences(recs.take(r as int)).len(),
                idx.word_count <= r * MAX_TOKENS,
                forall|q: int| 0 <= q < r ==> tokens(#[trigger] recs[q]).len() <= MAX_TOKENS,
        {
            let ghost before = occurrences(recs.take(r as int));
            assert(recs.take(r + 1).drop_last() =~= recs.take(r as int));
            assert(recs[r as int] == records[r as int]@);
            let ok = idx.add_record(records[r].as_str(), r, Ghost(before));
            if !ok {
                return None;
            }
            idx.record_count = idx.record_count + 1;
        }
        assert(recs.take(records.len() as int) =~= recs);
        Some(idx)
    }

    /// The `num_completions` most frequent words that start with
    /// `check_word`, and the number of words that do.
    pub fn find_completions(&self, check_word: &String, num_completions: usize) -> (r:
        CompletionsRec)
        requires
            self.wf(),
        ensures
            r.capacity == num_completions,
            r.compl.len() <= num_completions,
            r.results() == top_ranked(
                select(self.items(), prefixed_by(check_word@)),
                num_completions as nat,
            ),
            r.total_count == select(self.items(), prefixed_by(check_word@)).len(),
    {
        let ghost items = self.items();
        let ghost keep = prefixed_by(check_word@);
        let p = chars_of(check_word.as_str());
        let lb = self.lower_bound(&p);
        proof {
            assert forall|j: int| 0 <= j < lb implies !keep(#[trigger] items[j].0) by {
                if has_prefix(p@, items[j].0) {
                    lemma_prefix_not_after(p@, items[j].0);
                }
            }
            lemma_select_none_before(items, keep, lb as int);
        }
        let mut state = CompletionsRec::new(num_completions);
        let mut i = lb;
        loop
            invariant
                items == self.items(),
                self.wf(),
                keep == prefixed_by(check_word@),
                p@ == check_word@,
                lb <= i <= items.len() == self.entries.len(),
                forall|j: int| lb <= j < items.len() ==> !lex_lt(#[trigger] items[j].0, p@),
                state.capacity == num_completions,
                state.compl.len() <= num_completions,
                state.results() == top_ranked(
                    select(items.take(i as int), keep),
                    num_completions as nat,
                ),
                state.total_count == select(items.take(i as int), keep).len(),
                state.total_count <= i,
            ensures
                state.capacity == num_completions,
                state.compl.len() <= num_completions,
                state.results() == top_ranked(select(items, keep), num_completions as nat),
                state.total_count == select(items, keep).len(),
            decreases items.len() - i,
        {
            if i >= self.entries.len() {
                assert(items.take(i as int) =~= items);
                break;
            }
            assert(items[i as int].0 == self.entries[i as int].key@);
            if !starts_with_chars(&p, &self.entries[i].key) {
                proof {
                    assert forall|j: int| i <= j < items.len() implies !keep(
                        #[trigger] items[j].0,
                    ) by {
                        if j > i && has_prefix(p@, items[j].0) {
                            lemma_prefix_between(p@, items[i as int].0, items[j].0);
                        }
                    }
                    lemma_select_none_after(items, keep, i as int);
                }
                break;
            }
            proof {
                lemma_select_step(items, keep, i as int);
                lemma_offer_keeps_top(
                    select(items.take(i as int), keep),
                    num_completions as nat,
                    (items[i as int].0, items[i as int].1.len()),
                );
            }
            let e = &self.entries[i];
            state = top_completions(state, (&e.word, &e.locs));
            i = i + 1;
        }
        state
    }

    /// The `num_completions` most frequent words that do not start with
    /// `check_word` but are within `max_dist` of it, and the number of such
    /// words.
    pub fn find_dl_completions(&self, check_word: &String, num_completions: usize, max_dist: usize)
        -> (r: CompletionsRec)
        requires
            self.wf(),
        ensures
            r.capacity == num_completions,
            r.compl.len() <= num_completions,
            r.results() == top_ranked(
                select(self.items(), near_but_not_prefixed(check_word@, max_dist as nat)),
                num_completions as nat,
            ),
            r.total_count == select(
                self.items(),
                near_but_not_prefixed(check_word@, max_dist as nat),
            ).len(),
    {
        let ghost items = self.items();
        let ghost keep = near_but_not_prefixed(check_word@, max_dist as nat);
        let p = chars_of(check_word.as_str());
        let mut state = CompletionsRec::new(num_completions);
        assert(items.take(0) =~= Seq::<(Seq<char>, Seq<WordLoc>)>::empty());
        for i in 0..self.entries.len()
            invariant
                items == self.items(),
                self.wf(),
                keep == near_but_not_prefixed(check_word@, max_dist as nat),
                p@ == check_word@,
                items.len() == self.entries.len(),
                state.capacity == num_completions,
                state.compl.len() <= num_completions,
                state.results() == top_ranked(
                    select(items.take(i as int), keep),
                    num_completions as nat,
                ),
                state.total_count == select(items.take(i as int), keep).len(),
                state.total_count <= i,
        {
            proof {
                lemma_select_step(items, keep, i as int);
                lemma_offer_keeps_top(
                    select(items.take(i as int), keep),
                    num_completions as nat,
                    (items[i as int].0, items[i as int].1.len()),
                );
            }
            let e = &self.entries[i];
            assert(items[i as int].0 == e.key@);
            if !starts_with_chars(&p, &e.key) {
                if let Some(_) = dam_lev_chars(&p, &e.key, max_dist) {
                    state = top_completions(state, (&e.word, &e.locs));
                }
            }
        }
        assert(items.take(items.len() as int) =~= items);
        state
    }

    /// The occurrences of `search_str`, if it is a word of the index.
    pub fn find_matches(&self, search_str: &str) -> (r: Option<&Vec<WordLoc>>)
        requires
            self.wf(),
        ensures
            r matches Some(v) ==> exists|i: int|
                0 <= i < self.items().len() && self.items()[i].0 == search_str@ && self.items()[i].1
                    == v@,
            r is None ==> forall|i: int|
                0 <= i < self.items().len() ==> self.items()[i].0 != search_str@,
    {
        let w = chars_of(search_str);
        let pos = self.lower_bound(&w);
        let ghost items = self.items();
        if pos < self.entries.len() && compare_chars(&self.entries[pos].key, &w) == 0 {
            assert(items[pos as int].0 == w@);
            Some(&self.entries[pos].locs)
        } else {
            assert forall|i: int| 0 <= i < items.len() implies items[i].0 != search_str@ by {
                if i < pos {
                    lemma_lex_irreflexive(w@);
                } else if i > pos && items[i].0 == w@ {
                    assert(lex_lt(items[pos as int].0, items[i].0));
                }
            }
            None
        }
    }
}

} // verus!
