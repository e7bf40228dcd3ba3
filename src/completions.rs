//! Bounded top-K selection of completions by frequency.
//!
//! Candidates arrive one at a time as (word, count). The buffer keeps the
//! best `capacity` of them, ordered by count from high to low; among equal
//! counts, the one that arrived first stays in front.
use vstd::prelude::*;
use crate::index::WordLoc;
use crate::text::lex_lt;

verus! {

/// A candidate word and the number of its occurrences.
pub struct Completion {
    pub completion: String,
    pub count: usize,
}

/// The outcome of a completion query: the best completions, and how many
/// candidates were inspected.
pub struct CompletionsRec {
    pub compl: Vec<Completion>,
    pub total_count: usize,
    /// The largest number of completions kept.
    pub capacity: usize,
}

/// Position at which a candidate of count `c` joins `buf`: after the last
/// entry whose count is at least `c`.
pub open spec fn insert_pos(buf: Seq<(Seq<char>, nat)>, c: nat) -> int
    decreases buf.len(),
{
    if buf.len() == 0 {
        0
    } else if buf.last().1 >= c {
        buf.len() as int
    } else {
        insert_pos(buf.drop_last(), c)
    }
}

pub open spec fn insert_ranked(buf: Seq<(Seq<char>, nat)>, e: (Seq<char>, nat)) -> Seq<
    (Seq<char>, nat),
> {
    buf.insert(insert_pos(buf, e.1), e)
}

/// All candidates ordered by count from high to low, equal counts in order
/// of arrival (a stable sort).
pub open spec fn ranked(items: Seq<(Seq<char>, nat)>) -> Seq<(Seq<char>, nat)>
    decreases items.len(),
{
    if items.len() == 0 {
        seq![]
    } else {
        insert_ranked(ranked(items.drop_last()), items.last())
    }
}

/// The first `k` candidates of the ranking.
pub open spec fn top_ranked(items: Seq<(Seq<char>, nat)>, k: nat) -> Seq<(Seq<char>, nat)> {
    let r = ranked(items);
    if r.len() <= k {
        r
    } else {
        r.take(k as int)
    }
}

/// One step of the bounded buffer: a candidate enters while there is room,
/// or when it beats the last entry, which then leaves.
pub open spec fn offer(buf: Seq<(Seq<char>, nat)>, k: nat, e: (Seq<char>, nat)) -> Seq<
    (Seq<char>, nat),
> {
    if buf.len() < k {
        insert_ranked(buf, e)
    } else if k > 0 && buf.last().1 < e.1 {
        insert_ranked(buf.drop_last(), e)
    } else {
        buf
    }
}

/// Counts never increase along `s`.
pub open spec fn by_count(s: Seq<(Seq<char>, nat)>) -> bool {
    forall|i: int, j: int| 0 <= i < j < s.len() ==> s[i].1 >= s[j].1
}

/// Counts decrease along `s`, and words with equal counts are in
/// increasing order.
pub open spec fn rank_ordered(s: Seq<(Seq<char>, nat)>) -> bool {
    forall|i: int, j: int|
        0 <= i < j < s.len() ==> s[i].1 > s[j].1 || (s[i].1 == s[j].1 && lex_lt(s[i].0, s[j].0))
}

/// The words of `s` are in strictly increasing order.
pub open spec fn words_increasing(s: Seq<(Seq<char>, nat)>) -> bool {
    forall|i: int, j: int| 0 <= i < j < s.len() ==> lex_lt(s[i].0, s[j].0)
}

impl CompletionsRec {
    /// The completions as (word, count) pairs.
    pub open spec fn results(&self) -> Seq<(Seq<char>, nat)> {
        self.compl@.map_values(|c: Completion| (c.completion@, c.count as nat))
    }

    /// An empty buffer that keeps at most `num_compl` completions.
    pub fn new(num_compl: usize) -> (r: CompletionsRec)
        ensures
            r.results() == Seq::<(Seq<char>, nat)>::empty(),
            r.compl.len() == 0,
            r.total_count == 0,
            r.capacity == num_compl,
    {
        let r = CompletionsRec { compl: Vec::new(), total_count: 0, capacity: num_compl };
        assert(r.results() =~= Seq::<(Seq<char>, nat)>::empty());
        r
    }
}

pub proof fn lemma_insert_pos_bounds(buf: Seq<(Seq<char>, nat)>, c: nat)
    ensures
        0 <= insert_pos(buf, c) <= buf.len(),
        forall|j: int| insert_pos(buf, c) <= j < buf.len() ==> buf[j].1 < c,
        insert_pos(buf, c) > 0 ==> buf[insert_pos(buf, c) - 1].1 >= c,
    decreases buf.len(),
{
    if buf.len() > 0 && buf.last().1 < c {
        lemma_insert_pos_bounds(buf.drop_last(), c);
        assert forall|j: int| insert_pos(buf, c) <= j < buf.len() implies buf[j].1 < c by {
            if j < buf.len() - 1 {
                assert(buf.drop_last()[j] == buf[j]);
            }
        }
    }
}

/// Entries past `m` that are all below `c` do not move the insert position.
pub proof fn lemma_insert_pos_take(buf: Seq<(Seq<char>, nat)>, c: nat, m: int)
    requires
        0 <= m <= buf.len(),
        forall|j: int| m <= j < buf.len() ==> buf[j].1 < c,
    ensures
        insert_pos(buf, c) == insert_pos(buf.take(m), c),
    decreases buf.len(),
{
    if buf.len() == m {
        assert(buf.take(m) =~= buf);
    } else {
        assert(buf.drop_last().take(m) =~= buf.take(m));
        lemma_insert_pos_take(buf.drop_last(), c, m);
    }
}

pub proof fn lemma_ranked_sorted(items: Seq<(Seq<char>, nat)>)
    ensures
        by_count(ranked(items)),
        ranked(items).len() == items.len(),
    decreases items.len(),
{
    if items.len() > 0 {
        let r = ranked(items.drop_last());
        let e = items.last();
        lemma_ranked_sorted(items.drop_last());
        lemma_insert_pos_bounds(r, e.1);
        let p = insert_pos(r, e.1);
        let s = insert_ranked(r, e);
        assert forall|i: int, j: int| 0 <= i < j < s.len() implies s[i].1 >= s[j].1 by {
            if j < p {
            } else if j == p {
                assert(r[p - 1].1 >= e.1);
            } else if i < p {
            } else if i == p {
                assert(r[j - 1].1 < e.1);
            } else {
            }
        }
    }
}

/// Every entry of the ranking is one of the candidates.
pub proof fn lemma_ranked_members(items: Seq<(Seq<char>, nat)>, x: (Seq<char>, nat))
    requires
        ranked(items).contains(x),
    ensures
        items.contains(x),
    decreases items.len(),
{
    if items.len() > 0 {
        let r = ranked(items.drop_last());
        lemma_insert_pos_bounds(r, items.last().1);
        let p = insert_pos(r, items.last().1);
        let k = choose|k: int| 0 <= k < ranked(items).len() && ranked(items)[k] == x;
        if k < p {
            assert(r[k] == x);
            lemma_ranked_members(items.drop_last(), x);
        } else if k == p {
            assert(items[items.len() - 1] == x);
        } else {
            assert(r[k - 1] == x);
            lemma_ranked_members(items.drop_last(), x);
        }
        let i = choose|i: int| 0 <= i < items.len() && items[i] == x;
        assert(items[i] == x);
    }
}

/// Candidates that arrive in increasing word order are ranked by count,
/// and by word among equal counts.
pub proof fn lemma_ranked_ordered(items: Seq<(Seq<char>, nat)>)
    requires
        words_increasing(items),
    ensures
        rank_ordered(ranked(items)),
    decreases items.len(),
{
    if items.len() > 0 {
        let prev = items.drop_last();
        let r = ranked(prev);
        let e = items.last();
        assert(words_increasing(prev)) by {
            assert forall|i: int, j: int| 0 <= i < j < prev.len() implies lex_lt(
                prev[i].0,
                prev[j].0,
            ) by {
                assert(prev[i] == items[i] && prev[j] == items[j]);
            }
        }
        lemma_ranked_ordered(prev);
        lemma_ranked_sorted(prev);
        lemma_insert_pos_bounds(r, e.1);
        let p = insert_pos(r, e.1);
        let s = insert_ranked(r, e);
        assert forall|i: int, j: int| 0 <= i < j < s.len() implies s[i].1 > s[j].1 || (s[i].1
            == s[j].1 && lex_lt(s[i].0, s[j].0)) by {
            if j == p {
                assert(r.contains(r[i]));
                lemma_ranked_members(prev, r[i]);
                let m = choose|m: int| 0 <= m < prev.len() && prev[m] == r[i];
                assert(lex_lt(items[m].0, items[items.len() - 1].0));
            } else if i == p {
                assert(r[j - 1].1 < e.1);
            } else if j < p {
            } else if i < p {
            } else {
            }
        }
    }
}

/// The bounded buffer, fed candidates one by one, holds the first `k`
/// entries of the full ranking.
pub proof fn lemma_offer_keeps_top(items: Seq<(Seq<char>, nat)>, k: nat, e: (Seq<char>, nat))
    ensures
        offer(top_ranked(items, k), k, e) == top_ranked(items.push(e), k),
{
    let r = ranked(items);
    assert(items.push(e).drop_last() =~= items);
    assert(ranked(items.push(e)) == insert_ranked(r, e));
    lemma_ranked_sorted(items);
    lemma_insert_pos_bounds(r, e.1);
    let p = insert_pos(r, e.1);
    let r2 = insert_ranked(r, e);
    if r.len() < k {
    } else {
        let buf = top_ranked(items, k);
        assert(buf =~= r.take(k as int));
        if k == 0 {
            assert(r2.take(0) =~= buf);
        } else if buf.last().1 >= e.1 {
            assert(r[k - 1].1 >= e.1);
            assert(p >= k);
            assert(r2.take(k as int) =~= buf);
        } else {
            assert(r[k - 1].1 < e.1);
            assert(p <= k - 1);
            assert forall|j: int| k - 1 <= j < r.len() implies r[j].1 < e.1 by {
                assert(r[k - 1].1 >= r[j].1 || j == k - 1);
            }
            lemma_insert_pos_take(r, e.1, k - 1);
            assert(buf.drop_last() =~= r.take(k - 1));
            assert(insert_ranked(buf.drop_last(), e) =~= r2.take(k as int));
        }
    }
}

/// Ranking candidates that arrive in increasing word order keeps at most
/// `k` of them, by count from high to low and by word among equal counts.
pub proof fn lemma_top_ranked_ordered(items: Seq<(Seq<char>, nat)>, k: nat)
    requires
        words_increasing(items),
    ensures
        rank_ordered(top_ranked(items, k)),
        top_ranked(items, k).len() <= k,
        top_ranked(items, k).len() <= items.len(),
{
    lemma_ranked_sorted(items);
    lemma_ranked_ordered(items);
}

/// Offers the candidate `kv` (a word and its occurrences) to the buffer
/// `state`, and counts it as inspected.
pub fn top_completions(state: CompletionsRec, kv: (&String, &Vec<WordLoc>)) -> (r: CompletionsRec)
    requires
        state.compl.len() <= state.capacity,
        state.total_count < usize::MAX,
    ensures
        r.capacity == state.capacity,
        r.total_count == state.total_count + 1,
        r.compl.len() <= r.capacity,
        r.results() == offer(state.results(), state.capacity as nat, (kv.0@, kv.1.len() as nat)),
{
    let mut state = state;
    let ghost buf = state.results();
    state.total_count = state.total_count + 1;
    let count = kv.1.len();
    let n = state.compl.len();
    if n < state.capacity || (n > 0 && state.compl[n - 1].count < count) {
        if n == state.capacity {
            state.compl.pop();
            assert(state.results() =~= buf.drop_last());
        }
        let ghost cur = state.results();
        let new_compl = Completion { completion: kv.0.clone(), count };
        let mut i = state.compl.len();
        assert(cur.take(i as int) =~= cur);
        while i > 0 && count > state.compl[i - 1].count
            invariant
                i <= state.compl.len(),
                cur == state.results(),
                insert_pos(cur, count as nat) == insert_pos(cur.take(i as int), count as nat),
            decreases i,
        {
            assert(cur.take(i as int).drop_last() =~= cur.take(i - 1));
            i = i - 1;
        }
        assert(insert_pos(cur, count as nat) == i) by {
            if i > 0 {
                assert(cur.take(i as int).last() == cur[i - 1]);
            }
        }
        state.compl.insert(i, new_compl);
        assert(state.results() =~= cur.insert(i as int, (kv.0@, count as nat)));
    }
    state
}

} // verus!
