//! Bounded Damerau–Levenshtein distance between a query, read as a prefix,
//! and a candidate word.
//!
//! The distance counts insertions, deletions, substitutions and swaps of
//! two adjacent characters, each at cost one, each character edited at
//! most once (optimal string alignment). The query is compared with every
//! prefix of the candidate and the best one counts, so characters of the
//! candidate past the aligned part are free. The table is filled one query
//! character at a time, and the computation stops as soon as two
//! consecutive rows exceed the budget: no later row can come back under it.
use vstd::prelude::*;
use crate::text::chars_of;

verus! {

pub open spec fn nat_min(a: nat, b: nat) -> nat {
    if a <= b {
        a
    } else {
        b
    }
}

/// Optimal string alignment distance between the first `i` characters of
/// `q` and the first `j` characters of `w`.
pub open spec fn osa(q: Seq<char>, w: Seq<char>, i: nat, j: nat) -> nat
    decreases i + j,
{
    if i == 0 {
        j
    } else if j == 0 {
        i
    } else {
        let del = (osa(q, w, (i - 1) as nat, j) + 1) as nat;
        let ins = (osa(q, w, i, (j - 1) as nat) + 1) as nat;
        let sub = (osa(q, w, (i - 1) as nat, (j - 1) as nat) + if q[i - 1] == w[j - 1] {
            0nat
        } else {
            1nat
        }) as nat;
        let best = nat_min(nat_min(del, ins), sub);
        if i >= 2 && j >= 2 && q[i - 1] == w[j - 2] && q[i - 2] == w[j - 1] {
            nat_min(best, (osa(q, w, (i - 2) as nat, (j - 2) as nat) + 1) as nat)
        } else {
            best
        }
    }
}

/// The least of `osa(q, w, i, 0)` to `osa(q, w, i, j)`.
pub open spec fn row_min(q: Seq<char>, w: Seq<char>, i: nat, j: nat) -> nat
    decreases j,
{
    if j == 0 {
        osa(q, w, i, 0)
    } else {
        nat_min(row_min(q, w, i, (j - 1) as nat), osa(q, w, i, j))
    }
}

/// The number of edits that turn query `q` into the closest prefix of
/// candidate `w`.
pub open spec fn prefix_dist(q: Seq<char>, w: Seq<char>) -> nat {
    row_min(q, w, q.len(), w.len())
}

/// The result of the bounded matcher: the distance when it is within
/// `max`, and `None` otherwise.
pub open spec fn bounded_prefix_distance(q: Seq<char>, w: Seq<char>, max: nat) -> Option<nat> {
    if prefix_dist(q, w) <= max {
        Some(prefix_dist(q, w))
    } else {
        None
    }
}

/// Aligning `i` characters with `j` never takes more than `max(i, j)`
/// edits.
pub proof fn lemma_osa_at_most(q: Seq<char>, w: Seq<char>, i: nat, j: nat)
    ensures
        osa(q, w, i, j) <= if i <= j {
            j
        } else {
            i
        },
    decreases i + j,
{
    if i > 0 && j > 0 {
        lemma_osa_at_most(q, w, (i - 1) as nat, (j - 1) as nat);
    }
}

/// The least of a row is at most each of its entries.
pub proof fn lemma_row_min(q: Seq<char>, w: Seq<char>, i: nat, j: nat)
    ensures
        forall|k: nat| k <= j ==> row_min(q, w, i, j) <= #[trigger] osa(q, w, i, k),
    decreases j,
{
    if j > 0 {
        lemma_row_min(q, w, i, (j - 1) as nat);
    }
}

/// A bound below every entry of a row is below its least entry.
pub proof fn lemma_row_min_above(q: Seq<char>, w: Seq<char>, i: nat, j: nat, b: nat)
    requires
        forall|k: nat| k <= j ==> b <= #[trigger] osa(q, w, i, k),
    ensures
        b <= row_min(q, w, i, j),
    decreases j,
{
    if j > 0 {
        lemma_row_min_above(q, w, i, (j - 1) as nat, b);
    }
}

/// Two consecutive rows that are all at least `b` keep every later row at
/// least `b`: each edit path to a later row crosses one of them.
pub proof fn lemma_rows_stay_above(q: Seq<char>, w: Seq<char>, i: nat, b: nat, a: nat, j: nat)
    requires
        1 <= i,
        i - 1 <= a,
        j <= w.len(),
        forall|k: nat| k <= w.len() ==> b <= #[trigger] osa(q, w, (i - 1) as nat, k),
        forall|k: nat| k <= w.len() ==> b <= #[trigger] osa(q, w, i, k),
    ensures
        b <= osa(q, w, a, j),
    decreases a, j,
{
    if a > i {
        if j == 0 {
            assert(osa(q, w, i, 0) == i);
        } else {
            lemma_rows_stay_above(q, w, i, b, (a - 1) as nat, j);
            lemma_rows_stay_above(q, w, i, b, a, (j - 1) as nat);
            lemma_rows_stay_above(q, w, i, b, (a - 1) as nat, (j - 1) as nat);
            if a >= 2 && j >= 2 {
                lemma_rows_stay_above(q, w, i, b, (a - 2) as nat, (j - 2) as nat);
            }
        }
    }
}

/// A query that is a literal prefix of the candidate is at distance zero.
pub proof fn lemma_prefix_costs_nothing(q: Seq<char>, w: Seq<char>)
    requires
        q.len() <= w.len(),
        q == w.take(q.len() as int),
    ensures
        prefix_dist(q, w) == 0,
{
    assert forall|k: nat| k <= q.len() implies osa(q, w, k, k) == 0 by {
        lemma_diagonal_zero(q, w, k);
    }
    lemma_row_min(q, w, q.len(), w.len());
    assert(osa(q, w, q.len(), q.len()) == 0);
}

proof fn lemma_diagonal_zero(q: Seq<char>, w: Seq<char>, k: nat)
    requires
        k <= q.len() <= w.len(),
        q == w.take(q.len() as int),
    ensures
        osa(q, w, k, k) == 0,
    decreases k,
{
    if k > 0 {
        lemma_diagonal_zero(q, w, (k - 1) as nat);
        assert(q[k - 1] == w.take(q.len() as int)[k - 1]);
    }
}

proof fn lemma_diagonal_one_change(q: Seq<char>, w: Seq<char>, p: int, k: nat)
    requires
        k <= q.len() <= w.len(),
        forall|t: int| 0 <= t < q.len() && t != p ==> q[t] == w[t],
    ensures
        osa(q, w, k, k) <= if k > p {
            1nat
        } else {
            0nat
        },
    decreases k,
{
    if k > 0 {
        lemma_diagonal_one_change(q, w, p, (k - 1) as nat);
    }
}

/// A query that differs from the start of the candidate in one character
/// only is within one edit of it.
pub proof fn lemma_single_substitution(q: Seq<char>, w: Seq<char>, p: int)
    requires
        0 <= p < q.len() <= w.len(),
        forall|t: int| 0 <= t < q.len() && t != p ==> q[t] == w[t],
    ensures
        prefix_dist(q, w) <= 1,
{
    lemma_diagonal_one_change(q, w, p, q.len());
    lemma_row_min(q, w, q.len(), w.len());
    assert(osa(q, w, q.len(), q.len()) <= 1);
}

/// A word matched against itself is at distance zero, whatever the budget.
pub proof fn lemma_self_distance_zero(s: Seq<char>, max: nat)
    ensures
        bounded_prefix_distance(s, s, max) == Some(0nat),
{
    assert(s == s.take(s.len() as int));
    lemma_prefix_costs_nothing(s, s);
}

/// When the distance exceeds the budget, the matcher reports no match.
pub proof fn lemma_over_budget_is_none(q: Seq<char>, w: Seq<char>, max: nat)
    requires
        prefix_dist(q, w) > max,
    ensures
        bounded_prefix_distance(q, w, max) is None,
{
}

/// Raising the budget never turns a match into no match, and keeps the
/// distance found.
pub proof fn lemma_budget_monotonic(q: Seq<char>, w: Seq<char>, a: nat, b: nat)
    requires
        a <= b,
        bounded_prefix_distance(q, w, a) is Some,
    ensures
        bounded_prefix_distance(q, w, b) == bounded_prefix_distance(q, w, a),
{
}

/// Bounded prefix distance over character vectors.
pub(crate) fn dam_lev_chars(q: &Vec<char>, w: &Vec<char>, max_dist: usize) -> (r: Option<usize>)
    ensures
        r matches Some(d) ==> bounded_prefix_distance(q@, w@, max_dist as nat) == Some(d as nat),
        r is None ==> bounded_prefix_distance(q@, w@, max_dist as nat) is None,
{
    let n = q.len();
    let m = w.len();
    // row 0: aligning nothing of the query with j characters takes j insertions
    let mut prev: Vec<usize> = Vec::new();
    let mut k: usize = 0;
    while k < m
        invariant
            k <= m == w.len(),
            prev.len() == k,
            forall|jj: int| 0 <= jj < k ==> prev[jj] == osa(q@, w@, 0, jj as nat),
        decreases m - k,
    {
        prev.push(k);
        k = k + 1;
    }
    prev.push(m);
    let row_len = prev.len();
    assert(row_len == m + 1);
    let mut prev_min: usize = 0;
    // the row before `prev`; meaningful once `i >= 1`
    let mut prev2: Vec<usize> = Vec::new();
    let mut prev2_min: usize = 0;
    let mut i: usize = 0;
    proof {
        lemma_row_min(q@, w@, 0, m as nat);
        assert(osa(q@, w@, 0, 0) == 0);
    }
    while i < n
        invariant
            n == q.len(),
            m == w.len(),
            row_len == m + 1,
            i <= n,
            prev.len() == m + 1,
            forall|jj: int| 0 <= jj <= m ==> prev[jj] == osa(q@, w@, i as nat, jj as nat),
            prev_min == row_min(q@, w@, i as nat, m as nat),
            i >= 1 ==> prev2.len() == m + 1,
            i >= 1 ==> forall|jj: int|
                0 <= jj <= m ==> prev2[jj] == osa(q@, w@, (i - 1) as nat, jj as nat),
            i >= 1 ==> prev2_min == row_min(q@, w@, (i - 1) as nat, m as nat),
        decreases n - i,
    {
        if i >= 1 && prev_min > max_dist && prev2_min > max_dist {
            proof {
                let b = (max_dist + 1) as nat;
                lemma_row_min(q@, w@, i as nat, m as nat);
                lemma_row_min(q@, w@, (i - 1) as nat, m as nat);
                assert forall|k: nat| k <= m implies b <= #[trigger] osa(q@, w@, n as nat, k) by {
                    lemma_rows_stay_above(q@, w@, i as nat, b, n as nat, k);
                }
                lemma_row_min_above(q@, w@, n as nat, m as nat, b);
            }
            return None;
        }
        let mut cur: Vec<usize> = Vec::new();
        proof {
            lemma_osa_at_most(q@, w@, (i + 1) as nat, 0);
        }
        cur.push(i + 1);
        let mut cur_min: usize = i + 1;
        let mut j: usize = 1;
        while j <= m
            invariant
                n == q.len(),
                m == w.len(),
                m + 1 <= usize::MAX,
                i < n,
                1 <= j <= m + 1,
                prev.len() == m + 1,
                forall|jj: int| 0 <= jj <= m ==> prev[jj] == osa(q@, w@, i as nat, jj as nat),
                i >= 1 ==> prev2.len() == m + 1,
                i >= 1 ==> forall|jj: int|
                    0 <= jj <= m ==> prev2[jj] == osa(q@, w@, (i - 1) as nat, jj as nat),
                cur.len() == j,
                forall|jj: int| 0 <= jj < j ==> cur[jj] == osa(q@, w@, (i + 1) as nat, jj as nat),
                cur_min == row_min(q@, w@, (i + 1) as nat, (j - 1) as nat),
            decreases m + 1 - j,
        {
            proof {
                lemma_osa_at_most(q@, w@, i as nat, j as nat);
                lemma_osa_at_most(q@, w@, (i + 1) as nat, (j - 1) as nat);
                lemma_osa_at_most(q@, w@, i as nat, (j - 1) as nat);
                if i >= 1 && j >= 2 {
                    lemma_osa_at_most(q@, w@, (i - 1) as nat, (j - 2) as nat);
                }
            }
            let del = prev[j] + 1;
            // the insertion only matters when it beats the deletion
            let mut best = if cur[j - 1] < del - 1 {
                cur[j - 1] + 1
            } else {
                del
            };
            let sub = prev[j - 1] + if q[i] == w[j - 1] {
                0
            } else {
                1
            };
            best = if best <= sub {
                best
            } else {
                sub
            };
            if i >= 1 && j >= 2 && q[i] == w[j - 2] && q[i - 1] == w[j - 1] {
                let swap = prev2[j - 2] + 1;
                if swap < best {
                    best = swap;
                }
            }
            assert(best == osa(q@, w@, (i + 1) as nat, j as nat));
            cur.push(best);
            if best < cur_min {
                cur_min = best;
            }
            j = j + 1;
        }
        prev2 = prev;
        prev2_min = prev_min;
        prev = cur;
        prev_min = cur_min;
        i = i + 1;
    }
    if prev_min > max_dist {
        None
    } else {
        Some(prev_min)
    }
}

/// Distance between `prefix_str`, read as a prefix, and `word_str`, or
/// `None` when it exceeds `max_dist`.
pub fn dam_lev_prefix(prefix_str: &str, word_str: &str, max_dist: usize) -> (r: Option<usize>)
    ensures
        r matches Some(d) ==> bounded_prefix_distance(prefix_str@, word_str@, max_dist as nat)
            == Some(d as nat),
        r is None ==> bounded_prefix_distance(prefix_str@, word_str@, max_dist as nat) is None,
{
    let prefix = chars_of(prefix_str);
    let word = chars_of(word_str);
    dam_lev_chars(&prefix, &word, max_dist)
}

} // verus!
