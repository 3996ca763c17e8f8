use vstd::prelude::*;
use crate::ranking::MatchCandidate;
use vstd::set_lib::{lemma_int_range, lemma_map_size, lemma_set_disjoint_lens, lemma_subset_equality, set_int_range};

verus! {

/// Position `p` of match set `q` exists.
pub open spec fn valid_pos(sets: Seq<Vec<MatchCandidate>>, q: int, p: int) -> bool {
    0 <= q < sets.len() && 0 <= p < sets[q]@.len()
}

/// The number of positions `p < m` of match set `q` that satisfy `pred`.
pub open spec fn count_in_set(q: int, m: int, pred: spec_fn(int, int) -> bool) -> nat
    decreases m,
{
    if m <= 0 {
        0
    } else {
        count_in_set(q, m - 1, pred) + if pred(q, m - 1) {
            1nat
        } else {
            0nat
        }
    }
}

/// The number of positions in the first `k` match sets that satisfy `pred`.
pub open spec fn count_upto(sets: Seq<Vec<MatchCandidate>>, k: int, pred: spec_fn(int, int) -> bool) -> nat
    decreases k,
{
    if k <= 0 {
        0
    } else {
        count_upto(sets, k - 1, pred) + count_in_set(k - 1, sets[k - 1]@.len() as int, pred)
    }
}

/// The number of positions in all match sets that satisfy `pred`.
pub open spec fn count_all(sets: Seq<Vec<MatchCandidate>>, pred: spec_fn(int, int) -> bool) -> nat {
    count_upto(sets, sets.len() as int, pred)
}

/// The positions that name the same candidate as position `(q, p)`.
pub open spec fn same_candidate(sets: Seq<Vec<MatchCandidate>>, q: int, p: int) -> spec_fn(int, int) -> bool {
    |a: int, b: int| sets[a]@[b].row_index == sets[q]@[p].row_index
}

/// Within one candidate's group, position `(a, b)` comes before position `(q, p)`:
/// higher similarity first, then the earlier query, then the earlier position.
pub open spec fn comes_before(sets: Seq<Vec<MatchCandidate>>, a: int, b: int, q: int, p: int) -> bool {
    let sa = sets[a]@[b].similarity;
    let sq = sets[q]@[p].similarity;
    sa > sq || (sa == sq && (a < q || (a == q && b < p)))
}

/// The positions of the same candidate that come before position `(q, p)`.
pub open spec fn ahead_of(sets: Seq<Vec<MatchCandidate>>, q: int, p: int) -> spec_fn(int, int) -> bool {
    |a: int, b: int|
        sets[a]@[b].row_index == sets[q]@[p].row_index && comes_before(sets, a, b, q, p)
}

/// The rank of position `(q, p)` among all queries that chose the same candidate.
pub open spec fn cross_rank(sets: Seq<Vec<MatchCandidate>>, q: int, p: int) -> nat {
    1 + count_all(sets, ahead_of(sets, q, p))
}

/// The number of queries that chose the candidate at position `(q, p)`.
pub open spec fn cross_total(sets: Seq<Vec<MatchCandidate>>, q: int, p: int) -> nat {
    count_all(sets, same_candidate(sets, q, p))
}

/// The number of candidates in all match sets.
pub open spec fn occurrences(sets: Seq<Vec<MatchCandidate>>) -> nat {
    count_all(sets, |a: int, b: int| true)
}

/// `c` carries `rank` and `total` as its cross-query rank.
pub open spec fn ranked_as(c: MatchCandidate, rank: nat, total: nat) -> bool {
    &&& c.rank_for_candidate matches Some(r) && r as nat == rank
    &&& c.rank_total matches Some(t) && t as nat == total
}

proof fn lemma_count_in_set_mono(
    sets: Seq<Vec<MatchCandidate>>,
    q: int,
    m: int,
    p1: spec_fn(int, int) -> bool,
    p2: spec_fn(int, int) -> bool,
)
    requires
        0 <= q < sets.len(),
        m <= sets[q]@.len(),
        forall|b: int| 0 <= b < m && #[trigger] p1(q, b) ==> p2(q, b),
    ensures
        count_in_set(q, m, p1) <= count_in_set(q, m, p2),
    decreases m,
{
    if m > 0 {
        lemma_count_in_set_mono(sets, q, m - 1, p1, p2);
    }
}

proof fn lemma_count_upto_mono(
    sets: Seq<Vec<MatchCandidate>>,
    k: int,
    p1: spec_fn(int, int) -> bool,
    p2: spec_fn(int, int) -> bool,
)
    requires
        k <= sets.len(),
        forall|a: int, b: int| valid_pos(sets, a, b) && #[trigger] p1(a, b) ==> p2(a, b),
    ensures
        count_upto(sets, k, p1) <= count_upto(sets, k, p2),
    decreases k,
{
    if k > 0 {
        lemma_count_upto_mono(sets, k - 1, p1, p2);
        lemma_count_in_set_mono(sets, k - 1, sets[k - 1]@.len() as int, p1, p2);
    }
}

proof fn lemma_count_in_set_strict(
    sets: Seq<Vec<MatchCandidate>>,
    q: int,
    m: int,
    p1: spec_fn(int, int) -> bool,
    p2: spec_fn(int, int) -> bool,
    w: int,
)
    requires
        0 <= q < sets.len(),
        m <= sets[q]@.len(),
        forall|b: int| 0 <= b < m && #[trigger] p1(q, b) ==> p2(q, b),
        0 <= w < m,
        p2(q, w),
        !p1(q, w),
    ensures
        count_in_set(q, m, p1) < count_in_set(q, m, p2),
    decreases m,
{
    if w == m - 1 {
        lemma_count_in_set_mono(sets, q, m - 1, p1, p2);
    } else {
        lemma_count_in_set_strict(sets, q, m - 1, p1, p2, w);
    }
}

proof fn lemma_count_upto_strict(
    sets: Seq<Vec<MatchCandidate>>,
    k: int,
    p1: spec_fn(int, int) -> bool,
    p2: spec_fn(int, int) -> bool,
    wq: int,
    wp: int,
)
    requires
        k <= sets.len(),
        forall|a: int, b: int| valid_pos(sets, a, b) && #[trigger] p1(a, b) ==> p2(a, b),
        valid_pos(sets, wq, wp),
        wq < k,
        p2(wq, wp),
        !p1(wq, wp),
    ensures
        count_upto(sets, k, p1) < count_upto(sets, k, p2),
    decreases k,
{
    if wq == k - 1 {
        lemma_count_upto_mono(sets, k - 1, p1, p2);
        lemma_count_in_set_strict(sets, k - 1, sets[k - 1]@.len() as int, p1, p2, wp);
    } else {
        lemma_count_upto_strict(sets, k - 1, p1, p2, wq, wp);
        lemma_count_in_set_mono(sets, k - 1, sets[k - 1]@.len() as int, p1, p2);
    }
}

proof fn lemma_count_in_set_prefix(q: int, m: int, n: int, pred: spec_fn(int, int) -> bool)
    requires
        m <= n,
    ensures
        count_in_set(q, m, pred) <= count_in_set(q, n, pred),
    decreases n - m,
{
    if m < n {
        lemma_count_in_set_prefix(q, m, n - 1, pred);
    }
}

proof fn lemma_count_upto_prefix(
    sets: Seq<Vec<MatchCandidate>>,
    k: int,
    n: int,
    pred: spec_fn(int, int) -> bool,
)
    requires
        k <= n <= sets.len(),
    ensures
        count_upto(sets, k, pred) <= count_upto(sets, n, pred),
    decreases n - k,
{
    if k < n {
        lemma_count_upto_prefix(sets, k, n - 1, pred);
    }
}

/// Within one candidate's group the rank lies between one and the group's size, a
/// position that comes before another has the smaller rank, and two positions of
/// the group share its size.
pub proof fn lemma_rank_order(sets: Seq<Vec<MatchCandidate>>, q: int, p: int, q2: int, p2: int)
    requires
        valid_pos(sets, q, p),
        valid_pos(sets, q2, p2),
        sets[q2]@[p2].row_index == sets[q]@[p].row_index,
    ensures
        1 <= cross_rank(sets, q, p) <= cross_total(sets, q, p),
        cross_total(sets, q, p) == cross_total(sets, q2, p2),
        comes_before(sets, q, p, q2, p2) ==> cross_rank(sets, q, p) < cross_rank(sets, q2, p2),
        (q, p) != (q2, p2) ==> cross_rank(sets, q, p) != cross_rank(sets, q2, p2),
{
    let n = sets.len() as int;
    let ahead = ahead_of(sets, q, p);
    let same = same_candidate(sets, q, p);
    let same2 = same_candidate(sets, q2, p2);
    lemma_count_upto_strict(sets, n, ahead, same, q, p);
    lemma_count_upto_mono(sets, n, same, same2);
    lemma_count_upto_mono(sets, n, same2, same);
    if comes_before(sets, q, p, q2, p2) {
        lemma_count_upto_strict(sets, n, ahead, ahead_of(sets, q2, p2), q, p);
    }
    if comes_before(sets, q2, p2, q, p) {
        lemma_count_upto_strict(sets, n, ahead_of(sets, q2, p2), ahead, q2, p2);
    }
}

/// A candidate that only one position names has rank one of one.
pub proof fn lemma_single_choice_ranks_first(sets: Seq<Vec<MatchCandidate>>, q: int, p: int)
    requires
        valid_pos(sets, q, p),
        forall|a: int, b: int|
            valid_pos(sets, a, b) && (a, b) != (q, p) ==> #[trigger] sets[a]@[b].row_index
                != sets[q]@[p].row_index,
    ensures
        cross_rank(sets, q, p) == 1,
        cross_total(sets, q, p) == 1,
{
    let n = sets.len() as int;
    let only = |a: int, b: int| a == q && b == p;
    lemma_count_upto_mono(sets, n, same_candidate(sets, q, p), only);
    lemma_count_upto_mono(sets, n, ahead_of(sets, q, p), |a: int, b: int| false);
    lemma_count_upto_strict(sets, n, |a: int, b: int| false, only, q, p);
    lemma_count_upto_mono(sets, n, only, same_candidate(sets, q, p));
    lemma_count_upto_false(sets, n);
    lemma_count_upto_single(sets, n, q, p);
    lemma_rank_order(sets, q, p, q, p);
}

proof fn lemma_count_in_set_false(q: int, m: int)
    ensures
        count_in_set(q, m, |a: int, b: int| false) == 0,
    decreases m,
{
    if m > 0 {
        lemma_count_in_set_false(q, m - 1);
    }
}

proof fn lemma_count_upto_false(sets: Seq<Vec<MatchCandidate>>, k: int)
    ensures
        count_upto(sets, k, |a: int, b: int| false) == 0,
    decreases k,
{
    if k > 0 {
        lemma_count_upto_false(sets, k - 1);
        lemma_count_in_set_false(k - 1, sets[k - 1]@.len() as int);
    }
}

proof fn lemma_count_in_set_single(c: int, m: int, q: int, p: int)
    ensures
        count_in_set(c, m, |a: int, b: int| a == q && b == p) <= 1,
        count_in_set(c, m, |a: int, b: int| a == q && b == p) == 1 ==> c == q && 0 <= p < m,
    decreases m,
{
    if m > 0 {
        lemma_count_in_set_single(c, m - 1, q, p);
    }
}

proof fn lemma_count_upto_single(sets: Seq<Vec<MatchCandidate>>, k: int, q: int, p: int)
    ensures
        count_upto(sets, k, |a: int, b: int| a == q && b == p) <= 1,
        count_upto(sets, k, |a: int, b: int| a == q && b == p) == 1 ==> q < k,
    decreases k,
{
    if k > 0 {
        lemma_count_upto_single(sets, k - 1, q, p);
        lemma_count_in_set_single(k - 1, sets[k - 1]@.len() as int, q, p);
    }
}

/// Counts the positions of the candidate at `(q, p)`: those that come before it,
/// and all of them.
fn count_group(sets: &Vec<Vec<MatchCandidate>>, q: usize, p: usize) -> (r: (usize, usize))
    requires
        valid_pos(sets@, q as int, p as int),
        occurrences(sets@) <= usize::MAX,
    ensures
        r.0 == count_all(sets@, ahead_of(sets@, q as int, p as int)),
        r.1 == count_all(sets@, same_candidate(sets@, q as int, p as int)),
{
    let ghost s = sets@;
    let ghost ahead_p = ahead_of(s, q as int, p as int);
    let ghost same_p = same_candidate(s, q as int, p as int);
    let ghost all_p = |a: int, b: int| true;
    let target_row = sets[q][p].row_index;
    let target_sim = sets[q][p].similarity;
    let n = sets.len();
    let mut ahead: usize = 0;
    let mut same: usize = 0;
    let mut a: usize = 0;
    while a < n
        invariant
            s == sets@,
            n == s.len(),
            a <= n,
            target_row == s[q as int]@[p as int].row_index,
            target_sim == s[q as int]@[p as int].similarity,
            ahead_p == ahead_of(s, q as int, p as int),
            same_p == same_candidate(s, q as int, p as int),
            all_p == (|a: int, b: int| true),
            occurrences(s) <= usize::MAX,
            ahead == count_upto(s, a as int, ahead_p),
            same == count_upto(s, a as int, same_p),
        decreases n - a,
    {
        let m = sets[a].len();
        let mut b: usize = 0;
        while b < m
            invariant
                s == sets@,
                n == s.len(),
                a < n,
                m == s[a as int]@.len(),
                b <= m,
                target_row == s[q as int]@[p as int].row_index,
                target_sim == s[q as int]@[p as int].similarity,
                ahead_p == ahead_of(s, q as int, p as int),
                same_p == same_candidate(s, q as int, p as int),
                all_p == (|a: int, b: int| true),
                occurrences(s) <= usize::MAX,
                ahead == count_upto(s, a as int, ahead_p) + count_in_set(a as int, b as int, ahead_p),
                same == count_upto(s, a as int, same_p) + count_in_set(a as int, b as int, same_p),
            decreases m - b,
        {
            let c_row = sets[a][b].row_index;
            let c_sim = sets[a][b].similarity;
            proof {
                lemma_count_in_set_prefix(a as int, b as int + 1, m as int, ahead_p);
                lemma_count_in_set_prefix(a as int, b as int + 1, m as int, same_p);
                lemma_count_upto_prefix(s, a as int + 1, n as int, ahead_p);
                lemma_count_upto_prefix(s, a as int + 1, n as int, same_p);
                lemma_count_upto_mono(s, n as int, ahead_p, all_p);
                lemma_count_upto_mono(s, n as int, same_p, all_p);
            }
            if c_row == target_row {
                same = same + 1;
                if c_sim > target_sim || (c_sim == target_sim && (a < q || (a == q && b < p))) {
                    ahead = ahead + 1;
                }
            }
            b = b + 1;
        }
        a = a + 1;
    }
    (ahead, same)
}

/// Gives each candidate of each match set its rank among all queries that chose the
/// same candidate, and the number of those queries.
///
/// Within a candidate's group the order is by similarity from highest to lowest,
/// then by query, then by position in the query's match set. Row index and
/// similarity stay as they were.
pub fn assign_cross_query_ranks(match_sets: &mut Vec<Vec<MatchCandidate>>)
    requires
        occurrences(old(match_sets)@) <= usize::MAX,
    ensures
        final(match_sets)@.len() == old(match_sets)@.len(),
        forall|q: int|
            0 <= q < old(match_sets)@.len() ==> #[trigger] final(match_sets)@[q]@.len()
                == old(match_sets)@[q]@.len(),
        forall|q: int, p: int|
            valid_pos(old(match_sets)@, q, p) ==> {
                let c = #[trigger] final(match_sets)@[q]@[p];
                let o = old(match_sets)@[q]@[p];
                &&& c.row_index == o.row_index
                &&& c.similarity == o.similarity
                &&& c.identifiers == o.identifiers
                &&& c.faculty_text == o.faculty_text
                &&& ranked_as(c, cross_rank(old(match_sets)@, q, p), cross_total(old(match_sets)@, q, p))
            },
{
    let ghost s = match_sets@;
    let n = match_sets.len();
    let mut table: Vec<Vec<(usize, usize)>> = Vec::new();
    let mut q: usize = 0;
    while q < n
        invariant
            s == match_sets@,
            n == s.len(),
            q <= n,
            occurrences(s) <= usize::MAX,
            table.len() == q,
            forall|x: int| 0 <= x < q ==> #[trigger] table@[x]@.len() == s[x]@.len(),
            forall|x: int, y: int|
                0 <= x < q && valid_pos(s, x, y) ==> {
                    let t = #[trigger] table@[x]@[y];
                    t.0 as nat == cross_rank(s, x, y) && t.1 as nat == cross_total(s, x, y)
                },
        decreases n - q,
    {
        let m = match_sets[q].len();
        let mut row: Vec<(usize, usize)> = Vec::new();
        let mut p: usize = 0;
        while p < m
            invariant
                s == match_sets@,
                n == s.len(),
                q < n,
                m == s[q as int]@.len(),
                p <= m,
                occurrences(s) <= usize::MAX,
                row.len() == p,
                forall|y: int|
                    0 <= y < p ==> {
                        let t = #[trigger] row@[y];
                        t.0 as nat == cross_rank(s, q as int, y) && t.1 as nat == cross_total(s, q as int, y)
                    },
            decreases m - p,
        {
            let (ahead, same) = count_group(match_sets, q, p);
            proof {
                lemma_rank_order(s, q as int, p as int, q as int, p as int);
            }
            row.push((ahead + 1, same));
            p = p + 1;
        }
        table.push(row);
        q = q + 1;
    }
    let mut taken: Vec<Vec<MatchCandidate>> = Vec::new();
    std::mem::swap(match_sets, &mut taken);
    let mut q: usize = 0;
    while q < n
        invariant
            n == s.len(),
            q <= n,
            taken@ == s.subrange(q as int, n as int),
            table.len() == n,
            forall|x: int| 0 <= x < n ==> #[trigger] table@[x]@.len() == s[x]@.len(),
            forall|x: int, y: int|
                0 <= x < n && valid_pos(s, x, y) ==> {
                    let t = #[trigger] table@[x]@[y];
                    t.0 as nat == cross_rank(s, x, y) && t.1 as nat == cross_total(s, x, y)
                },
            match_sets.len() == q,
            forall|x: int| 0 <= x < q ==> #[trigger] match_sets@[x]@.len() == s[x]@.len(),
            forall|x: int, y: int|
                0 <= x < q && valid_pos(s, x, y) ==> {
                    let c = #[trigger] match_sets@[x]@[y];
                    let o = s[x]@[y];
                    &&& c.row_index == o.row_index
                    &&& c.similarity == o.similarity
                    &&& c.identifiers == o.identifiers
                    &&& c.faculty_text == o.faculty_text
                    &&& ranked_as(c, cross_rank(s, x, y), cross_total(s, x, y))
                },
        decreases n - q,
    {
        let mut inner = taken.remove(0);
        let ghost orig = inner@;
        assert(orig == s[q as int]@);
        let m = inner.len();
        let mut updated: Vec<MatchCandidate> = Vec::new();
        let mut p: usize = 0;
        while p < m
            invariant
                n == s.len(),
                q < n,
                orig == s[q as int]@,
                m == orig.len(),
                p <= m,
                inner@ == orig.subrange(p as int, m as int),
                table.len() == n,
                table@[q as int]@.len() == m,
                forall|y: int|
                    0 <= y < m ==> {
                        let t = #[trigger] table@[q as int]@[y];
                        t.0 as nat == cross_rank(s, q as int, y) && t.1 as nat == cross_total(s, q as int, y)
                    },
                updated.len() == p,
                forall|y: int|
                    0 <= y < p ==> {
                        let c = #[trigger] updated@[y];
                        let o = orig[y];
                        &&& c.row_index == o.row_index
                        &&& c.similarity == o.similarity
                        &&& c.identifiers == o.identifiers
                        &&& c.faculty_text == o.faculty_text
                        &&& ranked_as(c, cross_rank(s, q as int, y), cross_total(s, q as int, y))
                    },
            decreases m - p,
        {
            let mut c = inner.remove(0);
            assert(c == orig[p as int]);
            let (rank, total) = table[q][p];
            c.rank_for_candidate = Some(rank);
            c.rank_total = Some(total);
            updated.push(c);
            p = p + 1;
        }
        match_sets.push(updated);
        q = q + 1;
    }
}

/// The positions `(q, b)`, `b < m`, that satisfy `pred`.
pub open spec fn positions_in_set(q: int, m: int, pred: spec_fn(int, int) -> bool) -> Set<(int, int)>
    decreases m,
{
    if m <= 0 {
        Set::empty()
    } else {
        let s = positions_in_set(q, m - 1, pred);
        if pred(q, m - 1) {
            s.insert((q, m - 1))
        } else {
            s
        }
    }
}

/// The positions in the first `k` match sets that satisfy `pred`.
pub open spec fn positions_upto(sets: Seq<Vec<MatchCandidate>>, k: int, pred: spec_fn(int, int) -> bool) -> Set<
    (int, int),
>
    decreases k,
{
    if k <= 0 {
        Set::empty()
    } else {
        positions_upto(sets, k - 1, pred) + positions_in_set(k - 1, sets[k - 1]@.len() as int, pred)
    }
}

/// The positions of all match sets that name the candidate at `(q, p)`.
pub open spec fn group_of(sets: Seq<Vec<MatchCandidate>>, q: int, p: int) -> Set<(int, int)> {
    positions_upto(sets, sets.len() as int, same_candidate(sets, q, p))
}

proof fn lemma_positions_in_set(q: int, m: int, pred: spec_fn(int, int) -> bool)
    ensures
        positions_in_set(q, m, pred).finite(),
        positions_in_set(q, m, pred).len() == count_in_set(q, m, pred),
        forall|x: (int, int)|
            positions_in_set(q, m, pred).contains(x) <==> (x.0 == q && 0 <= x.1 < m && pred(x.0, x.1)),
    decreases m,
{
    if m > 0 {
        lemma_positions_in_set(q, m - 1, pred);
    }
}

proof fn lemma_positions_upto(sets: Seq<Vec<MatchCandidate>>, k: int, pred: spec_fn(int, int) -> bool)
    requires
        k <= sets.len(),
    ensures
        positions_upto(sets, k, pred).finite(),
        positions_upto(sets, k, pred).len() == count_upto(sets, k, pred),
        forall|x: (int, int)|
            positions_upto(sets, k, pred).contains(x) <==> (x.0 < k && valid_pos(sets, x.0, x.1) && pred(x.0, x.1)),
    decreases k,
{
    if k > 0 {
        let a = positions_upto(sets, k - 1, pred);
        let b = positions_in_set(k - 1, sets[k - 1]@.len() as int, pred);
        lemma_positions_upto(sets, k - 1, pred);
        lemma_positions_in_set(k - 1, sets[k - 1]@.len() as int, pred);
        assert(a.disjoint(b));
        lemma_set_disjoint_lens(a, b);
    }
}

/// The ranks of the positions that name one candidate are exactly 1 to the
/// number of those positions, each once.
pub proof fn lemma_group_ranks_one_to_n(sets: Seq<Vec<MatchCandidate>>, q: int, p: int)
    requires
        valid_pos(sets, q, p),
    ensures
        group_of(sets, q, p).len() == cross_total(sets, q, p),
        group_of(sets, q, p).map(|x: (int, int)| cross_rank(sets, x.0, x.1) as int) == set_int_range(
            1,
            cross_total(sets, q, p) as int + 1,
        ),
{
    let g = group_of(sets, q, p);
    let n = cross_total(sets, q, p) as int;
    let f = |x: (int, int)| cross_rank(sets, x.0, x.1) as int;
    lemma_positions_upto(sets, sets.len() as int, same_candidate(sets, q, p));
    assert forall|x: (int, int), y: (int, int)| g.contains(x) && g.contains(y) && #[trigger] f(x) == #[trigger] f(y) implies x == y by {
        lemma_rank_order(sets, x.0, x.1, y.0, y.1);
    }
    let image = g.map(f);
    lemma_map_size(g, image, f);
    let range = set_int_range(1, n + 1);
    lemma_rank_order(sets, q, p, q, p);
    lemma_int_range(1, n + 1);
    assert forall|y: int| image.contains(y) implies range.contains(y) by {
        let x = choose|x: (int, int)| g.contains(x) && f(x) == y;
        lemma_rank_order(sets, x.0, x.1, q, p);
    }
    lemma_subset_equality(image, range);
}

} // verus!
