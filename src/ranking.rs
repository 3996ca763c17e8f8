use vstd::prelude::*;
use crate::text::{trim_of, trim_text};
use crate::index::pairs_view;
use vstd::string::StrSliceExecFns;

verus! {

/// One entry of the index together with its similarity to a query.
///
/// `similarity` is `None` where the similarity is undefined (lengths differ, or a
/// vector has zero norm). Similarities are fixed-point values: millionths of the
/// cosine, so they lie in `-1_000_000..=1_000_000`.
/// `identifiers` are the entry's identifying values by column label.
#[derive(Debug)]
pub struct ScoredRow {
    pub row_index: usize,
    pub similarity: Option<i64>,
    pub identifiers: Vec<(String, String)>,
}

/// A candidate chosen for one query: its row, similarity and identifying values,
/// the candidate's text where it was added, and its rank among all queries that
/// chose it.
#[derive(Debug)]
pub struct MatchCandidate {
    pub row_index: usize,
    pub similarity: i64,
    pub identifiers: Vec<(String, String)>,
    pub faculty_text: Option<String>,
    pub rank_for_candidate: Option<usize>,
    pub rank_total: Option<usize>,
}

/// The pairs of `ps` whose value is not blank once trimmed.
pub open spec fn non_blank(ps: Seq<(Seq<char>, Seq<char>)>) -> Seq<(Seq<char>, Seq<char>)>
    decreases ps.len(),
{
    if ps.len() == 0 {
        seq![]
    } else if trim_of(ps.last().1).len() > 0 {
        non_blank(ps.drop_last()).push(ps.last())
    } else {
        non_blank(ps.drop_last())
    }
}

/// The identifying pairs whose value is not blank once trimmed, in order.
pub fn non_blank_identifiers(pairs: &Vec<(String, String)>) -> (r: Vec<(String, String)>)
    ensures
        pairs_view(r@) == non_blank(pairs_view(pairs@)),
{
    let ghost pv = pairs_view(pairs@);
    let mut r: Vec<(String, String)> = Vec::new();
    let mut k: usize = 0;
    while k < pairs.len()
        invariant
            k <= pairs.len(),
            pv == pairs_view(pairs@),
            pairs_view(r@) == non_blank(pv.subrange(0, k as int)),
        decreases pairs.len() - k,
    {
        proof {
            assert(pv.subrange(0, k as int + 1).drop_last() =~= pv.subrange(0, k as int));
        }
        let t = trim_text(pairs[k].1.as_str());
        if t.as_str().unicode_len() > 0 {
            let ghost before = pairs_view(r@);
            let label = pairs[k].0.clone();
            let value = pairs[k].1.clone();
            r.push((label, value));
            assert(pairs_view(r@) =~= before.push(pv[k as int]));
        }
        k = k + 1;
    }
    assert(pv.subrange(0, pairs.len() as int) =~= pv);
    r
}

/// Whether the row at position `i` takes part in a search.
pub open spec fn eligible(rows: Seq<ScoredRow>, allowed: Option<Seq<usize>>, i: int) -> bool {
    &&& 0 <= i < rows.len()
    &&& rows[i].similarity is Some
    &&& match allowed {
        Some(a) => a.contains(rows[i].row_index),
        None => true,
    }
}

/// Position `i` comes before position `j` in a search result: higher similarity
/// first, and the earlier position first among equals.
pub open spec fn precedes(rows: Seq<ScoredRow>, i: int, j: int) -> bool {
    let si = rows[i].similarity->0;
    let sj = rows[j].similarity->0;
    si > sj || (si == sj && i < j)
}

/// `picks` lists the positions of the best eligible rows, best first, as many as
/// `limit` allows.
pub open spec fn is_best_selection(
    rows: Seq<ScoredRow>,
    limit: nat,
    allowed: Option<Seq<usize>>,
    picks: Seq<int>,
) -> bool {
    &&& picks.len() <= limit
    &&& forall|k: int| 0 <= k < picks.len() ==> #[trigger] eligible(rows, allowed, picks[k])
    &&& forall|k: int, l: int|
        0 <= k < l < picks.len() ==> #[trigger] precedes(rows, picks[k], picks[l])
    &&& forall|j: int|
        #![trigger eligible(rows, allowed, j)]
        eligible(rows, allowed, j) && !picks.contains(j) ==> {
            &&& picks.len() == limit
            &&& forall|k: int| 0 <= k < picks.len() ==> #[trigger] precedes(rows, picks[k], j)
        }
}

/// `c` is the candidate built from the row at position `i`: its row, similarity and
/// non-blank identifying values, with no text and no cross-query rank yet.
pub open spec fn candidate_of(rows: Seq<ScoredRow>, i: int, c: MatchCandidate) -> bool {
    &&& c.row_index == rows[i].row_index
    &&& c.similarity == rows[i].similarity->0
    &&& pairs_view(c.identifiers@) == non_blank(pairs_view(rows[i].identifiers@))
    &&& c.faculty_text is None
    &&& c.rank_for_candidate is None
    &&& c.rank_total is None
}

/// `r` holds the candidates of the rows at `picks`, in that order.
pub open spec fn candidates_from(rows: Seq<ScoredRow>, picks: Seq<int>, r: Seq<MatchCandidate>) -> bool {
    &&& r.len() == picks.len()
    &&& forall|k: int| 0 <= k < r.len() ==> candidate_of(rows, picks[k], #[trigger] r[k])
}

/// The row indexes of an optional filter.
pub open spec fn opt_view(allowed: Option<&Vec<usize>>) -> Option<Seq<usize>> {
    match allowed {
        Some(a) => Some(a@),
        None => None,
    }
}

/// Whether `v` holds `x`.
pub fn contains_index(v: &Vec<usize>, x: usize) -> (r: bool)
    ensures
        r == v@.contains(x),
{
    let mut i: usize = 0;
    while i < v.len()
        invariant
            i <= v.len(),
            forall|k: int| 0 <= k < i ==> v@[k] != x,
        decreases v.len() - i,
    {
        if v[i] == x {
            return true;
        }
        i = i + 1;
    }
    false
}

fn is_eligible(rows: &Vec<ScoredRow>, allowed: Option<&Vec<usize>>, i: usize) -> (r: bool)
    requires
        i < rows.len(),
    ensures
        r == eligible(rows@, opt_view(allowed), i as int),
{
    if rows[i].similarity.is_none() {
        return false;
    }
    match allowed {
        Some(a) => contains_index(a, rows[i].row_index),
        None => true,
    }
}

/// The positions of the best eligible rows, best first, at most `limit` of them.
pub fn best_positions(rows: &Vec<ScoredRow>, limit: usize, allowed: Option<&Vec<usize>>) -> (r:
    Vec<usize>)
    ensures
        is_best_selection(rows@, limit as nat, opt_view(allowed), r@.map_values(|i: usize| i as int)),
        forall|k: int| 0 <= k < r.len() ==> r@[k] < rows.len(),
{
    let ghost al = opt_view(allowed);
    let n = rows.len();
    let mut taken: Vec<bool> = Vec::new();
    let mut t: usize = 0;
    while t < n
        invariant
            t <= n,
            taken.len() == t,
            forall|k: int| 0 <= k < t ==> !taken@[k],
        decreases n - t,
    {
        taken.push(false);
        t = t + 1;
    }
    let mut r: Vec<usize> = Vec::new();
    while r.len() < limit
        invariant
            n == rows.len(),
            al == opt_view(allowed),
            taken.len() == n,
            r.len() <= limit,
            forall|k: int| 0 <= k < r.len() ==> r@[k] < n,
            forall|i: int| 0 <= i < n ==> (taken@[i] <==> r@.contains(i as usize)),
            forall|k: int| 0 <= k < r.len() ==> #[trigger] eligible(rows@, al, r@[k] as int),
            forall|k: int, l: int|
                0 <= k < l < r.len() ==> precedes(rows@, r@[k] as int, r@[l] as int),
            forall|j: int, k: int|
                0 <= j < n && eligible(rows@, al, j) && !taken@[j] && 0 <= k < r.len()
                    ==> precedes(rows@, r@[k] as int, j),
        ensures
            r.len() == limit || forall|j: int| 0 <= j < n && eligible(rows@, al, j) ==> taken@[j],
        decreases limit - r.len(),
    {
        let mut best: Option<usize> = None;
        let mut i: usize = 0;
        while i < n
            invariant
                n == rows.len(),
                al == opt_view(allowed),
                taken.len() == n,
                i <= n,
                match best {
                    None => forall|j: int|
                        0 <= j < i ==> !(eligible(rows@, al, j) && !taken@[j]),
                    Some(b) => {
                        &&& b < i
                        &&& eligible(rows@, al, b as int)
                        &&& !taken@[b as int]
                        &&& forall|j: int|
                            0 <= j < i && eligible(rows@, al, j) && !taken@[j] && j != b
                                ==> precedes(rows@, b as int, j)
                    },
                },
            decreases n - i,
        {
            let open_row = !taken[i] && is_eligible(rows, allowed, i);
            if open_row {
                match best {
                    None => {
                        best = Some(i);
                    },
                    Some(b) => {
                        let si = rows[i].similarity.unwrap();
                        let sb = rows[b].similarity.unwrap();
                        if si > sb {
                            best = Some(i);
                        }
                    },
                }
            }
            i = i + 1;
        }
        match best {
            None => {
                break;
            },
            Some(b) => {
                let ghost old_r = r@;
                r.push(b);
                taken.set(b, true);
                proof {
                    assert forall|x: int| 0 <= x < n implies (taken@[x] <==> r@.contains(
                        x as usize,
                    )) by {
                        if r@.contains(x as usize) && x != b {
                            let w = choose|w: int| 0 <= w < r@.len() && r@[w] == x as usize;
                            assert(w < old_r.len());
                            assert(old_r.contains(x as usize));
                        }
                        if x != b && old_r.contains(x as usize) {
                            let w = choose|w: int| 0 <= w < old_r.len() && old_r[w] == x as usize;
                            assert(r@[w] == x as usize);
                        }
                        if x == b {
                            assert(r@[r@.len() - 1] == x as usize);
                        }
                    }
                }
            },
        }
    }
    let ghost picks = r@.map_values(|i: usize| i as int);
    proof {
        assert forall|j: int|
            #![trigger eligible(rows@, al, j)]
            eligible(rows@, al, j) && !picks.contains(j) implies {
                &&& picks.len() == limit
                &&& forall|k: int| 0 <= k < picks.len() ==> #[trigger] precedes(rows@, picks[k], j)
            } by {
            if !taken@[j] {
            } else {
                assert(r@.contains(j as usize));
                let w = choose|w: int| 0 <= w < r@.len() && r@[w] == j as usize;
                assert(picks[w] == j);
            }
        }
    }
    r
}

/// The best matches for one query: the eligible rows, by similarity from highest to
/// lowest with earlier rows first among equals, cut to `limit`.
///
/// A row is eligible where its similarity is defined and, when `allowed` is given,
/// its row index is in `allowed`.
pub fn find_best_matches(rows: &Vec<ScoredRow>, limit: usize, allowed: Option<&Vec<usize>>) -> (r:
    Vec<MatchCandidate>)
    ensures
        exists|picks: Seq<int>|
            is_best_selection(rows@, limit as nat, opt_view(allowed), picks) && candidates_from(
                rows@,
                picks,
                r@,
            ),
        r.len() <= limit,
        forall|k: int, l: int| 0 <= k < l < r.len() ==> r@[k].similarity >= r@[l].similarity,
        forall|k: int|
            0 <= k < r.len() ==> match allowed {
                Some(a) => a@.contains(#[trigger] r@[k].row_index),
                None => true,
            },
{
    let positions = best_positions(rows, limit, allowed);
    let ghost picks = positions@.map_values(|i: usize| i as int);
    let mut r: Vec<MatchCandidate> = Vec::new();
    let mut k: usize = 0;
    while k < positions.len()
        invariant
            k <= positions.len(),
            picks == positions@.map_values(|i: usize| i as int),
            forall|x: int| 0 <= x < positions.len() ==> positions@[x] < rows.len(),
            is_best_selection(rows@, limit as nat, opt_view(allowed), picks),
            r.len() == k,
            forall|x: int| 0 <= x < k ==> candidate_of(rows@, picks[x], #[trigger] r@[x]),
        decreases positions.len() - k,
    {
        assert(eligible(rows@, opt_view(allowed), picks[k as int]));
        let row = &rows[positions[k]];
        let identifiers = non_blank_identifiers(&row.identifiers);
        r.push(
            MatchCandidate {
                row_index: row.row_index,
                similarity: row.similarity.unwrap(),
                identifiers,
                faculty_text: None,
                rank_for_candidate: None,
                rank_total: None,
            },
        );
        k = k + 1;
    }
    proof {
        assert(candidates_from(rows@, picks, r@));
        assert forall|a: int, b: int| 0 <= a < b < r.len() implies r@[a].similarity
            >= r@[b].similarity by {
            assert(precedes(rows@, picks[a], picks[b]));
            assert(candidate_of(rows@, picks[a], r@[a]));
            assert(candidate_of(rows@, picks[b], r@[b]));
        }
        assert forall|a: int| 0 <= a < r.len() implies match allowed {
            Some(al) => al@.contains(#[trigger] r@[a].row_index),
            None => true,
        } by {
            assert(eligible(rows@, opt_view(allowed), picks[a]));
            assert(candidate_of(rows@, picks[a], r@[a]));
        }
    }
    r
}

} // verus!
