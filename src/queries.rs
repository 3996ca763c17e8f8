use vstd::prelude::*;
use vstd::string::{StrSliceExecFns, StringExecFns};
use crate::text::{decimal, decimal_string, trim_text};
use crate::index::{text_parts, row_text, embedding_text, answer_for, last_answer, lemma_last_answer_step};
use crate::ranking::MatchCandidate;
use crate::headers::views;
use crate::workbook::{join_with, join_strings};

verus! {

/// How a row of a table of queries is named in results and warnings.
pub struct RowLabels {
    /// The row's values in the identifier columns, as read; led by its row number
    /// where no identifier column is chosen.
    pub identifier_values: Vec<String>,
    /// The row's name: its non-blank identifier values joined by en dashes.
    pub identifier_label: String,
    /// How a warning names the row.
    pub warning_label: String,
}

/// The value of cell `c` of `row`, or an empty text where the row is shorter.
pub open spec fn cell_or_empty(row: Seq<String>, c: int) -> Seq<char> {
    if 0 <= c < row.len() {
        row[c]@
    } else {
        seq![]
    }
}

/// The parts of a row's name: `Row <n>` where no identifier column is chosen, then
/// the trimmed, non-blank identifier values.
pub open spec fn label_segments(row: Seq<String>, idxs: Seq<usize>, number: nat) -> Seq<Seq<char>> {
    (if idxs.len() == 0 {
        seq!["Row "@ + decimal(number)]
    } else {
        seq![]
    }) + text_parts(row, idxs, idxs.len() as int)
}

/// The cells of `row` in the columns `idxs`, empty where the row is shorter.
pub open spec fn cells_of(row: Seq<String>, idxs: Seq<usize>) -> Seq<Seq<char>> {
    idxs.map_values(|c: usize| cell_or_empty(row, c as int))
}

/// `l` names row `row_index` of a table of queries, whose spreadsheet row number is
/// `row_index + 2` (the header takes the first).
pub open spec fn labels_of(row: Seq<String>, row_index: int, idxs: Seq<usize>, l: RowLabels) -> bool {
    let number = (row_index + 2) as nat;
    let segments = label_segments(row, idxs, number);
    let name = if segments.len() == 0 {
        "Row "@ + decimal(number)
    } else {
        join_with(segments, " \u{2013} "@)
    };
    &&& views(l.identifier_values@) == (if idxs.len() == 0 {
        seq![decimal(number)]
    } else {
        seq![]
    }) + cells_of(row, idxs)
    &&& l.identifier_label@ == name
    &&& l.warning_label@ == if segments.len() == 0 || (idxs.len() == 0 && segments.len() == 1) {
        "row "@ + decimal(number)
    } else {
        "row "@ + decimal(number) + " ("@ + name + ")"@
    }
}

/// The labels of row `row_index` of a table of queries, whose spreadsheet row
/// number is `row_index + 2` (the header takes the first).
pub fn spreadsheet_row_labels(row: &Vec<String>, row_index: usize, identifier_indexes: &Vec<usize>) -> (r: RowLabels)
    ensures
        labels_of(row@, row_index as int, identifier_indexes@, r),
{
    let number = row_index as u128 + 2;
    let digits = decimal_string(number);
    let include_number = identifier_indexes.len() == 0;
    let mut values: Vec<String> = Vec::new();
    let mut segments: Vec<String> = Vec::new();
    if include_number {
        values.push(digits.clone());
        let mut first = String::from_str("Row ");
        first.append(digits.as_str());
        segments.push(first);
        assert(views(values@) =~= seq![decimal(number as nat)]);
    } else {
        assert(views(values@) =~= Seq::<Seq<char>>::empty());
    }
    let ghost lead_values = views(values@);
    let ghost lead_segments = views(segments@);
    let mut k: usize = 0;
    while k < identifier_indexes.len()
        invariant
            k <= identifier_indexes.len(),
            views(values@) == lead_values + cells_of(row@, identifier_indexes@.subrange(0, k as int)),
            views(segments@) == lead_segments + text_parts(row@, identifier_indexes@, k as int),
        decreases identifier_indexes.len() - k,
    {
        let c = identifier_indexes[k];
        let ghost v0 = views(values@);
        let ghost s0 = views(segments@);
        let value = if c < row.len() {
            row[c].clone()
        } else {
            String::new()
        };
        let t = trim_text(value.as_str());
        if t.as_str().unicode_len() > 0 {
            segments.push(t);
            assert(views(segments@) =~= s0.push(t@));
        }
        values.push(value);
        proof {
            assert(views(values@) =~= v0.push(cell_or_empty(row@, c as int)));
            assert(cells_of(row@, identifier_indexes@.subrange(0, k as int + 1)) =~= cells_of(
                row@,
                identifier_indexes@.subrange(0, k as int),
            ).push(cell_or_empty(row@, c as int)));
        }
        k = k + 1;
    }
    proof {
        assert(identifier_indexes@.subrange(0, identifier_indexes.len() as int) =~= identifier_indexes@);
        assert(views(values@) == lead_values + cells_of(row@, identifier_indexes@));

        assert(views(segments@) =~= label_segments(row@, identifier_indexes@, number as nat));
    }
    let mut identifier_label = String::new();
    if segments.len() == 0 {
        identifier_label.append("Row ");
        identifier_label.append(digits.as_str());
    } else {
        let joined = join_strings(&segments, " \u{2013} ");
        identifier_label.append(joined.as_str());
    }
    let mut warning_label = String::from_str("row ");
    warning_label.append(digits.as_str());
    if !(segments.len() == 0 || (include_number && segments.len() == 1)) {
        warning_label.append(" (");
        warning_label.append(identifier_label.as_str());
        warning_label.append(")");
    }
    RowLabels { identifier_values: values, identifier_label, warning_label }
}

/// The text of an optional string.
pub open spec fn text_view(t: Option<String>) -> Option<Seq<char>> {
    match t {
        Some(s) => Some(s@),
        None => None,
    }
}

/// The text a candidate has after texts are added: its row's text where the row
/// exists and has one, else the text it had.
pub open spec fn text_after(o: MatchCandidate, rows: Seq<Vec<String>>, idxs: Seq<usize>) -> Option<Seq<char>> {
    if o.row_index < rows.len() && row_text(rows[o.row_index as int]@, idxs) is Some {
        row_text(rows[o.row_index as int]@, idxs)
    } else {
        text_view(o.faculty_text)
    }
}

/// Adds to each candidate its text: its row's trimmed, non-blank values in the
/// columns `embedding_indexes`, joined by blank lines. A candidate whose row is
/// missing or has no such text keeps the text it had. Everything else is kept.
pub fn add_faculty_text(matches: &mut Vec<MatchCandidate>, rows: &Vec<Vec<String>>, embedding_indexes: &Vec<usize>)
    ensures
        final(matches)@.len() == old(matches)@.len(),
        forall|k: int|
            0 <= k < old(matches)@.len() ==> {
                let c = #[trigger] final(matches)@[k];
                let o = old(matches)@[k];
                &&& c.row_index == o.row_index
                &&& c.similarity == o.similarity
                &&& c.identifiers == o.identifiers
                &&& c.rank_for_candidate == o.rank_for_candidate
                &&& c.rank_total == o.rank_total
                &&& text_view(c.faculty_text) == text_after(o, rows@, embedding_indexes@)
            },
{
    let ghost orig = matches@;
    let mut taken: Vec<MatchCandidate> = Vec::new();
    std::mem::swap(matches, &mut taken);
    let n = taken.len();
    let mut k: usize = 0;
    while k < n
        invariant
            n == orig.len(),
            k <= n,
            taken@ == orig.subrange(k as int, n as int),
            matches.len() == k,
            forall|x: int|
                0 <= x < k ==> {
                    let c = #[trigger] matches@[x];
                    let o = orig[x];
                    &&& c.row_index == o.row_index
                    &&& c.similarity == o.similarity
                    &&& c.identifiers == o.identifiers
                    &&& c.rank_for_candidate == o.rank_for_candidate
                    &&& c.rank_total == o.rank_total
                    &&& text_view(c.faculty_text) == text_after(o, rows@, embedding_indexes@)
                },
        decreases n - k,
    {
        let mut c = taken.remove(0);
        assert(c == orig[k as int]);
        if c.row_index < rows.len() {
            match embedding_text(&rows[c.row_index], embedding_indexes) {
                Some(text) => {
                    c.faculty_text = Some(text);
                },
                None => {},
            }
        }
        matches.push(c);
        k = k + 1;
    }
}

/// Why a batch of query embeddings cannot be compared with an index.
#[derive(Clone, Copy, Debug, PartialEq, Eq)]
pub enum QueryBatchError {
    /// The worker reported another dimension than the index's.
    DimensionMismatch { reported: usize, dimension: usize },
}

/// The embedding of each of `query_count` queries, by id `0..query_count`, from the
/// worker's answer: that of the last response row with the query's id, or `None`
/// where no row has it. Rows with other ids are ignored. Fails where the reported
/// dimension differs from the index's.
pub fn pair_query_embeddings<T>(
    query_count: usize,
    index_dimension: usize,
    reported_dimension: usize,
    response: Vec<(usize, Vec<T>)>,
) -> (r: Result<Vec<Option<Vec<T>>>, QueryBatchError>)
    ensures
        reported_dimension != index_dimension ==> r == Err::<Vec<Option<Vec<T>>>, QueryBatchError>(
            QueryBatchError::DimensionMismatch { reported: reported_dimension, dimension: index_dimension },
        ),
        reported_dimension == index_dimension ==> (r matches Ok(slots) && slots.len() == query_count && forall|i: int|
            0 <= i < query_count ==> #[trigger] slots@[i] == answer_for(response@, i as usize)),
{
    if reported_dimension != index_dimension {
        return Err(QueryBatchError::DimensionMismatch { reported: reported_dimension, dimension: index_dimension });
    }
    let ghost resp0 = response@;
    let n = response.len();
    let mut slots: Vec<Option<Vec<T>>> = Vec::new();
    let mut k: usize = 0;
    while k < query_count
        invariant
            k <= query_count,
            slots.len() == k,
            forall|x: int| 0 <= x < k ==> #[trigger] slots@[x] is None,
        decreases query_count - k,
    {
        slots.push(None);
        k = k + 1;
    }
    let mut response = response;
    while response.len() > 0
        invariant
            slots.len() == query_count,
            n == resp0.len(),
            response.len() <= n,
            response@ == resp0.subrange(0, response.len() as int),
            forall|x: int|
                0 <= x < query_count ==> #[trigger] slots@[x] == last_answer(resp0, response.len() as int, n as int, x as usize),
        decreases response.len(),
    {
        let ghost lo = response.len() as int;
        let (id, v) = response.pop().unwrap();
        assert(resp0[lo - 1] == (id, v));
        proof {
            assert forall|x: int| 0 <= x < query_count implies #[trigger] last_answer(resp0, lo - 1, n as int, x as usize)
                == match last_answer(resp0, lo, n as int, x as usize) {
                Some(w) => Some(w),
                None => if id == x as usize {
                    Some(v)
                } else {
                    None
                },
            } by {
                lemma_last_answer_step(resp0, lo, n as int, x as usize);
            }
        }
        if id < query_count && slots[id].is_none() {
            slots.set(id, Some(v));
        }
    }
    Ok(slots)
}

/// The rows among the first `n` of a table of queries that have query text, each
/// with its text, in order.
pub open spec fn table_query_rows(rows: Seq<Vec<String>>, pidx: Seq<usize>, n: int) -> Seq<(usize, Seq<char>)>
    decreases n,
{
    if n <= 0 {
        seq![]
    } else {
        let prev = table_query_rows(rows, pidx, n - 1);
        match row_text(rows[n - 1]@, pidx) {
            Some(t) => prev.push(((n - 1) as usize, t)),
            None => prev,
        }
    }
}

proof fn lemma_query_rows_grow(rows: Seq<Vec<String>>, pidx: Seq<usize>, m: int, n: int)
    requires
        0 <= m <= n,
    ensures
        table_query_rows(rows, pidx, m).len() <= table_query_rows(rows, pidx, n).len(),
    decreases n - m,
{
    if m < n {
        lemma_query_rows_grow(rows, pidx, m, n - 1);
    }
}

/// The rows of a table of queries that have query text, each with its text: the
/// row's trimmed, non-blank values in the columns `prompt_indexes`, joined by blank
/// lines. A query's id is its position in this list.
pub fn table_queries(rows: &Vec<Vec<String>>, prompt_indexes: &Vec<usize>) -> (r: Vec<(usize, String)>)
    ensures
        r@.map_values(|q: (usize, String)| (q.0, q.1@)) == table_query_rows(rows@, prompt_indexes@, rows.len() as int),
{
    let mut r: Vec<(usize, String)> = Vec::new();
    let mut n: usize = 0;
    while n < rows.len()
        invariant
            n <= rows.len(),
            r@.map_values(|q: (usize, String)| (q.0, q.1@)) == table_query_rows(rows@, prompt_indexes@, n as int),
        decreases rows.len() - n,
    {
        match embedding_text(&rows[n], prompt_indexes) {
            Some(text) => {
                let ghost before = r@;
                r.push((n, text));
                assert(r@.map_values(|q: (usize, String)| (q.0, q.1@)) =~= before.map_values(
                    |q: (usize, String)| (q.0, q.1@),
                ).push((n, r@[r.len() - 1].1@)));
            },
            None => {},
        }
        n = n + 1;
    }
    r
}

/// What became of one row of a table of queries.
pub enum RowStatus {
    /// The row has no query text.
    NoPrompt,
    /// The worker returned no embedding for the row's query.
    NoEmbedding,
    /// The row's matches.
    Matched(Vec<MatchCandidate>),
}

/// One row of a table of queries: its labels and what became of it.
pub struct QueryRowResult {
    pub labels: RowLabels,
    pub status: RowStatus,
}

/// The rows of a table of queries and their counts: `processed_rows`, the rows that
/// got matches; `skipped_rows`, the others; `matched_rows`, the rows with at least
/// one match; `total_matches`, the matches of all rows.
pub struct QueryTableOutcome {
    pub results: Vec<QueryRowResult>,
    pub processed_rows: usize,
    pub matched_rows: usize,
    pub skipped_rows: usize,
    pub total_matches: u128,
}

/// `st` is what becomes of row `r` given the answers to the table's queries, in the
/// order of `table_query_rows`.
pub open spec fn status_of(
    rows: Seq<Vec<String>>,
    pidx: Seq<usize>,
    answers: Seq<Option<Vec<MatchCandidate>>>,
    r: int,
    st: RowStatus,
) -> bool {
    match row_text(rows[r]@, pidx) {
        None => st is NoPrompt,
        Some(_) => match answers[table_query_rows(rows, pidx, r).len() as int] {
            None => st is NoEmbedding,
            Some(m) => st == RowStatus::Matched(m),
        },
    }
}

/// The rows among the first `k` results that got matches.
pub open spec fn processed_count(results: Seq<QueryRowResult>, k: int) -> nat
    decreases k,
{
    if k <= 0 {
        0
    } else {
        processed_count(results, k - 1) + if results[k - 1].status is Matched { 1nat } else { 0nat }
    }
}

/// The rows among the first `k` results with at least one match.
pub open spec fn matched_count(results: Seq<QueryRowResult>, k: int) -> nat
    decreases k,
{
    if k <= 0 {
        0
    } else {
        matched_count(results, k - 1) + match results[k - 1].status {
            RowStatus::Matched(m) => if m@.len() > 0 { 1nat } else { 0nat },
            _ => 0nat,
        }
    }
}

/// The matches of the first `k` results.
pub open spec fn match_total(results: Seq<QueryRowResult>, k: int) -> nat
    decreases k,
{
    if k <= 0 {
        0
    } else {
        match_total(results, k - 1) + match results[k - 1].status {
            RowStatus::Matched(m) => m@.len(),
            _ => 0nat,
        }
    }
}

proof fn lemma_counts_prefix(a: Seq<QueryRowResult>, b: Seq<QueryRowResult>, k: int)
    requires
        0 <= k <= a.len(),
        k <= b.len(),
        forall|i: int| 0 <= i < k ==> a[i] == b[i],
    ensures
        processed_count(a, k) == processed_count(b, k),
        matched_count(a, k) == matched_count(b, k),
        match_total(a, k) == match_total(b, k),
    decreases k,
{
    if k > 0 {
        lemma_counts_prefix(a, b, k - 1);
    }
}

/// The results of a table of queries, one per row in order: the row's labels, and
/// whether it had no query text, got no embedding, or got its matches from
/// `answers`, one per query of `table_queries` (`None` where the worker returned
/// no embedding). Also counts the rows processed, matched and skipped, and the
/// matches in all.
pub fn query_table_results(
    rows: &Vec<Vec<String>>,
    prompt_indexes: &Vec<usize>,
    identifier_indexes: &Vec<usize>,
    answers: Vec<Option<Vec<MatchCandidate>>>,
    limit: usize,
) -> (r: QueryTableOutcome)
    requires
        answers.len() == table_query_rows(rows@, prompt_indexes@, rows.len() as int).len(),
        forall|q: int| 0 <= q < answers.len() ==> (#[trigger] answers@[q] matches Some(m) ==> m@.len() <= limit),
    ensures
        r.results.len() == rows.len(),
        forall|k: int|
            0 <= k < rows.len() ==> {
                &&& labels_of(rows@[k]@, k, identifier_indexes@, (#[trigger] r.results@[k]).labels)
                &&& status_of(rows@, prompt_indexes@, answers@, k, r.results@[k].status)
                &&& (r.results@[k].status matches RowStatus::Matched(m) ==> m@.len() <= limit)
            },
        r.processed_rows == processed_count(r.results@, rows.len() as int),
        r.matched_rows == matched_count(r.results@, rows.len() as int),
        r.total_matches == match_total(r.results@, rows.len() as int),
        r.processed_rows + r.skipped_rows == rows.len(),
        r.matched_rows <= r.processed_rows,
{
    let ghost ans0 = answers@;
    let ghost pidx = prompt_indexes@;
    let ghost total_q = table_query_rows(rows@, pidx, rows.len() as int).len();
    assert(ans0.len() == answers.len());
    let mut answers = answers;
    let mut results: Vec<QueryRowResult> = Vec::new();
    let mut processed: usize = 0;
    let mut matched: usize = 0;
    let mut total: u128 = 0;
    let mut q: usize = 0;
    let mut n: usize = 0;
    while n < rows.len()
        invariant
            n <= rows.len(),
            pidx == prompt_indexes@,
            total_q == table_query_rows(rows@, pidx, rows.len() as int).len(),
            ans0.len() == total_q,
            ans0.len() <= usize::MAX,
            forall|x: int| 0 <= x < ans0.len() ==> (#[trigger] ans0[x] matches Some(m) ==> m@.len() <= limit),
            q == table_query_rows(rows@, pidx, n as int).len(),
            q <= ans0.len(),
            answers@ == ans0.subrange(q as int, ans0.len() as int),
            results.len() == n,
            forall|k: int|
                0 <= k < n ==> {
                    &&& labels_of(rows@[k]@, k, identifier_indexes@, (#[trigger] results@[k]).labels)
                    &&& status_of(rows@, pidx, ans0, k, results@[k].status)
                    &&& (results@[k].status matches RowStatus::Matched(m) ==> m@.len() <= limit)
                },
            processed == processed_count(results@, n as int),
            matched == matched_count(results@, n as int),
            total == match_total(results@, n as int),
            processed <= n,
            matched <= processed,
            total <= n * 18446744073709551615u128,
        decreases rows.len() - n,
    {
        proof {
            lemma_query_rows_grow(rows@, pidx, n as int + 1, rows.len() as int);
        }
        let labels = spreadsheet_row_labels(&rows[n], n, identifier_indexes);
        let status = match embedding_text(&rows[n], prompt_indexes) {
            None => RowStatus::NoPrompt,
            Some(_) => {
                let a = answers.remove(0);
                assert(a == ans0[q as int]);
                q = q + 1;
                match a {
                    None => RowStatus::NoEmbedding,
                    Some(m) => {
                        processed = processed + 1;
                        if m.len() > 0 {
                            matched = matched + 1;
                        }
                        total = total + m.len() as u128;
                        RowStatus::Matched(m)
                    },
                }
            },
        };
        let ghost before = results@;
        results.push(QueryRowResult { labels, status });
        proof {
            assert forall|k: int| 0 <= k < n + 1 implies {
                &&& labels_of(rows@[k]@, k, identifier_indexes@, (#[trigger] results@[k]).labels)
                &&& status_of(rows@, pidx, ans0, k, results@[k].status)
                &&& (results@[k].status matches RowStatus::Matched(m) ==> m@.len() <= limit)
            } by {
                if k < n {
                    assert(results@[k] == before[k]);
                }
            }
            assert(results@.subrange(0, n as int) =~= before);
            lemma_counts_prefix(results@, before, n as int);
        }
        n = n + 1;
    }
    QueryTableOutcome {
        results,
        processed_rows: processed,
        matched_rows: matched,
        skipped_rows: rows.len() - processed,
        total_matches: total,
    }
}

} // verus!
