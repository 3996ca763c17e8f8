use vstd::prelude::*;
use vstd::string::{StrSliceExecFns, StringExecFns};
use crate::text::{trim_of, trim_text, label_of, header_label, join_paragraphs};

verus! {

/// One row of the candidate table that has text to embed.
pub struct RowEmbeddingContext {
    pub row_index: usize,
    pub text: String,
    pub identifiers: Vec<(String, String)>,
}

/// One entry of an embedding index: a row of the candidate table, its identifying
/// values by column label, and its embedding: a vector of `T`.
pub struct IndexEntry<T> {
    pub row_index: usize,
    pub identifiers: Vec<(String, String)>,
    pub embedding: Vec<T>,
}

/// The embeddings of a candidate table, with the model that made them and how many
/// rows were embedded or skipped.
///
/// Well formed where every entry's vector has `dimension` items (`well_formed`).
pub struct EmbeddingIndex<T> {
    pub model: String,
    pub generated_at: Option<String>,
    pub dimension: usize,
    pub total_rows: Option<usize>,
    pub embedded_rows: Option<usize>,
    pub skipped_rows: Option<usize>,
    pub embedding_columns: Vec<String>,
    pub identifier_columns: Vec<String>,
    pub entries: Vec<IndexEntry<T>>,
}

/// Every entry's vector has `dimension` items.
pub open spec fn well_formed<T>(index: EmbeddingIndex<T>) -> bool {
    forall|e: int| 0 <= e < index.entries@.len() ==> (#[trigger] index.entries@[e]).embedding@.len() == index.dimension
}

/// Why an index could not be built.
#[derive(Clone, Copy, Debug, PartialEq, Eq)]
pub enum RefreshError {
    /// The table has no data rows.
    NoDataRows,
    /// No column holds the text to embed.
    NoEmbeddingColumns,
    /// No row has text to embed.
    NoEmbeddableRows,
    /// The embedding worker answered with no rows or a dimension of zero.
    EmptyResponse,
    /// None of the requested rows came back with an embedding.
    NoEmbeddings,
    /// A returned vector's length differs from the reported dimension.
    DimensionMismatch,
}

/// The trimmed, non-empty values of `row` in the columns `idxs[..k]`, in that order.
pub open spec fn text_parts(row: Seq<String>, idxs: Seq<usize>, k: int) -> Seq<Seq<char>>
    decreases k,
{
    if k <= 0 {
        seq![]
    } else {
        let prev = text_parts(row, idxs, k - 1);
        let c = idxs[k - 1] as int;
        if c < row.len() && trim_of(row[c]@).len() > 0 {
            prev.push(trim_of(row[c]@))
        } else {
            prev
        }
    }
}

/// The text to embed for `row`: its values in the embedding columns, joined by
/// blank lines, or `None` where all of them are blank.
pub open spec fn row_text(row: Seq<String>, idxs: Seq<usize>) -> Option<Seq<char>> {
    let parts = text_parts(row, idxs, idxs.len() as int);
    if parts.len() == 0 {
        None
    } else {
        Some(join_paragraphs(parts))
    }
}

/// The labels of `pairs`.
pub open spec fn labels(pairs: Seq<(Seq<char>, Seq<char>)>) -> Seq<Seq<char>> {
    pairs.map_values(|p: (Seq<char>, Seq<char>)| p.0)
}

/// The identifying values of `row` in the columns `idxs[..k]`: label and trimmed
/// value, the first value for each label, blank values left out.
pub open spec fn row_identifiers(headers: Seq<String>, row: Seq<String>, idxs: Seq<usize>, k: int) -> Seq<
    (Seq<char>, Seq<char>),
>
    decreases k,
{
    if k <= 0 {
        seq![]
    } else {
        let prev = row_identifiers(headers, row, idxs, k - 1);
        let c = idxs[k - 1] as int;
        let label = label_of(headers, c);
        if c < row.len() && trim_of(row[c]@).len() > 0 && !labels(prev).contains(label) {
            prev.push((label, trim_of(row[c]@)))
        } else {
            prev
        }
    }
}

/// The label and value texts of identifying pairs.
pub open spec fn pairs_view(v: Seq<(String, String)>) -> Seq<(Seq<char>, Seq<char>)> {
    v.map_values(|p: (String, String)| (p.0@, p.1@))
}

/// The text to embed for one row: its trimmed values in the columns `idxs`, blank
/// ones left out, joined by blank lines; `None` where every one is blank.
pub fn embedding_text(row: &Vec<String>, idxs: &Vec<usize>) -> (r: Option<String>)
    ensures
        match r {
            Some(t) => row_text(row@, idxs@) == Some(t@),
            None => row_text(row@, idxs@) is None,
        },
{
    let mut text = String::new();
    let mut count: usize = 0;
    let mut k: usize = 0;
    while k < idxs.len()
        invariant
            k <= idxs.len(),
            count == text_parts(row@, idxs@, k as int).len(),
            count <= k,
            text@ == join_paragraphs(text_parts(row@, idxs@, k as int)),
        decreases idxs.len() - k,
    {
        let c = idxs[k];
        if c < row.len() {
            let t = trim_text(row[c].as_str());
            if t.as_str().unicode_len() > 0 {
                if count > 0 {
                    text.append("\n\n");
                }
                text.append(t.as_str());
                count = count + 1;
                proof {
                    let parts = text_parts(row@, idxs@, k as int + 1);
                    assert(parts.drop_last() == text_parts(row@, idxs@, k as int));
                    if count == 1 {
                        assert(text@ =~= join_paragraphs(parts));
                    }
                }
            }
        }
        k = k + 1;
    }
    if count == 0 {
        None
    } else {
        Some(text)
    }
}

fn has_label(pairs: &Vec<(String, String)>, label: &String) -> (r: bool)
    ensures
        r == labels(pairs_view(pairs@)).contains(label@),
{
    let ghost ls = labels(pairs_view(pairs@));
    let mut i: usize = 0;
    while i < pairs.len()
        invariant
            i <= pairs.len(),
            ls == labels(pairs_view(pairs@)),
            forall|k: int| 0 <= k < i ==> ls[k] != label@,
        decreases pairs.len() - i,
    {
        if pairs[i].0 == *label {
            assert(ls[i as int] == label@);
            return true;
        }
        i = i + 1;
    }
    false
}

/// The identifying values of one row: for each column of `idxs`, its label and
/// trimmed value, blank values left out, the first value kept for each label.
pub fn identifiers_of(headers: &Vec<String>, row: &Vec<String>, idxs: &Vec<usize>) -> (r: Vec<
    (String, String),
>)
    ensures
        pairs_view(r@) == row_identifiers(headers@, row@, idxs@, idxs.len() as int),
{
    let mut r: Vec<(String, String)> = Vec::new();
    let mut k: usize = 0;
    while k < idxs.len()
        invariant
            k <= idxs.len(),
            pairs_view(r@) == row_identifiers(headers@, row@, idxs@, k as int),
        decreases idxs.len() - k,
    {
        let c = idxs[k];
        if c < row.len() {
            let t = trim_text(row[c].as_str());
            if t.as_str().unicode_len() > 0 {
                let label = header_label(headers, c);
                if !has_label(&r, &label) {
                    let ghost before = r@;
                    r.push((label, t));
                    assert(pairs_view(r@) =~= pairs_view(before).push((label@, t@)));
                }
            }
        }
        k = k + 1;
    }
    r
}

/// The rows that have text to embed, each with its text and identifying values.
pub open spec fn prepared_rows(
    headers: Seq<String>,
    rows: Seq<Vec<String>>,
    eidx: Seq<usize>,
    iidx: Seq<usize>,
    n: int,
) -> Seq<(usize, Seq<char>, Seq<(Seq<char>, Seq<char>)>)>
    decreases n,
{
    if n <= 0 {
        seq![]
    } else {
        let prev = prepared_rows(headers, rows, eidx, iidx, n - 1);
        match row_text(rows[n - 1]@, eidx) {
            Some(t) => prev.push(
                ((n - 1) as usize, t, row_identifiers(headers, rows[n - 1]@, iidx, iidx.len() as int)),
            ),
            None => prev,
        }
    }
}

/// The rows among the first `n` that have no text to embed.
pub open spec fn rows_without_text(rows: Seq<Vec<String>>, eidx: Seq<usize>, n: int) -> nat
    decreases n,
{
    if n <= 0 {
        0
    } else {
        rows_without_text(rows, eidx, n - 1) + if row_text(rows[n - 1]@, eidx) is None {
            1nat
        } else {
            0nat
        }
    }
}

/// The row index, text and identifying pairs of a prepared row.
pub open spec fn context_view(c: RowEmbeddingContext) -> (usize, Seq<char>, Seq<(Seq<char>, Seq<char>)>) {
    (c.row_index, c.text@, pairs_view(c.identifiers@))
}

/// The row indexes of `contexts`.
pub open spec fn context_rows(contexts: Seq<RowEmbeddingContext>) -> Seq<usize> {
    contexts.map_values(|c: RowEmbeddingContext| c.row_index)
}

/// The rows to embed, in increasing row order.
pub open spec fn increasing(ids: Seq<usize>) -> bool {
    forall|a: int, b: int| 0 <= a < b < ids.len() ==> ids[a] < ids[b]
}

/// No row is requested twice.
pub open spec fn distinct_rows(ids: Seq<usize>) -> bool {
    forall|a: int, b: int| 0 <= a < b < ids.len() ==> ids[a] != ids[b]
}

/// The rows of a table that have text to embed, each with its text and
/// identifying values, and the number of rows without such text.
///
/// Fails with `NoDataRows` where the table has no rows, `NoEmbeddingColumns` where
/// `embedding_indexes` is empty, and `NoEmbeddableRows` where no row has text.
pub fn prepare_rows(
    headers: &Vec<String>,
    rows: &Vec<Vec<String>>,
    embedding_indexes: &Vec<usize>,
    identifier_indexes: &Vec<usize>,
) -> (r: Result<(Vec<RowEmbeddingContext>, usize), RefreshError>)
    ensures
        rows.len() == 0 ==> r == Err::<(Vec<RowEmbeddingContext>, usize), RefreshError>(RefreshError::NoDataRows),
        rows.len() > 0 && embedding_indexes.len() == 0 ==> r == Err::<(Vec<RowEmbeddingContext>, usize), RefreshError>(
            RefreshError::NoEmbeddingColumns,
        ),
        rows.len() > 0 && embedding_indexes.len() > 0 ==> {
            let p = prepared_rows(headers@, rows@, embedding_indexes@, identifier_indexes@, rows.len() as int);
            match r {
                Ok((contexts, skipped)) => {
                    &&& p.len() > 0
                    &&& contexts@.map_values(|c: RowEmbeddingContext| context_view(c)) == p
                    &&& increasing(context_rows(contexts@))
                    &&& distinct_rows(context_rows(contexts@))
                    &&& skipped == rows_without_text(rows@, embedding_indexes@, rows.len() as int)
                },
                Err(e) => p.len() == 0 && e == RefreshError::NoEmbeddableRows,
            }
        },
{
    if rows.len() == 0 {
        return Err(RefreshError::NoDataRows);
    }
    if embedding_indexes.len() == 0 {
        return Err(RefreshError::NoEmbeddingColumns);
    }
    let ghost eidx = embedding_indexes@;
    let ghost iidx = identifier_indexes@;
    let mut contexts: Vec<RowEmbeddingContext> = Vec::new();
    let mut skipped: usize = 0;
    let mut r: usize = 0;
    while r < rows.len()
        invariant
            r <= rows.len(),
            eidx == embedding_indexes@,
            iidx == identifier_indexes@,
            contexts@.map_values(|c: RowEmbeddingContext| context_view(c)) == prepared_rows(
                headers@,
                rows@,
                eidx,
                iidx,
                r as int,
            ),
            forall|k: int| 0 <= k < contexts.len() ==> #[trigger] contexts@[k].row_index < r,
            increasing(context_rows(contexts@)),
            skipped == rows_without_text(rows@, eidx, r as int),
            skipped <= r,
        decreases rows.len() - r,
    {
        match embedding_text(&rows[r], embedding_indexes) {
            Some(text) => {
                let identifiers = identifiers_of(headers, &rows[r], identifier_indexes);
                let ghost before = contexts@;
                contexts.push(RowEmbeddingContext { row_index: r, text, identifiers });
                assert(contexts@.map_values(|c: RowEmbeddingContext| context_view(c)) =~= before.map_values(
                    |c: RowEmbeddingContext| context_view(c),
                ).push(context_view(contexts@.last())));
                assert(context_rows(contexts@) =~= context_rows(before).push(r));
            },
            None => {
                skipped = skipped + 1;
            },
        }
        r = r + 1;
    }
    if contexts.len() == 0 {
        return Err(RefreshError::NoEmbeddableRows);
    }
    Ok((contexts, skipped))
}

/// The embedding of the last response row among `resp[lo..n]` whose id is `id`.
pub open spec fn last_answer<V>(resp: Seq<(usize, V)>, lo: int, n: int, id: usize) -> Option<V>
    decreases n - lo,
{
    if n <= lo {
        None
    } else if resp[n - 1].0 == id {
        Some(resp[n - 1].1)
    } else {
        last_answer(resp, lo, n - 1, id)
    }
}

/// The embedding that the response gives row `id`: that of the last response row
/// with this id, if any.
pub open spec fn answer_for<V>(resp: Seq<(usize, V)>, id: usize) -> Option<V> {
    last_answer(resp, 0, resp.len() as int, id)
}

pub proof fn lemma_last_answer_step<V>(resp: Seq<(usize, V)>, lo: int, n: int, id: usize)
    requires
        0 < lo <= n <= resp.len(),
    ensures
        last_answer(resp, lo - 1, n, id) == match last_answer(resp, lo, n, id) {
            Some(v) => Some(v),
            None => if resp[lo - 1].0 == id {
                Some(resp[lo - 1].1)
            } else {
                None
            },
        },
    decreases n - lo,
{
    if n > lo {
        lemma_last_answer_step(resp, lo, n - 1, id);
        assert(last_answer(resp, lo, n, id) == if resp[n - 1].0 == id {
            Some(resp[n - 1].1)
        } else {
            last_answer(resp, lo, n - 1, id)
        });
    } else {
        assert(last_answer(resp, lo - 1, n - 1, id) is None);
        assert(last_answer(resp, lo, n, id) is None);
    }
}

/// The entries built from `contexts[..k]`: one for each context that the response
/// answers, in the order of the contexts.
pub open spec fn answered_entries<T>(contexts: Seq<RowEmbeddingContext>, resp: Seq<(usize, Vec<T>)>, k: int) -> Seq<
    IndexEntry<T>,
>
    decreases k,
{
    if k <= 0 {
        seq![]
    } else {
        let prev = answered_entries(contexts, resp, k - 1);
        let c = contexts[k - 1];
        match answer_for(resp, c.row_index) {
            Some(v) => prev.push(IndexEntry { row_index: c.row_index, identifiers: c.identifiers, embedding: v }),
            None => prev,
        }
    }
}

/// The contexts among `contexts[..k]` that the response does not answer.
pub open spec fn unanswered<T>(contexts: Seq<RowEmbeddingContext>, resp: Seq<(usize, Vec<T>)>, k: int) -> nat
    decreases k,
{
    if k <= 0 {
        0
    } else {
        unanswered(contexts, resp, k - 1) + if answer_for(resp, contexts[k - 1].row_index) is None {
            1nat
        } else {
            0nat
        }
    }
}

fn position_of(ids: &Vec<usize>, id: usize) -> (r: Option<usize>)
    ensures
        match r {
            Some(k) => k < ids.len() && ids@[k as int] == id,
            None => !ids@.contains(id),
        },
{
    let mut k: usize = 0;
    while k < ids.len()
        invariant
            k <= ids.len(),
            forall|x: int| 0 <= x < k ==> ids@[x] != id,
        decreases ids.len() - k,
    {
        if ids[k] == id {
            return Some(k);
        }
        k = k + 1;
    }
    None
}

/// Pairs each requested row with its embedding from the worker's response.
///
/// A response row whose id no context requested is ignored. A context that no
/// response row answers gets no entry and is counted as missing. Where several
/// response rows carry the same id, the last one counts. The entries keep the
/// order of the contexts, and so are in increasing row order where the contexts
/// are.
pub fn assemble_entries<T>(contexts: Vec<RowEmbeddingContext>, response: Vec<(usize, Vec<T>)>) -> (r: (
    Vec<IndexEntry<T>>,
    usize,
))
    requires
        distinct_rows(context_rows(contexts@)),
    ensures
        r.0@ == answered_entries(contexts@, response@, contexts.len() as int),
        r.1 == unanswered(contexts@, response@, contexts.len() as int),
        r.0.len() + r.1 == contexts.len(),
        increasing(context_rows(contexts@)) ==> forall|a: int, b: int|
            0 <= a < b < r.0.len() ==> r.0@[a].row_index < r.0@[b].row_index,
{
    let ghost ctx0 = contexts@;
    let ghost resp0 = response@;
    let m = contexts.len();
    let mut ids: Vec<usize> = Vec::new();
    let mut slots: Vec<Option<Vec<T>>> = Vec::new();
    let mut k: usize = 0;
    while k < m
        invariant
            ctx0 == contexts@,
            m == ctx0.len(),
            k <= m,
            ids.len() == k,
            slots.len() == k,
            forall|x: int| 0 <= x < k ==> #[trigger] ids@[x] == ctx0[x].row_index,
            forall|x: int| 0 <= x < k ==> #[trigger] slots@[x] is None,
        decreases m - k,
    {
        ids.push(contexts[k].row_index);
        slots.push(None);
        k = k + 1;
    }
    let n = response.len();
    let mut response = response;
    while response.len() > 0
        invariant
            ctx0 == contexts@,
            m == ctx0.len(),
            distinct_rows(context_rows(ctx0)),
            ids.len() == m,
            slots.len() == m,
            forall|x: int| 0 <= x < m ==> #[trigger] ids@[x] == ctx0[x].row_index,
            n == resp0.len(),
            response.len() <= n,
            response@ == resp0.subrange(0, response.len() as int),
            forall|x: int|
                0 <= x < m ==> #[trigger] slots@[x] == last_answer(
                    resp0,
                    response.len() as int,
                    n as int,
                    ids@[x],
                ),
        decreases response.len(),
    {
        let ghost lo = response.len() as int;
        let (id, v) = response.pop().unwrap();
        assert(resp0[lo - 1] == (id, v));
        let pos = position_of(&ids, id);
        proof {
            assert forall|x: int| 0 <= x < m implies #[trigger] last_answer(resp0, lo - 1, n as int, ids@[x])
                == match last_answer(resp0, lo, n as int, ids@[x]) {
                Some(w) => Some(w),
                None => if id == ids@[x] {
                    Some(v)
                } else {
                    None
                },
            } by {
                lemma_last_answer_step(resp0, lo, n as int, ids@[x]);
            }
        }
        match pos {
            Some(k) => {
                if slots[k].is_none() {
                    slots.set(k, Some(v));
                }
                proof {
                    assert forall|x: int| 0 <= x < m && x != k implies ids@[x] != id by {
                        assert(context_rows(ctx0)[x] == ids@[x]);
                        assert(context_rows(ctx0)[k as int] == ids@[k as int]);
                    }
                }
            },
            None => {
                proof {
                    assert forall|x: int| 0 <= x < m implies ids@[x] != id by {
                        if ids@[x] == id {
                            assert(ids@.contains(id));
                        }
                    }
                }
            },
        }
    }
    let mut contexts = contexts;
    let mut entries: Vec<IndexEntry<T>> = Vec::new();
    let mut missing: usize = 0;
    let mut k: usize = 0;
    while k < m
        invariant
            m == ctx0.len(),
            k <= m,
            contexts@ == ctx0.subrange(k as int, m as int),
            slots.len() == m - k,
            forall|x: int|
                0 <= x < m - k ==> #[trigger] slots@[x] == answer_for(resp0, ctx0[x + k].row_index),
            entries@ == answered_entries(ctx0, resp0, k as int),
            missing == unanswered(ctx0, resp0, k as int),
            entries.len() + missing == k,
        decreases m - k,
    {
        let c = contexts.remove(0);
        let slot = slots.remove(0);
        assert(c == ctx0[k as int]);
        match slot {
            Some(v) => {
                entries.push(IndexEntry { row_index: c.row_index, identifiers: c.identifiers, embedding: v });
            },
            None => {
                missing = missing + 1;
            },
        }
        k = k + 1;
    }
    proof {
        if increasing(context_rows(ctx0)) {
            lemma_entries_sorted(ctx0, resp0, m as int);
        }
    }
    (entries, missing)
}

/// Some returned vector for a requested row has a length other than `dimension`.
pub open spec fn length_mismatch<T>(resp: Seq<(usize, Vec<T>)>, requested: Seq<usize>, dimension: usize) -> bool {
    exists|j: int| 0 <= j < resp.len() && requested.contains((#[trigger] resp[j]).0) && resp[j].1@.len() != dimension
}

/// The index of a candidate table, from the rows prepared for embedding and the
/// worker's answer.
///
/// Fails with `EmptyResponse` where the answer has no rows or a dimension of zero,
/// with `DimensionMismatch` where a vector returned for a requested row has a
/// length other than the reported dimension (rows nobody requested are ignored), and with `NoEmbeddings` where none of the requested rows
/// came back. The entries are those of `assemble_entries`, each with a vector of
/// `dimension` items; of the table's `total_rows` rows, those without an entry
/// count as skipped.
pub fn build_embedding_index<T>(
    contexts: Vec<RowEmbeddingContext>,
    total_rows: usize,
    model: String,
    dimension: usize,
    response: Vec<(usize, Vec<T>)>,
    generated_at: Option<String>,
    embedding_columns: Vec<String>,
    identifier_columns: Vec<String>,
) -> (r: Result<EmbeddingIndex<T>, RefreshError>)
    requires
        distinct_rows(context_rows(contexts@)),
    ensures
        dimension == 0 || response.len() == 0 ==> r == Err::<EmbeddingIndex<T>, RefreshError>(
            RefreshError::EmptyResponse,
        ),
        dimension > 0 && response.len() > 0 && length_mismatch(response@, context_rows(contexts@), dimension) ==> r == Err::<
            EmbeddingIndex<T>,
            RefreshError,
        >(RefreshError::DimensionMismatch),
        dimension > 0 && response.len() > 0 && !length_mismatch(response@, context_rows(contexts@), dimension) ==> {
            let entries = answered_entries(contexts@, response@, contexts.len() as int);
            match r {
                Ok(index) => {
                    &&& entries.len() > 0
                    &&& index.entries@ == entries
                    &&& well_formed(index)
                    &&& index.model == model
                    &&& index.dimension == dimension
                    &&& index.generated_at == generated_at
                    &&& index.embedding_columns == embedding_columns
                    &&& index.identifier_columns == identifier_columns
                    &&& index.total_rows == Some(total_rows)
                    &&& index.embedded_rows == Some(entries.len() as usize)
                    &&& index.skipped_rows == Some(
                        if total_rows >= entries.len() {
                            (total_rows - entries.len()) as usize
                        } else {
                            0usize
                        },
                    )
                    &&& increasing(context_rows(contexts@)) ==> forall|a: int, b: int|
                        0 <= a < b < entries.len() ==> entries[a].row_index < entries[b].row_index
                },
                Err(e) => entries.len() == 0 && e == RefreshError::NoEmbeddings,
            }
        },
{
    if dimension == 0 || response.len() == 0 {
        return Err(RefreshError::EmptyResponse);
    }
    let mut ids: Vec<usize> = Vec::new();
    let mut k: usize = 0;
    while k < contexts.len()
        invariant
            k <= contexts.len(),
            ids@ == context_rows(contexts@).subrange(0, k as int),
        decreases contexts.len() - k,
    {
        ids.push(contexts[k].row_index);
        k = k + 1;
    }
    assert(ids@ =~= context_rows(contexts@));
    let mut j: usize = 0;
    while j < response.len()
        invariant
            j <= response.len(),
            dimension > 0,
            response.len() > 0,
            ids@ == context_rows(contexts@),
            forall|x: int| 0 <= x < j && ids@.contains((#[trigger] response@[x]).0) ==> response@[x].1@.len() == dimension,
        decreases response.len() - j,
    {
        if response[j].1.len() != dimension && crate::ranking::contains_index(&ids, response[j].0) {
            assert(length_mismatch(response@, context_rows(contexts@), dimension));
            return Err(RefreshError::DimensionMismatch);
        }
        j = j + 1;
    }
    let ghost ctx = contexts@;
    let ghost resp = response@;
    let (entries, _missing) = assemble_entries(contexts, response);
    proof {
        lemma_entry_lengths(ctx, resp, ctx.len() as int, dimension);
    }
    if entries.len() == 0 {
        return Err(RefreshError::NoEmbeddings);
    }
    let embedded = entries.len();
    let skipped = if total_rows >= embedded {
        total_rows - embedded
    } else {
        0
    };
    Ok(
        EmbeddingIndex {
            model,
            generated_at,
            dimension,
            total_rows: Some(total_rows),
            embedded_rows: Some(embedded),
            skipped_rows: Some(skipped),
            embedding_columns,
            identifier_columns,
            entries,
        },
    )
}

proof fn lemma_last_answer_length<T>(resp: Seq<(usize, Vec<T>)>, lo: int, n: int, id: usize, d: usize)
    requires
        0 <= lo,
        n <= resp.len(),
        forall|x: int| 0 <= x < resp.len() && (#[trigger] resp[x]).0 == id ==> resp[x].1@.len() == d,
    ensures
        last_answer(resp, lo, n, id) matches Some(v) ==> v@.len() == d,
    decreases n - lo,
{
    if n > lo && resp[n - 1].0 != id {
        lemma_last_answer_length(resp, lo, n - 1, id, d);
    }
}

proof fn lemma_entry_lengths<T>(contexts: Seq<RowEmbeddingContext>, resp: Seq<(usize, Vec<T>)>, k: int, d: usize)
    requires
        0 <= k <= contexts.len(),
        forall|x: int|
            0 <= x < resp.len() && context_rows(contexts).contains((#[trigger] resp[x]).0) ==> resp[x].1@.len() == d,
    ensures
        forall|e: int|
            0 <= e < answered_entries(contexts, resp, k).len() ==> (#[trigger] answered_entries(contexts, resp, k)[e]).embedding@.len()
                == d,
    decreases k,
{
    if k > 0 {
        lemma_entry_lengths(contexts, resp, k - 1, d);
        assert(context_rows(contexts)[k - 1] == contexts[k - 1].row_index);
        assert(context_rows(contexts).contains(contexts[k - 1].row_index));
        lemma_last_answer_length(resp, 0, resp.len() as int, contexts[k - 1].row_index, d);
        let prev = answered_entries(contexts, resp, k - 1);
        let cur = answered_entries(contexts, resp, k);
        assert forall|e: int| 0 <= e < cur.len() implies (#[trigger] cur[e]).embedding@.len() == d by {
            if e < prev.len() {
                assert(cur[e] == prev[e]);
            }
        }
    }
}

proof fn lemma_entries_sorted<T>(contexts: Seq<RowEmbeddingContext>, resp: Seq<(usize, Vec<T>)>, k: int)
    requires
        0 <= k <= contexts.len(),
        increasing(context_rows(contexts)),
    ensures
        forall|a: int, b: int|
            0 <= a < b < answered_entries(contexts, resp, k).len() ==> answered_entries(contexts, resp, k)[a].row_index
                < answered_entries(contexts, resp, k)[b].row_index,
    decreases k,
{
    if k > 0 {
        lemma_entries_sorted(contexts, resp, k - 1);
        lemma_entries_come_from(contexts, resp, k - 1);
        let prev = answered_entries(contexts, resp, k - 1);
        let cur = answered_entries(contexts, resp, k);
        assert forall|a: int, b: int| 0 <= a < b < cur.len() implies cur[a].row_index < cur[b].row_index by {
            assert(cur[a] == prev[a]);
            if b < prev.len() {
                assert(cur[b] == prev[b]);
            } else {
                let j = choose|j: int|
                    0 <= j < k - 1 && #[trigger] prev[a].row_index == contexts[j].row_index && answer_for(
                        resp,
                        contexts[j].row_index,
                    ) is Some;
                assert(context_rows(contexts)[j] == contexts[j].row_index);
                assert(context_rows(contexts)[k - 1] == contexts[k - 1].row_index);
            }
        }
    }
}

proof fn lemma_last_answer_prefix<V>(a: Seq<(usize, V)>, b: Seq<(usize, V)>, n: int, id: usize)
    requires
        0 <= n <= a.len(),
        n <= b.len(),
        forall|i: int| 0 <= i < n ==> a[i] == b[i],
    ensures
        last_answer(a, 0, n, id) == last_answer(b, 0, n, id),
    decreases n,
{
    if n > 0 {
        lemma_last_answer_prefix(a, b, n - 1, id);
    }
}

proof fn lemma_last_answer_insert<V>(resp: Seq<(usize, V)>, pos: int, e: (usize, V), n: int, other: usize)
    requires
        e.0 != other,
        0 <= pos <= n <= resp.len(),
    ensures
        last_answer(resp.insert(pos, e), 0, n + 1, other) == last_answer(resp, 0, n, other),
    decreases n - pos,
{
    let r2 = resp.insert(pos, e);
    if n == pos {
        lemma_last_answer_prefix(resp, r2, pos, other);
    } else {
        lemma_last_answer_insert(resp, pos, e, n - 1, other);
        assert(r2[n] == resp[n - 1]);
    }
}

/// A response row whose id no context requested, wherever it stands in the
/// response, changes neither the entries nor the count of missing rows.
pub proof fn lemma_unrequested_answer_ignored<T>(
    contexts: Seq<RowEmbeddingContext>,
    resp: Seq<(usize, Vec<T>)>,
    pos: int,
    id: usize,
    v: Vec<T>,
    k: int,
)
    requires
        0 <= k <= contexts.len(),
        0 <= pos <= resp.len(),
        !context_rows(contexts).contains(id),
    ensures
        answered_entries(contexts, resp.insert(pos, (id, v)), k) == answered_entries(contexts, resp, k),
        unanswered(contexts, resp.insert(pos, (id, v)), k) == unanswered(contexts, resp, k),
    decreases k,
{
    if k > 0 {
        lemma_unrequested_answer_ignored(contexts, resp, pos, id, v, k - 1);
        assert(context_rows(contexts)[k - 1] == contexts[k - 1].row_index);
        lemma_last_answer_insert(resp, pos, (id, v), resp.len() as int, contexts[k - 1].row_index);
    }
}

proof fn lemma_entries_come_from<T>(contexts: Seq<RowEmbeddingContext>, resp: Seq<(usize, Vec<T>)>, k: int)
    requires
        0 <= k <= contexts.len(),
    ensures
        forall|e: int|
            0 <= e < answered_entries(contexts, resp, k).len() ==> exists|j: int|
                0 <= j < k && #[trigger] answered_entries(contexts, resp, k)[e].row_index
                    == contexts[j].row_index && answer_for(resp, contexts[j].row_index) is Some,
    decreases k,
{
    if k > 0 {
        lemma_entries_come_from(contexts, resp, k - 1);
        let prev = answered_entries(contexts, resp, k - 1);
        let cur = answered_entries(contexts, resp, k);
        assert forall|e: int| 0 <= e < cur.len() implies exists|j: int|
            0 <= j < k && #[trigger] cur[e].row_index == contexts[j].row_index && answer_for(
                resp,
                contexts[j].row_index,
            ) is Some by {
            if e < prev.len() {
                assert(cur[e] == prev[e]);
                let j = choose|j: int|
                    0 <= j < k - 1 && #[trigger] prev[e].row_index == contexts[j].row_index && answer_for(
                        resp,
                        contexts[j].row_index,
                    ) is Some;
                assert(cur[e].row_index == contexts[j].row_index);
            } else {
                assert(cur[e].row_index == contexts[k - 1].row_index);
            }
        }
    }
}

proof fn lemma_unanswered_counts<T>(contexts: Seq<RowEmbeddingContext>, resp: Seq<(usize, Vec<T>)>, k: int, j: int)
    requires
        0 <= j < k <= contexts.len(),
        answer_for(resp, contexts[j].row_index) is None,
    ensures
        unanswered(contexts, resp, k) >= 1,
    decreases k,
{
    if j < k - 1 {
        lemma_unanswered_counts(contexts, resp, k - 1, j);
    }
}

/// A requested row that no response row answers has no entry, and is counted as
/// missing.
pub proof fn lemma_unanswered_request_missing<T>(
    contexts: Seq<RowEmbeddingContext>,
    resp: Seq<(usize, Vec<T>)>,
    j: int,
)
    requires
        distinct_rows(context_rows(contexts)),
        0 <= j < contexts.len(),
        answer_for(resp, contexts[j].row_index) is None,
    ensures
        forall|e: int|
            0 <= e < answered_entries(contexts, resp, contexts.len() as int).len()
                ==> #[trigger] answered_entries(contexts, resp, contexts.len() as int)[e].row_index
                != contexts[j].row_index,
        unanswered(contexts, resp, contexts.len() as int) >= 1,
{
    let m = contexts.len() as int;
    lemma_entries_come_from(contexts, resp, m);
    lemma_unanswered_counts(contexts, resp, m, j);
    let es = answered_entries(contexts, resp, m);
    assert forall|e: int| 0 <= e < es.len() implies #[trigger] es[e].row_index != contexts[j].row_index by {
        let i = choose|i: int|
            0 <= i < m && #[trigger] es[e].row_index == contexts[i].row_index && answer_for(
                resp,
                contexts[i].row_index,
            ) is Some;
        if i != j {
            assert(context_rows(contexts)[i] == contexts[i].row_index);
            assert(context_rows(contexts)[j] == contexts[j].row_index);
        }
    }
}

} // verus!
