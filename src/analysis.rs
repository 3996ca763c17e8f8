use vstd::prelude::*;
use crate::columns::{
    columns_fit, flag_list, text_flag_seq, id_flag_seq, category_flag_seq, suggest_spreadsheet_columns,
    suggest_program_columns,
};
use crate::headers::{normalize_column_selection, indexes_to_headers, selection, header_selection, views};
use crate::dataset::{
    build_faculty_program_memberships, collect_program_values, membership_rows, records_row, scanned_values,
    first_by_case, FacultyProgramMembership,
};
use crate::text::{lower_of, text_before};

verus! {

/// Columns chosen by hand for each role, by index.
pub struct ColumnConfiguration {
    pub embedding_columns: Vec<usize>,
    pub identifier_columns: Vec<usize>,
    pub program_columns: Vec<usize>,
}

/// The roles of a candidate table's columns, by label, and the categories found.
pub struct DatasetAnalysis {
    pub embedding_columns: Vec<String>,
    pub identifier_columns: Vec<String>,
    pub program_columns: Vec<String>,
    pub available_programs: Vec<String>,
}

/// Why a candidate table cannot be analysed.
#[derive(Clone, Copy, Debug, PartialEq, Eq)]
pub enum AnalysisError {
    /// The table has no columns.
    NoColumns,
    /// No column is chosen as text to embed.
    NoEmbeddingColumns,
    /// No column is chosen as identifier.
    NoIdentifierColumns,
}

/// The columns chosen for each role: those of the configuration where there is one,
/// kept when they exist and each once; else the suggested ones.
pub open spec fn chosen_columns(
    headers: Seq<String>,
    rows: Seq<Vec<String>>,
    config: Option<(Seq<usize>, Seq<usize>, Seq<usize>)>,
) -> (Seq<usize>, Seq<usize>, Seq<usize>) {
    let n = headers.len();
    match config {
        Some((e, i, p)) => (
            selection(e, n as usize, e.len() as int),
            selection(i, n as usize, i.len() as int),
            selection(p, n as usize, p.len() as int),
        ),
        None => (
            flag_list(text_flag_seq(headers, rows), n as int),
            flag_list(id_flag_seq(headers, rows), n as int),
            flag_list(category_flag_seq(headers, rows), n as int),
        ),
    }
}

/// A column choice made by hand is kept as given: it depends on the number of
/// columns alone, never on what the rows hold.
pub proof fn lemma_configured_choice_is_kept(
    headers1: Seq<String>,
    rows1: Seq<Vec<String>>,
    headers2: Seq<String>,
    rows2: Seq<Vec<String>>,
    config: (Seq<usize>, Seq<usize>, Seq<usize>),
)
    requires
        headers1.len() == headers2.len(),
    ensures
        chosen_columns(headers1, rows1, Some(config)) == chosen_columns(headers2, rows2, Some(config)),
{
}

/// The index lists of an optional configuration.
pub open spec fn config_view(config: Option<&ColumnConfiguration>) -> Option<(Seq<usize>, Seq<usize>, Seq<usize>)> {
    match config {
        Some(c) => Some((c.embedding_columns@, c.identifier_columns@, c.program_columns@)),
        None => None,
    }
}

/// The analysis of a candidate table: the columns of each role, chosen by hand
/// where `config` is given and suggested otherwise, their labels, the categories
/// found, and each row's identifiers and categories.
///
/// Fails with `NoColumns` where the table has no columns, `NoEmbeddingColumns` where
/// no column holds text to embed, and `NoIdentifierColumns` where none identifies.
pub fn analyze_table(headers: &Vec<String>, rows: &Vec<Vec<String>>, config: Option<&ColumnConfiguration>) -> (r:
    Result<(DatasetAnalysis, Vec<FacultyProgramMembership>), AnalysisError>)
    requires
        columns_fit(rows@, headers.len() as int),
    ensures
        ({
            let (e, i, p) = chosen_columns(headers@, rows@, config_view(config));
            let vals = scanned_values(rows@, p, rows.len() as int);
            let rs = membership_rows(headers@, rows@, i, p, rows.len() as int);
            if headers.len() == 0 {
                r == Err::<(DatasetAnalysis, Vec<FacultyProgramMembership>), AnalysisError>(AnalysisError::NoColumns)
            } else if e.len() == 0 {
                r == Err::<(DatasetAnalysis, Vec<FacultyProgramMembership>), AnalysisError>(
                    AnalysisError::NoEmbeddingColumns,
                )
            } else if i.len() == 0 {
                r == Err::<(DatasetAnalysis, Vec<FacultyProgramMembership>), AnalysisError>(
                    AnalysisError::NoIdentifierColumns,
                )
            } else {
                r matches Ok((a, ms)) && {
                    &&& views(a.embedding_columns@) == header_selection(headers@, e, e.len() as int).0
                    &&& views(a.identifier_columns@) == header_selection(headers@, i, i.len() as int).0
                    &&& views(a.program_columns@) == header_selection(headers@, p, p.len() as int).0
                    &&& forall|x: int, y: int|
                        0 <= x < y < a.available_programs.len() ==> text_before(
                            lower_of(a.available_programs@[x]@),
                            lower_of(a.available_programs@[y]@),
                        )
                    &&& forall|v: Seq<char>|
                        views(a.available_programs@).contains(v) <==> first_by_case(vals, vals.len() as int).0.contains(v)
                    &&& ms.len() == rs.len()
                    &&& forall|k: int| 0 <= k < ms.len() ==> records_row(headers@, rows@, i, p, rs[k] as int, #[trigger] ms@[k])
                }
            }
        }),
{
    let n = headers.len();
    if n == 0 {
        return Err(AnalysisError::NoColumns);
    }
    let (embedding, identifier, program) = match config {
        Some(c) => (
            normalize_column_selection(&c.embedding_columns, n),
            normalize_column_selection(&c.identifier_columns, n),
            normalize_column_selection(&c.program_columns, n),
        ),
        None => {
            let (e, i) = suggest_spreadsheet_columns(headers, rows);
            let p = suggest_program_columns(headers, rows);
            (e, i, p)
        },
    };
    if embedding.len() == 0 {
        return Err(AnalysisError::NoEmbeddingColumns);
    }
    if identifier.len() == 0 {
        return Err(AnalysisError::NoIdentifierColumns);
    }
    let analysis = DatasetAnalysis {
        embedding_columns: indexes_to_headers(headers, &embedding),
        identifier_columns: indexes_to_headers(headers, &identifier),
        program_columns: indexes_to_headers(headers, &program),
        available_programs: collect_program_values(rows, &program),
    };
    let memberships = build_faculty_program_memberships(headers, rows, &identifier, &program);
    Ok((analysis, memberships))
}

} // verus!
