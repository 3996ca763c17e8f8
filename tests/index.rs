use faculty_match::queries::{add_faculty_text, pair_query_embeddings, query_table_results, spreadsheet_row_labels, table_queries, QueryBatchError, RowStatus};
use faculty_match::ranking::MatchCandidate;
use faculty_match::index::{assemble_entries, build_embedding_index, embedding_text, identifiers_of, prepare_rows, RefreshError, RowEmbeddingContext};

fn s(v: &str) -> String {
    v.to_string()
}

fn ctx(row_index: usize) -> RowEmbeddingContext {
    RowEmbeddingContext { row_index, text: format!("row {row_index}"), identifiers: Vec::new() }
}

#[test]
fn rows_with_text_lengths_fifty_five_and_zero() {
    let headers = vec![s("Name"), s("Research")];
    let fifty = "x".repeat(50);
    let rows = vec![vec![s("A"), fifty.clone()], vec![s("B"), s("short")], vec![s("C"), s("   ")]];
    let (contexts, skipped) = prepare_rows(&headers, &rows, &vec![1], &vec![0]).unwrap();
    assert_eq!(skipped, 1);
    assert_eq!(contexts.len(), 2);
    assert_eq!(contexts[0].row_index, 0);
    assert_eq!(contexts[0].text, fifty);
    assert_eq!(contexts[1].row_index, 1);
    assert_eq!(contexts[1].text, "short");
    assert_eq!(contexts[1].identifiers, vec![(s("Name"), s("B"))]);
    let response: Vec<(usize, Vec<f32>)> = contexts.iter().map(|c| (c.row_index, vec![1.0, 0.0])).collect();
    let index = build_embedding_index(contexts, rows.len(), s("model"), 2, response, None, vec![s("Research")], vec![s("Name")]).unwrap();
    assert_eq!(index.embedded_rows, Some(2));
    assert_eq!(index.skipped_rows, Some(1));
    assert_eq!(index.total_rows, Some(3));
    assert_eq!(index.entries.len(), 2);
    assert_eq!(index.dimension, 2);
}

#[test]
fn text_parts_joined_by_blank_lines() {
    let row = vec![s(" first "), s(""), s("second"), s("third")];
    assert_eq!(embedding_text(&row, &vec![0, 1, 2, 9]), Some(s("first\n\nsecond")));
    assert_eq!(embedding_text(&row, &vec![1, 9]), None);
    assert_eq!(embedding_text(&row, &vec![]), None);
}

#[test]
fn identifiers_keep_first_value_per_label() {
    let headers = vec![s("Name"), s(" Name "), s(""), s("Email")];
    let row = vec![s("Ann"), s("Other"), s("x1"), s(" ")];
    let ids = identifiers_of(&headers, &row, &vec![0, 1, 2, 3]);
    assert_eq!(ids, vec![(s("Name"), s("Ann")), (s("Column 3"), s("x1"))]);
}

#[test]
fn prepare_rows_errors() {
    let headers = vec![s("A")];
    let empty: Vec<Vec<String>> = Vec::new();
    assert_eq!(prepare_rows(&headers, &empty, &vec![0], &vec![]).err(), Some(RefreshError::NoDataRows));
    let rows = vec![vec![s("x")]];
    assert_eq!(prepare_rows(&headers, &rows, &vec![], &vec![]).err(), Some(RefreshError::NoEmbeddingColumns));
    let blank = vec![vec![s(" ")]];
    assert_eq!(prepare_rows(&headers, &blank, &vec![0], &vec![]).err(), Some(RefreshError::NoEmbeddableRows));
}

#[test]
fn unrequested_ids_ignored_and_missing_counted() {
    let contexts = vec![ctx(1), ctx(4), ctx(6)];
    let response = vec![(4usize, vec!['a']), (99usize, vec!['z']), (1usize, vec!['b']), (4usize, vec!['c'])];
    let (entries, missing) = assemble_entries(contexts, response);
    assert_eq!(missing, 1);
    let got: Vec<(usize, Vec<char>)> = entries.iter().map(|e| (e.row_index, e.embedding.clone())).collect();
    assert_eq!(got, vec![(1, vec!['b']), (4, vec!['c'])]);
}

#[test]
fn build_index_errors() {
    let r = build_embedding_index(vec![ctx(0)], 1, s("m"), 0, vec![(0usize, vec![1u8])], None, vec![], vec![]);
    assert_eq!(r.err(), Some(RefreshError::EmptyResponse));
    let r = build_embedding_index::<u8>(vec![ctx(0)], 1, s("m"), 3, vec![], None, vec![], vec![]);
    assert_eq!(r.err(), Some(RefreshError::EmptyResponse));
    let r = build_embedding_index(vec![ctx(0)], 1, s("m"), 3, vec![(5usize, vec![1u8, 2, 3])], None, vec![], vec![]);
    assert_eq!(r.err(), Some(RefreshError::NoEmbeddings));
    let r = build_embedding_index(vec![ctx(0)], 1, s("m"), 2, vec![(0usize, vec![1u8])], None, vec![], vec![]);
    assert_eq!(r.err(), Some(RefreshError::DimensionMismatch));
}

#[test]
fn build_index_keeps_metadata() {
    let r = build_embedding_index(vec![ctx(2), ctx(3)], 2, s("m"), 1, vec![(3usize, vec![7u8]), (2usize, vec![9u8])], Some(s("t")), vec![s("E")], vec![s("I")]).unwrap();
    assert_eq!(r.model, "m");
    assert_eq!(r.generated_at, Some(s("t")));
    assert_eq!(r.embedding_columns, vec![s("E")]);
    assert_eq!(r.identifier_columns, vec![s("I")]);
    let got: Vec<(usize, Vec<u8>)> = r.entries.iter().map(|e| (e.row_index, e.embedding.clone())).collect();
    assert_eq!(got, vec![(2, vec![9]), (3, vec![7])]);
    assert_eq!(r.skipped_rows, Some(0));
}

#[test]
fn spreadsheet_row_labels_with_and_without_identifiers() {
    let row = vec![s(" Ann "), s(""), s("ann@x.edu")];
    let l = spreadsheet_row_labels(&row, 0, &vec![0, 1, 2, 7]);
    assert_eq!(l.identifier_values, vec![s(" Ann "), s(""), s("ann@x.edu"), s("")]);
    assert_eq!(l.identifier_label, "Ann \u{2013} ann@x.edu");
    assert_eq!(l.warning_label, "row 2 (Ann \u{2013} ann@x.edu)");
    let l = spreadsheet_row_labels(&row, 4, &vec![]);
    assert_eq!(l.identifier_values, vec![s("6")]);
    assert_eq!(l.identifier_label, "Row 6");
    assert_eq!(l.warning_label, "row 6");
    let l = spreadsheet_row_labels(&row, 9, &vec![1]);
    assert_eq!(l.identifier_label, "Row 11");
    assert_eq!(l.warning_label, "row 11");
}

#[test]
fn query_embeddings_paired_by_id() {
    let slots = pair_query_embeddings(3, 2, 2, vec![(2usize, vec![1u8, 2]), (7usize, vec![9u8, 9]), (0usize, vec![3u8, 4]), (2usize, vec![5u8, 6])]).unwrap();
    assert_eq!(slots, vec![Some(vec![3u8, 4]), None, Some(vec![5u8, 6])]);
    assert_eq!(
        pair_query_embeddings::<u8>(1, 768, 512, vec![]).err(),
        Some(QueryBatchError::DimensionMismatch { reported: 512, dimension: 768 })
    );
}

#[test]
fn query_table_rows_and_counts() {
    let cand = |row_index: usize| MatchCandidate { row_index, similarity: 1, identifiers: Vec::new(), faculty_text: None, rank_for_candidate: None, rank_total: None };
    let rows = vec![
        vec![s("Ann"), s("genomics")],
        vec![s("Bo"), s("  ")],
        vec![s("Cy"), s("ecology")],
        vec![s("Di"), s("neurons")],
        vec![s("Ed"), s("cells")],
    ];
    let queries = table_queries(&rows, &vec![1]);
    let got: Vec<(usize, String)> = queries.clone();
    assert_eq!(got, vec![(0, s("genomics")), (2, s("ecology")), (3, s("neurons")), (4, s("cells"))]);
    let answers = vec![Some(vec![cand(7), cand(8)]), None, Some(vec![]), Some(vec![cand(9)])];
    let o = query_table_results(&rows, &vec![1], &vec![0], answers, 2);
    assert_eq!(o.results.len(), 5);
    assert_eq!((o.processed_rows, o.matched_rows, o.skipped_rows, o.total_matches), (3, 2, 2, 3));
    assert!(matches!(&o.results[0].status, RowStatus::Matched(m) if m.len() == 2));
    assert!(matches!(o.results[1].status, RowStatus::NoPrompt));
    assert!(matches!(o.results[2].status, RowStatus::NoEmbedding));
    assert!(matches!(&o.results[3].status, RowStatus::Matched(m) if m.is_empty()));
    assert!(matches!(&o.results[4].status, RowStatus::Matched(m) if m[0].row_index == 9));
    assert_eq!(o.results[0].labels.identifier_label, "Ann");
    assert_eq!(o.results[1].labels.warning_label, "row 3 (Bo)");
}

#[test]
fn faculty_text_added_from_rows() {
    let rows = vec![vec![s("Ann"), s(" neurons ")], vec![s("Bo"), s("")]];
    let mk = |row_index: usize| MatchCandidate { row_index, similarity: 5, identifiers: Vec::new(), faculty_text: None, rank_for_candidate: Some(1), rank_total: Some(1) };
    let mut m = vec![mk(0), mk(1), mk(9)];
    add_faculty_text(&mut m, &rows, &vec![1]);
    assert_eq!(m[0].faculty_text, Some(s("neurons")));
    assert_eq!(m[1].faculty_text, None);
    assert_eq!(m[2].faculty_text, None);
    assert_eq!(m[0].rank_for_candidate, Some(1));
}
