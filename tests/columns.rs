use faculty_match::analysis::{analyze_table, AnalysisError, ColumnConfiguration};
use faculty_match::columns::{compute_column_stats, is_numeric_like, suggest_program_columns, suggest_spreadsheet_columns};

fn s(v: &str) -> String {
    v.to_string()
}

fn table(rows: &[&[&str]]) -> Vec<Vec<String>> {
    rows.iter().map(|r| r.iter().map(|c| s(c)).collect()).collect()
}

#[test]
fn research_interests_and_email_by_header() {
    let headers = vec![s("Email"), s("Research Interests")];
    let rows = table(&[&["a@b.edu", "x"], &["c@d.edu", "yz"]]);
    let (text, ids) = suggest_spreadsheet_columns(&headers, &rows);
    assert_eq!(text, vec![1]);
    assert_eq!(ids, vec![0]);
}

#[test]
fn numeric_like_values() {
    assert!(is_numeric_like(" 12.5 "));
    assert!(is_numeric_like("2024-01-02"));
    assert!(!is_numeric_like("12a"));
    assert!(!is_numeric_like("   "));
    assert!(!is_numeric_like(""));
}

#[test]
fn column_stats_exact() {
    let headers = vec![s("A"), s("B")];
    let rows = table(&[&[" abc ", "1"], &["", "22"], &["hello"]]);
    let st = compute_column_stats(&headers, &rows);
    assert_eq!(st.len(), 2);
    assert_eq!((st[0].index, st[0].non_empty, st[0].total_length, st[0].max_length, st[0].numeric_like), (0, 2, 8, 5, 0));
    assert_eq!((st[1].index, st[1].non_empty, st[1].total_length, st[1].max_length, st[1].numeric_like), (1, 2, 3, 2, 2));
}

#[test]
fn fallback_picks_long_text_and_short_ids() {
    let long = "a long description of research in molecular biology";
    let headers = vec![s("Col A"), s("Col B"), s("Col C")];
    let rows = table(&[&["1001", "Alice", long], &["1002", "Bob", long]]);
    let (text, ids) = suggest_spreadsheet_columns(&headers, &rows);
    assert_eq!(text, vec![2]);
    assert_eq!(ids, vec![0, 1]);
}

#[test]
fn fallback_text_takes_best_short_candidate() {
    let headers = vec![s("X"), s("Y")];
    let rows = table(&[&["ab", "abcd"], &["cd", "ef"]]);
    let (text, ids) = suggest_spreadsheet_columns(&headers, &rows);
    assert_eq!(text, vec![1]);
    assert_eq!(ids, vec![0, 1]);
}

#[test]
fn identifier_fallback_caps_at_three() {
    let headers = vec![s("P"), s("Q"), s("R"), s("S"), s("T")];
    let rows = table(&[&["a", "bb", "ccc", "dddd", "eeeee"]]);
    let (_, ids) = suggest_spreadsheet_columns(&headers, &rows);
    assert_eq!(ids, vec![0, 1, 2]);
}

#[test]
fn empty_table_defaults() {
    let headers = vec![s("P"), s("Q")];
    let rows: Vec<Vec<String>> = Vec::new();
    let (text, ids) = suggest_spreadsheet_columns(&headers, &rows);
    assert_eq!(text, vec![1]);
    assert_eq!(ids, vec![0]);
    let none: Vec<String> = Vec::new();
    let (t2, i2) = suggest_spreadsheet_columns(&none, &rows);
    assert!(t2.is_empty() && i2.is_empty());
}

#[test]
fn program_columns_by_header() {
    let headers = vec![s("Name"), s("Graduate Program"), s("Department")];
    let rows = table(&[&["A", "Bio", "Chem"]]);
    assert_eq!(suggest_program_columns(&headers, &rows), vec![1, 2]);
}

#[test]
fn program_columns_by_low_cardinality() {
    let headers = vec![s("A"), s("B"), s("C"), s(" ")];
    let rows = table(&[
        &["x1", "bio", "u", "q"],
        &["x2", "BIO", "v", "q"],
        &["x3", "chem", "u", "q"],
        &["x4", "bio", "w", "q"],
    ]);
    assert_eq!(suggest_program_columns(&headers, &rows), vec![0, 1, 2]);
}

#[test]
fn analysis_with_suggested_columns() {
    let headers = vec![s("Name"), s("Research Interests"), s("Department")];
    let rows = table(&[&["Ann", "neurons", "Bio"], &["Bo", "", "chem"], &["", "", ""]]);
    let (a, ms) = analyze_table(&headers, &rows, None).unwrap();
    assert_eq!(a.embedding_columns, vec![s("Research Interests")]);
    assert_eq!(a.identifier_columns, vec![s("Name")]);
    assert_eq!(a.program_columns, vec![s("Department")]);
    assert_eq!(a.available_programs, vec![s("Bio"), s("chem")]);
    let rows_recorded: Vec<usize> = ms.iter().map(|m| m.row_index).collect();
    assert_eq!(rows_recorded, vec![0, 1]);
}

#[test]
fn analysis_keeps_configured_columns() {
    let headers = vec![s("Name"), s("Research Interests"), s("Department")];
    let rows = table(&[&["Ann", "neurons", "Bio"]]);
    let config = ColumnConfiguration { embedding_columns: vec![2, 9, 2], identifier_columns: vec![1], program_columns: vec![] };
    let (a, _) = analyze_table(&headers, &rows, Some(&config)).unwrap();
    assert_eq!(a.embedding_columns, vec![s("Department")]);
    assert_eq!(a.identifier_columns, vec![s("Research Interests")]);
    assert!(a.program_columns.is_empty());
    assert!(a.available_programs.is_empty());
}

#[test]
fn analysis_errors() {
    let rows = table(&[&["x"]]);
    assert_eq!(analyze_table(&vec![], &rows, None).err(), Some(AnalysisError::NoColumns));
    let headers = vec![s("A")];
    let none = ColumnConfiguration { embedding_columns: vec![], identifier_columns: vec![0], program_columns: vec![] };
    assert_eq!(analyze_table(&headers, &rows, Some(&none)).err(), Some(AnalysisError::NoEmbeddingColumns));
    let no_ids = ColumnConfiguration { embedding_columns: vec![0], identifier_columns: vec![4], program_columns: vec![] };
    assert_eq!(analyze_table(&headers, &rows, Some(&no_ids)).err(), Some(AnalysisError::NoIdentifierColumns));
}
