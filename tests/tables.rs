use faculty_match::dataset::{align_row_lengths, build_prompt_preview, normalize_columns, normalize_programs};
use faculty_match::headers::{build_header_index_map, indexes_from_labels, indexes_to_headers, lookup_key, normalize_column_selection, sort_and_dedup};
use faculty_match::text::{chars_of, decimal_string, header_label};
use faculty_match::workbook::{build_sumproduct_formula, excel_cell_reference, excel_column_name, excel_range_reference, join_strings};

fn s(v: &str) -> String {
    v.to_string()
}

#[test]
fn column_names() {
    assert_eq!(excel_column_name(0), "A");
    assert_eq!(excel_column_name(25), "Z");
    assert_eq!(excel_column_name(26), "AA");
    assert_eq!(excel_column_name(27), "AB");
    assert_eq!(excel_column_name(701), "ZZ");
    assert_eq!(excel_column_name(702), "AAA");
}

#[test]
fn cell_and_range_references() {
    assert_eq!(excel_cell_reference(0, 0, false, false), "A1");
    assert_eq!(excel_cell_reference(9, 27, true, true), "$AB$10");
    assert_eq!(excel_cell_reference(2, 1, true, false), "$B3");
    assert_eq!(excel_range_reference("Bob's sheet", 1, 0, 4, 2), "'Bob''s sheet'!$A$2:$C$5");
}

#[test]
fn sumproduct_formulas() {
    assert_eq!(build_sumproduct_formula(&vec![]), "=0");
    assert_eq!(build_sumproduct_formula(&vec![s("A1:A3"), s("B1:B3")]), "=SUMPRODUCT(A1:A3, B1:B3)");
    assert_eq!(join_strings(&vec![s("x")], ", "), "x");
}

#[test]
fn decimal_and_labels() {
    assert_eq!(decimal_string(0), "0");
    assert_eq!(decimal_string(1234567890), "1234567890");
    let headers = vec![s(" Name "), s("  ")];
    assert_eq!(header_label(&headers, 0), "Name");
    assert_eq!(header_label(&headers, 1), "Column 2");
    assert_eq!(header_label(&headers, 9), "Column 10");
    assert_eq!(chars_of("héllo"), vec!['h', 'é', 'l', 'l', 'o']);
}

#[test]
fn column_selection_normalized() {
    assert_eq!(normalize_column_selection(&vec![3, 1, 3, 7, 0], 4), vec![3, 1, 0]);
    let headers = vec![s("Name"), s("NAME"), s(""), s("Email")];
    assert_eq!(indexes_to_headers(&headers, &vec![1, 0, 2, 9, 3]), vec![s("NAME"), s("Column 3"), s("Email")]);
}

#[test]
fn sort_and_dedup_values() {
    let mut v = vec![5, 1, 5, 3, 1, 9];
    sort_and_dedup(&mut v);
    assert_eq!(v, vec![1, 3, 5, 9]);
    let mut e: Vec<usize> = Vec::new();
    sort_and_dedup(&mut e);
    assert!(e.is_empty());
}

#[test]
fn header_map_and_label_lookup() {
    let headers = vec![s("Name"), s(" name "), s(""), s("Research Interests")];
    let map = build_header_index_map(&headers);
    assert_eq!(map, vec![(s("name"), 0), (s("column 3"), 2), (s("research interests"), 3)]);
    assert_eq!(lookup_key(&map, &s("column 3")), Some(2));
    assert_eq!(indexes_from_labels(&map, &vec![s("Research Interests"), s(" NAME "), s("name")]), Ok(vec![0, 3]));
    assert_eq!(indexes_from_labels(&map, &vec![s("Name"), s("Email")]), Err(s("Email")));
}

#[test]
fn programs_and_columns_normalized() {
    assert_eq!(normalize_programs(vec![s(" Bio "), s("bio"), s(""), s("Chem")]), vec![s("Bio"), s("Chem")]);
    assert_eq!(normalize_columns(vec![s("A"), s(" a"), s("B ")]), vec![s("A"), s("B")]);
}

#[test]
fn rows_aligned_to_widest() {
    let mut headers = vec![s("A")];
    let mut rows = vec![vec![s("1"), s("2"), s("3")], vec![s("4")]];
    align_row_lengths(&mut headers, &mut rows);
    assert_eq!(headers, vec![s("A"), s(""), s("")]);
    assert_eq!(rows, vec![vec![s("1"), s("2"), s("3")], vec![s("4"), s(""), s("")]]);
}

#[test]
fn prompt_preview_truncates() {
    let short = "abc";
    assert_eq!(build_prompt_preview(short), "abc");
    let long = "y".repeat(300);
    let p = build_prompt_preview(&long);
    assert_eq!(p.chars().count(), 281);
    assert!(p.ends_with('\u{2026}'));
    assert_eq!(build_prompt_preview(&"z".repeat(280)), "z".repeat(280));
}
