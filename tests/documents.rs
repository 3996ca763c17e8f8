use faculty_match::dataset::{build_faculty_program_memberships, collect_program_values, build_summary, check_request, default_progress_phase, delimiter_of_line, RequestError, filter_faculty_rows_by_program, FacultyProgramMembership, FacultyScope, TaskType};
use faculty_match::document::{looks_like_docx, looks_like_pdf, looks_like_rtf, validate_extension};
use faculty_match::protocol::launch_failure_message;
use faculty_match::roster::{resolve_roster_columns, RosterError, filter_rows_by_roster, identifier_key, normalize_identifier_value};
use faculty_match::headers::{build_header_index_map, indexes_from_spreadsheet_labels};
use faculty_match::text::normalize_identifier_label;

fn s(v: &str) -> String {
    v.to_string()
}

#[test]
fn format_sniffing() {
    assert!(looks_like_pdf(b"%PDF-1.7 rest"));
    assert!(!looks_like_pdf(b"%PDF"));
    assert!(looks_like_docx(b"PK\x03\x04\x14"));
    assert!(!looks_like_docx(b"PK\x03\x04"));
    assert!(looks_like_rtf(b"  \r\n{\\rtf1\\ansi"));
    assert!(looks_like_rtf(b"{\\rtf"));
    assert!(!looks_like_rtf(b"x{\\rtf1"));
    assert!(!looks_like_rtf(b""));
}

#[test]
fn summaries() {
    assert_eq!(
        build_summary(&TaskType::Prompt, &FacultyScope::All, 1, 0, false),
        "Ready to match a single prompt against the complete faculty roster. Each student will receive up to 1 faculty recommendation."
    );
    assert_eq!(
        build_summary(&TaskType::Spreadsheet, &FacultyScope::Program, 5, 2, false),
        "Ready to match a spreadsheet of prompts against faculty filtered to 2 programs. Each student will receive up to 5 faculty recommendations."
    );
    assert_eq!(
        build_summary(&TaskType::Directory, &FacultyScope::Custom, 3, 1, true),
        "Ready to match a directory of documents against the provided faculty roster spreadsheet. Each student will receive up to 3 faculty recommendations."
    );
    assert_eq!(
        build_summary(&TaskType::Document, &FacultyScope::Program, 2, 1, false),
        "Ready to match one document against faculty filtered to 1 program. Each student will receive up to 2 faculty recommendations."
    );
    assert_eq!(
        build_summary(&TaskType::Document, &FacultyScope::Custom, 2, 1, false),
        "Ready to match one document against a custom faculty roster. Each student will receive up to 2 faculty recommendations."
    );
}

#[test]
fn progress_phase_default() {
    assert_eq!(default_progress_phase(), "embedding");
}

#[test]
fn identifier_labels_normalized() {
    assert_eq!(normalize_identifier_label(" Net-ID #2 "), "netid2");
    assert_eq!(normalize_identifier_label("Ünïcode Näme"), "ünïcodenäme");
    assert_eq!(normalize_identifier_label("--"), "");
}

#[test]
fn rows_filtered_by_program() {
    let m = |row_index: usize, programs: &[&str]| FacultyProgramMembership {
        row_index,
        identifiers: Vec::new(),
        programs: programs.iter().map(|p| s(p)).collect(),
    };
    let memberships = vec![m(0, &["Biology"]), m(1, &["Chemistry", "Physics"]), m(2, &[]), m(0, &["physics"])];
    assert_eq!(filter_faculty_rows_by_program(&memberships, &vec![s("PHYSICS")]), vec![1, 0]);
    assert_eq!(filter_faculty_rows_by_program(&memberships, &vec![s("biology"), s("physics")]), vec![0, 1]);
    assert!(filter_faculty_rows_by_program(&memberships, &vec![]).is_empty());
    assert!(filter_faculty_rows_by_program(&memberships, &vec![s("Math")]).is_empty());
}

#[test]
fn spreadsheet_labels_resolved() {
    let map = build_header_index_map(&vec![s("Prompt"), s("Student ID")]);
    assert_eq!(indexes_from_spreadsheet_labels(&map, &vec![s("student id"), s("PROMPT")]), Ok(vec![0, 1]));
    assert_eq!(indexes_from_spreadsheet_labels(&map, &vec![s("Essay")]), Err(s("Essay")));
}

#[test]
fn request_settings_checked_in_order() {
    assert_eq!(check_request(&TaskType::Prompt, &FacultyScope::Program, 0, "", 0, 0), Err(RequestError::NoRecommendations));
    assert_eq!(check_request(&TaskType::Prompt, &FacultyScope::Program, 3, "   ", 0, 0), Err(RequestError::EmptyPrompt));
    assert_eq!(check_request(&TaskType::Spreadsheet, &FacultyScope::All, 3, "", 0, 0), Err(RequestError::NoPromptColumns));
    assert_eq!(check_request(&TaskType::Document, &FacultyScope::Program, 3, "", 0, 0), Err(RequestError::NoPrograms));
    assert_eq!(check_request(&TaskType::Prompt, &FacultyScope::Program, 3, "genomics", 0, 2), Ok(()));
    assert_eq!(check_request(&TaskType::Directory, &FacultyScope::Custom, 1, "", 0, 0), Ok(()));
}

#[test]
fn delimiter_choice() {
    assert_eq!(delimiter_of_line("a\tb\tc"), Some(b'\t'));
    assert_eq!(delimiter_of_line("a,b;c\td"), Some(b';'));
    assert_eq!(delimiter_of_line("a,b,c;d"), Some(b','));
    assert_eq!(delimiter_of_line("a,b\tc"), Some(b','));
    assert_eq!(delimiter_of_line("plain"), None);
}

#[test]
fn launch_failure_lists_attempts() {
    assert_eq!(
        launch_failure_message(&vec![s("a missing"), s("b failed")], "Fix it."),
        "Unable to launch a Python 3 runtime.\n- a missing\n- b failed\nFix it."
    );
    assert_eq!(
        launch_failure_message(&vec![], "Fix it."),
        "Unable to launch a Python 3 runtime.\nNo interpreter launch attempts were recorded.\nFix it."
    );
}

#[test]
fn memberships_record_identifiers_and_sorted_programs() {
    let headers = vec![s("Name"), s("Program"), s("Track")];
    let rows = vec![
        vec![s("Ann"), s("Neuro"), s("Bio")],
        vec![s(" "), s(""), s("")],
        vec![s(""), s("Chem"), s("Chem")],
        vec![s("Bo"), s("zeta"), s("Alpha")],
    ];
    let ms = build_faculty_program_memberships(&headers, &rows, &vec![0], &vec![1, 2]);
    let got: Vec<(usize, Vec<(String, String)>, Vec<String>)> =
        ms.into_iter().map(|m| (m.row_index, m.identifiers, m.programs)).collect();
    assert_eq!(
        got,
        vec![
            (0, vec![(s("Name"), s("Ann"))], vec![s("Bio"), s("Neuro")]),
            (2, vec![], vec![s("Chem")]),
            (3, vec![(s("Name"), s("Bo"))], vec![s("Alpha"), s("zeta")]),
        ]
    );
}

#[test]
fn program_values_distinct_in_lower_case_order() {
    let rows = vec![
        vec![s("x"), s("neuro"), s("Bio")],
        vec![s("y"), s("BIO"), s(" ")],
        vec![s("z"), s("Chem")],
        vec![s("w"), s("Neuro"), s("bio")],
    ];
    assert_eq!(collect_program_values(&rows, &vec![1, 2]), vec![s("Bio"), s("Chem"), s("neuro")]);
    assert!(collect_program_values(&rows, &vec![]).is_empty());
}

#[test]
fn identifier_values_normalized() {
    assert_eq!(normalize_identifier_value("  Jane \t  DOE\n"), "jane doe");
    assert_eq!(normalize_identifier_value("   "), "");
}

#[test]
fn identifier_keys_join_normalized_values() {
    assert_eq!(identifier_key(&vec![Some(s("Jane  Doe")), Some(s("J@X.EDU"))]), Some(s("jane doe|j@x.edu")));
    assert_eq!(identifier_key(&vec![Some(s("Jane")), None]), None);
    assert_eq!(identifier_key(&vec![Some(s("Jane")), Some(s("  "))]), None);
    assert_eq!(identifier_key(&vec![]), None);
}

#[test]
fn roster_rows_matched_by_identifier_keys() {
    let member = |row_index: usize, name: &str, email: &str| FacultyProgramMembership {
        row_index,
        identifiers: vec![(s("Name"), s(name)), (s("Email"), s(email))],
        programs: Vec::new(),
    };
    let memberships = vec![member(3, "Ann Lee", "ann@x.edu"), member(5, "Bo  Chan", "bo@x.edu"), member(8, "ann lee", "ANN@x.edu")];
    let order = vec![s("Name"), s("Email")];
    let roster = vec![
        vec![s("ANN LEE"), s("ann@x.edu")],
        vec![s("Cy"), s("cy@x.edu")],
        vec![s("Bo Chan")],
        vec![s("bo chan"), s("bo@x.edu")],
    ];
    let (rows, unmatched) = filter_rows_by_roster(&memberships, &order, &roster, &vec![0, 1]);
    assert_eq!(rows, vec![3, 8, 5]);
    assert_eq!(unmatched, 2);
}

#[test]
fn extensions_validated() {
    let allowed = vec![s("tsv"), s("txt"), s("xlsx"), s("xls")];
    assert_eq!(validate_extension(Some("XLSX"), &allowed, "spreadsheet"), None);
    assert_eq!(
        validate_extension(Some("csv"), &allowed, "spreadsheet"),
        Some(s("The selected spreadsheet uses '.csv', which is outside the expected extensions: tsv, txt, xlsx, xls."))
    );
    assert_eq!(
        validate_extension(None, &allowed, "document"),
        Some(s("The selected document does not include an extension. Confirm it is supported."))
    );
}

#[test]
fn roster_columns_resolved() {
    let ids = vec![s("Name"), s("Email"), s("Net ID")];
    let map = vec![(s(" email "), s(" E-mail Address ")), (s("name"), s("Full Name")), (s("Office"), s("Room")), (s("Net ID"), s("Badge")), (s("name"), s("Other"))];
    let headers = vec![s("Full name"), s("EmailAddress"), s("Room")];
    let rc = resolve_roster_columns(&ids, &map, &headers).unwrap();
    assert_eq!(rc.columns, vec![(0, 0), (1, 1)]);
    assert_eq!(rc.missing_columns, vec![2]);
    assert_eq!(rc.unknown_identifiers, vec![s("Office")]);
    assert_eq!(resolve_roster_columns(&ids, &vec![(s("Office"), s("Room"))], &headers).err(), Some(RosterError::NoMappedIdentifiers));
    assert_eq!(resolve_roster_columns(&ids, &vec![(s("Name"), s("Zip"))], &headers).err(), Some(RosterError::NoRosterColumns));
}
