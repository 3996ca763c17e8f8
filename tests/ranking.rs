use faculty_match::cross_rank::assign_cross_query_ranks;
use faculty_match::ranking::{non_blank_identifiers, best_positions, contains_index, find_best_matches, MatchCandidate, ScoredRow};

fn row(row_index: usize, similarity: Option<i64>) -> ScoredRow {
    ScoredRow { row_index, similarity, identifiers: vec![(format!("Name"), format!("P{row_index}")), (format!("Email"), format!("  "))] }
}

fn cand(row_index: usize, similarity: i64) -> MatchCandidate {
    MatchCandidate { row_index, similarity, identifiers: Vec::new(), faculty_text: None, rank_for_candidate: None, rank_total: None }
}

#[test]
fn best_matches_sorted_and_truncated() {
    let rows = vec![row(0, Some(100)), row(1, Some(900)), row(2, None), row(3, Some(500)), row(4, Some(900))];
    let r = find_best_matches(&rows, 3, None);
    let got: Vec<(usize, i64)> = r.iter().map(|c| (c.row_index, c.similarity)).collect();
    assert_eq!(got, vec![(1, 900), (4, 900), (3, 500)]);
    assert!(r.iter().all(|c| c.rank_for_candidate.is_none() && c.rank_total.is_none() && c.faculty_text.is_none()));
    assert_eq!(r[0].identifiers, vec![(format!("Name"), format!("P1"))]);
}

#[test]
fn best_matches_limit_zero_is_empty() {
    let rows = vec![row(0, Some(100)), row(1, Some(900))];
    assert!(find_best_matches(&rows, 0, None).is_empty());
}

#[test]
fn best_matches_respect_filter() {
    let rows = vec![row(10, Some(100)), row(11, Some(900)), row(12, Some(800))];
    let allowed = vec![10, 12];
    let r = find_best_matches(&rows, 5, Some(&allowed));
    let got: Vec<usize> = r.iter().map(|c| c.row_index).collect();
    assert_eq!(got, vec![12, 10]);
}

#[test]
fn best_matches_skip_undefined_similarity() {
    let rows = vec![row(0, None), row(1, None)];
    assert!(find_best_matches(&rows, 5, None).is_empty());
    assert!(best_positions(&rows, 5, None).is_empty());
}

#[test]
fn best_matches_length_bounded_by_limit() {
    let rows: Vec<ScoredRow> = (0..20).map(|i| row(i, Some((i as i64 * 37) % 11))).collect();
    let r = find_best_matches(&rows, 7, None);
    assert_eq!(r.len(), 7);
    for w in r.windows(2) {
        assert!(w[0].similarity >= w[1].similarity);
    }
}

#[test]
fn contains_index_finds_values() {
    assert!(contains_index(&vec![3, 5, 8], 5));
    assert!(!contains_index(&vec![3, 5, 8], 4));
    assert!(!contains_index(&vec![], 0));
}

#[test]
fn single_choice_gets_rank_one_of_one() {
    let mut sets = vec![vec![cand(1, 800), cand(2, 700)], vec![cand(3, 900)]];
    assign_cross_query_ranks(&mut sets);
    for set in &sets {
        for c in set {
            assert_eq!(c.rank_for_candidate, Some(1));
            assert_eq!(c.rank_total, Some(1));
        }
    }
}

#[test]
fn two_prompts_choosing_the_same_first_candidate() {
    let mut sets = vec![
        vec![cand(7, 900_000), cand(2, 500_000)],
        vec![cand(7, 950_000), cand(3, 400_000)],
    ];
    assign_cross_query_ranks(&mut sets);
    assert_eq!(sets[0][0].row_index, 7);
    assert_eq!(sets[1][0].row_index, 7);
    assert_eq!(sets[0][0].rank_total, Some(2));
    assert_eq!(sets[1][0].rank_total, Some(2));
    assert_eq!(sets[1][0].rank_for_candidate, Some(1));
    assert_eq!(sets[0][0].rank_for_candidate, Some(2));
    assert_eq!(sets[0][1].rank_for_candidate, Some(1));
    assert_eq!(sets[0][1].rank_total, Some(1));
}

#[test]
fn cross_ranks_form_one_to_n_by_similarity() {
    let mut sets = vec![
        vec![cand(5, 300)],
        vec![cand(5, 900)],
        vec![cand(1, 100), cand(5, 600)],
        vec![cand(5, 600)],
    ];
    assign_cross_query_ranks(&mut sets);
    assert_eq!(sets[1][0].rank_for_candidate, Some(1));
    assert_eq!(sets[2][1].rank_for_candidate, Some(2));
    assert_eq!(sets[3][0].rank_for_candidate, Some(3));
    assert_eq!(sets[0][0].rank_for_candidate, Some(4));
    for (q, p) in [(0, 0), (1, 0), (2, 1), (3, 0)] {
        assert_eq!(sets[q][p].rank_total, Some(4));
        assert_eq!(sets[q][p].row_index, 5);
    }
    assert_eq!(sets[2][0].rank_for_candidate, Some(1));
    assert_eq!(sets[2][0].rank_total, Some(1));
    assert_eq!(sets[2][1].similarity, 600);
}

#[test]
fn cross_ranks_on_no_sets() {
    let mut sets: Vec<Vec<MatchCandidate>> = Vec::new();
    assign_cross_query_ranks(&mut sets);
    assert!(sets.is_empty());
}

#[test]
fn ranks_keep_identifiers_and_text() {
    let mut first = cand(4, 10);
    first.identifiers = vec![(format!("Name"), format!("Ann"))];
    first.faculty_text = Some(format!("neurons"));
    let mut sets = vec![vec![first], vec![cand(4, 20)]];
    assign_cross_query_ranks(&mut sets);
    assert_eq!(sets[0][0].identifiers, vec![(format!("Name"), format!("Ann"))]);
    assert_eq!(sets[0][0].faculty_text, Some(format!("neurons")));
    assert_eq!(sets[0][0].rank_for_candidate, Some(2));
    assert_eq!(sets[1][0].rank_for_candidate, Some(1));
}

#[test]
fn blank_identifiers_dropped() {
    let pairs = vec![(format!("A"), format!(" x ")), (format!("B"), format!("\t ")), (format!("C"), format!("y"))];
    assert_eq!(non_blank_identifiers(&pairs), vec![(format!("A"), format!(" x ")), (format!("C"), format!("y"))]);
}
