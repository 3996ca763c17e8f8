use faculty_match::protocol::{augment_error, backfill_total, check_prompt_embedding, classify_diagnostic_line, decode_helper_line, describe_termination, model_for_index, plan_session, tear_down_after, DiagnosticLine, HelperEnvelope, HelperMessage, PromptEmbeddingError, SessionPlan};

#[test]
fn progress_lines_are_recognised() {
    assert_eq!(
        classify_diagnostic_line("PROGRESS {\"phase\":\"loading-model\"} \n"),
        DiagnosticLine::Progress("{\"phase\":\"loading-model\"}".to_string())
    );
    assert_eq!(classify_diagnostic_line("Traceback (most recent call last):"), DiagnosticLine::Text);
    assert_eq!(classify_diagnostic_line("PROGRESS"), DiagnosticLine::Text);
    assert_eq!(classify_diagnostic_line(" PROGRESS {}"), DiagnosticLine::Text);
}

#[test]
fn total_is_backfilled_only_when_zero() {
    assert_eq!(backfill_total(0, Some(12)), 12);
    assert_eq!(backfill_total(5, Some(12)), 5);
    assert_eq!(backfill_total(0, None), 0);
}

#[test]
fn bare_success_decodes_first() {
    let m = decode_helper_line(Some(1u8), Ok(HelperEnvelope::Error("no".to_string())), "raw");
    assert_eq!(m, HelperMessage::Response(1));
    let m = decode_helper_line(None, Ok(HelperEnvelope::Result(2u8)), "raw");
    assert_eq!(m, HelperMessage::Response(2));
    let m = decode_helper_line::<u8>(None, Ok(HelperEnvelope::Error("boom".to_string())), "raw");
    assert_eq!(m, HelperMessage::Error("boom".to_string()));
    let m = decode_helper_line::<u8>(None, Err("bad json".to_string()), "{oops");
    assert_eq!(m, HelperMessage::Error("Unable to parse embedding helper output: bad json. Raw: {oops".to_string()));
}

#[test]
fn session_plans() {
    assert_eq!(plan_session(false, false), SessionPlan::Spawn);
    assert_eq!(plan_session(true, true), SessionPlan::Reuse);
    assert_eq!(plan_session(true, false), SessionPlan::Respawn);
    assert!(tear_down_after(false));
    assert!(!tear_down_after(true));
}

#[test]
fn errors_are_enriched() {
    let m = augment_error("failed".to_string(), "  trace line \n", Some("exit status: 1".to_string()));
    assert_eq!(m, "failed\n\nEmbedding helper stderr:\ntrace line\n\nEmbedding helper exit status: exit status: 1");
    let m = augment_error("failed".to_string(), "   ", None);
    assert_eq!(m, "failed");
    assert_eq!(describe_termination(None), "The embedding helper exited unexpectedly.");
    assert_eq!(describe_termination(Some("gone".to_string())), "gone");
}

#[test]
fn prompt_embedding_checks() {
    assert_eq!(check_prompt_embedding(768, 768, None), Err(PromptEmbeddingError::Missing));
    assert_eq!(check_prompt_embedding(768, 768, Some(4)), Err(PromptEmbeddingError::LengthMismatch { length: 4, dimension: 768 }));
    assert_eq!(check_prompt_embedding(768, 512, Some(768)), Err(PromptEmbeddingError::DimensionMismatch { reported: 512, dimension: 768 }));
    assert_eq!(check_prompt_embedding(768, 768, Some(768)), Ok(()));
}

#[test]
fn model_falls_back_to_default() {
    assert_eq!(model_for_index(&"  ".to_string(), &"default".to_string()), "default");
    assert_eq!(model_for_index(&"mine".to_string(), &"default".to_string()), "mine");
}
