use vstd::prelude::*;
use vstd::string::{StrSliceExecFns, StringExecFns};
use crate::text::{trim_of, trim_text, chars_of};
use crate::workbook::join_with;
use crate::headers::views;

verus! {

/// The marker that opens a progress record on the worker's diagnostic stream.
pub open spec fn progress_marker() -> Seq<char> {
    "PROGRESS "@
}

/// A line of the worker's diagnostic stream.
#[derive(Debug, PartialEq, Eq)]
pub enum DiagnosticLine {
    /// A progress record: the trimmed text after the marker.
    Progress(String),
    /// Any other text, kept for the next error message.
    Text,
}

/// `line` opens with the progress marker.
pub open spec fn has_marker(line: Seq<char>) -> bool {
    line.len() >= progress_marker().len() && line.subrange(0, progress_marker().len() as int)
        == progress_marker()
}

/// Sorts a line of the worker's diagnostic stream: a line that opens with the
/// progress marker carries a progress record, every other line is text.
pub fn classify_diagnostic_line(line: &str) -> (r: DiagnosticLine)
    ensures
        match r {
            DiagnosticLine::Progress(t) => has_marker(line@) && t@ == trim_of(
                line@.subrange(progress_marker().len() as int, line@.len() as int),
            ),
            DiagnosticLine::Text => !has_marker(line@),
        },
{
    let marker = chars_of("PROGRESS ");
    let m = marker.len();
    let n = line.unicode_len();
    if n < m {
        return DiagnosticLine::Text;
    }
    let mut i: usize = 0;
    while i < m
        invariant
            m == marker.len(),
            marker@ == progress_marker(),
            n == line@.len(),
            m <= n,
            i <= m,
            forall|k: int| 0 <= k < i ==> line@[k] == marker@[k],
        decreases m - i,
    {
        if line.get_char(i) != marker[i] {
            assert(line@.subrange(0, m as int)[i as int] != progress_marker()[i as int]);
            return DiagnosticLine::Text;
        }
        i = i + 1;
    }
    assert(line@.subrange(0, m as int) =~= progress_marker());
    let rest = line.substring_char(m, n);
    DiagnosticLine::Progress(trim_text(rest))
}

/// The total of a progress record: the worker's own, or the number of items of the
/// request in flight where the worker reports zero.
pub fn backfill_total(reported: usize, expected: Option<usize>) -> (r: usize)
    ensures
        r == if reported == 0 && expected is Some {
            expected->0
        } else {
            reported
        },
{
    if reported == 0 {
        match expected {
            Some(t) => t,
            None => reported,
        }
    } else {
        reported
    }
}

/// The worker's answer to a request, in either of its two shapes.
#[derive(Debug, PartialEq, Eq)]
pub enum HelperEnvelope<P> {
    Result(P),
    Error(String),
}

/// A terminal message of the worker for the request in flight.
#[derive(Debug, PartialEq, Eq)]
pub enum HelperMessage<P> {
    Response(P),
    Error(String),
    Terminated(Option<String>),
}

/// The message of a line of the worker's output that neither shape decodes.
pub open spec fn undecodable_message(err: Seq<char>, raw: Seq<char>) -> Seq<char> {
    "Unable to parse embedding helper output: "@ + err + ". Raw: "@ + raw
}

/// The message that a line of the worker's output carries, from its two decodings:
/// as a bare success payload first, then as an envelope that says whether it is a
/// result or an error. Where neither decodes, the message is an error that quotes
/// the decoding error and the line.
pub fn decode_helper_line<P>(bare: Option<P>, enveloped: Result<HelperEnvelope<P>, String>, raw: &str) -> (r:
    HelperMessage<P>)
    ensures
        match bare {
            Some(p) => r == HelperMessage::<P>::Response(p),
            None => match enveloped {
                Ok(HelperEnvelope::Result(p)) => r == HelperMessage::<P>::Response(p),
                Ok(HelperEnvelope::Error(m)) => r == HelperMessage::<P>::Error(m),
                Err(e) => r matches HelperMessage::Error(m) && m@ == undecodable_message(e@, raw@),
            },
        },
{
    match bare {
        Some(p) => HelperMessage::Response(p),
        None => match enveloped {
            Ok(HelperEnvelope::Result(p)) => HelperMessage::Response(p),
            Ok(HelperEnvelope::Error(m)) => HelperMessage::Error(m),
            Err(e) => {
                let mut m = String::from_str("Unable to parse embedding helper output: ");
                m.append(e.as_str());
                m.append(". Raw: ");
                m.append(raw);
                HelperMessage::Error(m)
            },
        },
    }
}

/// What to do with the worker session before a request.
#[derive(Clone, Copy, Debug, PartialEq, Eq)]
pub enum SessionPlan {
    /// The session is alive: use it.
    Reuse,
    /// There is no session: start one.
    Spawn,
    /// The session's process has exited: shut it down, then start a new one.
    Respawn,
}

/// What to do with the worker session before a request, from whether one exists
/// and whether its process still runs.
pub fn plan_session(present: bool, running: bool) -> (r: SessionPlan)
    ensures
        !present ==> r == SessionPlan::Spawn,
        present && running ==> r == SessionPlan::Reuse,
        present && !running ==> r == SessionPlan::Respawn,
{
    if !present {
        SessionPlan::Spawn
    } else if running {
        SessionPlan::Reuse
    } else {
        SessionPlan::Respawn
    }
}

/// Whether the session is torn down after a request: after every failed one, so
/// that the next request starts a clean process.
pub fn tear_down_after(request_ok: bool) -> (r: bool)
    ensures
        r == !request_ok,
{
    !request_ok
}

/// An error message enriched with what the worker wrote to its diagnostic stream,
/// where that is not blank once trimmed, and with its exit status, where it has
/// exited.
pub open spec fn enriched(base: Seq<char>, diagnostics: Seq<char>, status: Option<Seq<char>>) -> Seq<char> {
    let d = trim_of(diagnostics);
    let with_diag = if d.len() > 0 {
        base + "\n\nEmbedding helper stderr:\n"@ + d
    } else {
        base
    };
    match status {
        Some(s) => with_diag + "\n\nEmbedding helper exit status: "@ + s,
        None => with_diag,
    }
}

/// An error message enriched with the worker's diagnostic text and exit status.
pub fn augment_error(base: String, diagnostics: &str, exit_status: Option<String>) -> (r: String)
    ensures
        r@ == enriched(base@, diagnostics@, match exit_status {
            Some(s) => Some(s@),
            None => None,
        }),
{
    let mut message = base;
    let d = trim_text(diagnostics);
    if d.as_str().unicode_len() > 0 {
        message.append("\n\nEmbedding helper stderr:\n");
        message.append(d.as_str());
    }
    match exit_status {
        Some(s) => {
            message.append("\n\nEmbedding helper exit status: ");
            message.append(s.as_str());
        },
        None => {},
    }
    message
}

/// The base message for a worker whose output closed before its answer.
pub fn describe_termination(reason: Option<String>) -> (r: String)
    ensures
        match reason {
            Some(m) => r@ == m@,
            None => r@ == "The embedding helper exited unexpectedly."@,
        },
{
    match reason {
        Some(m) => m,
        None => String::from_str("The embedding helper exited unexpectedly."),
    }
}

/// Why the embedding of a query cannot be compared with an index.
#[derive(Clone, Copy, Debug, PartialEq, Eq)]
pub enum PromptEmbeddingError {
    /// The worker returned no embedding.
    Missing,
    /// The embedding's length differs from the index's dimension.
    LengthMismatch { length: usize, dimension: usize },
    /// The worker reported another dimension than the index's.
    DimensionMismatch { reported: usize, dimension: usize },
}

/// Checks the worker's answer to a single query against the index's dimension:
/// `first_length` is the length of the first embedding returned, if any.
pub fn check_prompt_embedding(index_dimension: usize, reported_dimension: usize, first_length: Option<
    usize,
>) -> (r: Result<(), PromptEmbeddingError>)
    ensures
        match first_length {
            None => r == Err::<(), PromptEmbeddingError>(PromptEmbeddingError::Missing),
            Some(len) => if len != index_dimension {
                r == Err::<(), PromptEmbeddingError>(
                    PromptEmbeddingError::LengthMismatch { length: len, dimension: index_dimension },
                )
            } else if reported_dimension != index_dimension {
                r == Err::<(), PromptEmbeddingError>(
                    PromptEmbeddingError::DimensionMismatch {
                        reported: reported_dimension,
                        dimension: index_dimension,
                    },
                )
            } else {
                r == Ok::<(), PromptEmbeddingError>(())
            },
        },
{
    match first_length {
        None => Err(PromptEmbeddingError::Missing),
        Some(len) => {
            if len != index_dimension {
                Err(PromptEmbeddingError::LengthMismatch { length: len, dimension: index_dimension })
            } else if reported_dimension != index_dimension {
                Err(
                    PromptEmbeddingError::DimensionMismatch {
                        reported: reported_dimension,
                        dimension: index_dimension,
                    },
                )
            } else {
                Ok(())
            }
        },
    }
}

/// The model to ask for: the index's own, or `default_model` where the index names
/// none.
pub fn model_for_index(index_model: &String, default_model: &String) -> (r: String)
    ensures
        r@ == if trim_of(index_model@).len() == 0 {
            default_model@
        } else {
            index_model@
        },
{
    let t = trim_text(index_model.as_str());
    if t.as_str().unicode_len() == 0 {
        default_model.clone()
    } else {
        index_model.clone()
    }
}

/// The message when no way of starting the worker succeeded: each attempt on a
/// line of its own, then what to do about it.
pub open spec fn launch_failure(attempts: Seq<Seq<char>>, remedy: Seq<char>) -> Seq<char> {
    let listed = if attempts.len() == 0 {
        "No interpreter launch attempts were recorded."@
    } else {
        join_with(attempts.map_values(|a: Seq<char>| "- "@ + a), "\n"@)
    };
    "Unable to launch a Python 3 runtime.\n"@ + listed + "\n"@ + remedy
}

/// The message when no way of starting the worker succeeded, listing every
/// attempt in the order made.
pub fn launch_failure_message(attempts: &Vec<String>, remedy: &str) -> (r: String)
    ensures
        r@ == launch_failure(views(attempts@), remedy@),
{
    let mut r = String::from_str("Unable to launch a Python 3 runtime.\n");
    if attempts.len() == 0 {
        r.append("No interpreter launch attempts were recorded.");
    } else {
        let ghost parts = views(attempts@).map_values(|a: Seq<char>| "- "@ + a);
        let mut k: usize = 0;
        let mut listed = String::new();
        while k < attempts.len()
            invariant
                k <= attempts.len(),
                parts == views(attempts@).map_values(|a: Seq<char>| "- "@ + a),
                listed@ == join_with(parts.subrange(0, k as int), "\n"@),
            decreases attempts.len() - k,
        {
            if k > 0 {
                listed.append("\n");
            }
            listed.append("- ");
            listed.append(attempts[k].as_str());
            proof {
                let pre = parts.subrange(0, k as int + 1);
                assert(pre.drop_last() =~= parts.subrange(0, k as int));
                assert(pre.last() == "- "@ + attempts@[k as int]@);
                if k == 0 {
                    assert(listed@ =~= join_with(pre, "\n"@));
                } else {
                    assert(listed@ =~= join_with(pre, "\n"@));
                }
            }
            k = k + 1;
        }
        assert(parts.subrange(0, attempts.len() as int) =~= parts);
        r.append(listed.as_str());
    }
    r.append("\n");
    r.append(remedy);
    r
}

} // verus!
