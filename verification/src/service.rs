//! The operations that a request layer calls: logging an event, and answering
//! a query from the log as it is.

use crate::event_log::{events_of, record_of, EventLog};
use crate::models::{ApiResponse, Event, EventInput, EventReceipt, QueryData, QueryResult};
use crate::ratios::{is_analysis_of, RatioAnalyzer};
use crate::sessions::{current_of, is_timeline_of, SessionProjector};
use crate::text::{contains_chars, contains_text, to_chars};
use vstd::prelude::*;
use vstd::string::*;

verus! {

/// The moment of the call as a text. `chrono::Utc::now` reads the system clock
/// (and panics if that clock stands before 1970), and `DateTime::to_rfc3339`
/// writes the moment down as RFC 3339 has it. The text differs from call to
/// call, so nothing is claimed of it.
#[verifier::external_body]
fn current_timestamp() -> (timestamp: String) {
    chrono::Utc::now().to_rfc3339()
}

/// What a query asks for.
#[derive(Debug, Clone, Copy, PartialEq, Eq)]
pub enum QueryKind {
    /// The category counts and the ratio of theory to practice.
    Ratios,
    /// The sessions with their counts.
    Timeline,
    /// The events themselves.
    Recent,
}

/// What the query text `query` asks for: the ratios if it holds `ratio`; else
/// the timeline if it holds `session` or `timeline`; else the events.
pub open spec fn query_kind(query: Seq<char>) -> QueryKind {
    if contains_text(query, "ratio"@) {
        QueryKind::Ratios
    } else if contains_text(query, "session"@) || contains_text(query, "timeline"@) {
        QueryKind::Timeline
    } else {
        QueryKind::Recent
    }
}

/// Whether `result` answers `query` from a log whose events are `lines`.
pub open spec fn is_answer(result: QueryResult, lines: Seq<Seq<char>>, query: Seq<char>) -> bool {
    match query_kind(query) {
        QueryKind::Ratios => {
            &&& result.query@ == "ratios"@
            &&& result.result_type@ == "analysis"@
            &&& result.data matches QueryData::Analysis(analysis) && is_analysis_of(
                analysis@,
                lines,
            )
        },
        QueryKind::Timeline => {
            &&& result.query@ == "timeline"@
            &&& result.result_type@ == "sessions"@
            &&& result.data matches QueryData::Sessions(timeline) && is_timeline_of(
                timeline,
                lines,
            )
        },
        QueryKind::Recent => {
            &&& result.query@ == query
            &&& result.result_type@ == "recent"@
            &&& result.data matches QueryData::Recent(events) && events.deep_view() == lines
        },
    }
}

/// Whether `response` acknowledges the event `event`, logged at the moment
/// `timestamp` into a log whose events are then `lines`.
pub open spec fn is_receipt(
    response: ApiResponse,
    event: Seq<char>,
    timestamp: Seq<char>,
    lines: Seq<Seq<char>>,
) -> bool {
    &&& response.status@ == "success"@
    &&& response.message@ == "Event logged: "@ + event
    &&& response.data matches Some(receipt) && {
        &&& receipt.event.line@ == event
        &&& receipt.event.timestamp@ == timestamp
        &&& receipt.session_info.deep_view() == current_of(lines)
    }
}

/// The state of the service, with the moment at which it was asked for.
#[derive(Debug, Clone, PartialEq, Eq)]
pub struct Health {
    pub status: String,
    pub timestamp: String,
}

/// Reports the service as healthy, at the moment of the call.
pub fn health_check() -> (health: Health)
    ensures
        health.status@ == "healthy"@,
{
    Health { status: "healthy".to_string(), timestamp: current_timestamp() }
}

/// Decides what the query text asks for.
pub fn classify_query(query: &str) -> (kind: QueryKind)
    ensures
        kind == query_kind(query@),
{
    let text = to_chars(query);
    if contains_chars(&text, &to_chars("ratio")) {
        QueryKind::Ratios
    } else if contains_chars(&text, &to_chars("session")) || contains_chars(
        &text,
        &to_chars("timeline"),
    ) {
        QueryKind::Timeline
    } else {
        QueryKind::Recent
    }
}

/// Answers `query` from the log: with the analysis, with the timeline, or,
/// for any other query, with the events themselves.
pub fn handle_query(log: &EventLog, query: &str) -> (result: QueryResult)
    ensures
        is_answer(result, log.events(), query@),
{
    match classify_query(query) {
        QueryKind::Ratios => RatioAnalyzer::new(log).analyze(),
        QueryKind::Timeline => SessionProjector::new(log).get_timeline(),
        QueryKind::Recent => QueryResult {
            query: query.to_string(),
            result_type: "recent".to_string(),
            data: QueryData::Recent(log.read_all()),
        },
    }
}

/// Logs the event at the moment `timestamp`: appends its record to the log,
/// and acknowledges it with the session that is active afterwards.
pub fn record_event(log: &mut EventLog, input: &EventInput, timestamp: String) -> (response:
    ApiResponse)
    ensures
        final(log)@ == old(log)@ + record_of(input.event@),
        is_receipt(response, input.event@, timestamp@, final(log).events()),
{
    log.append(input.event.as_str());
    let session_info = SessionProjector::new(log).get_current_session();
    let message = "Event logged: ".to_string().concat(input.event.as_str());
    ApiResponse {
        status: "success".to_string(),
        message,
        data: Some(
            EventReceipt { event: Event { line: input.event.clone(), timestamp }, session_info },
        ),
    }
}

/// Logs the event at the moment of the call: appends its record to the log,
/// and acknowledges it with the session that is active afterwards.
pub fn create_event(log: &mut EventLog, input: &EventInput) -> (response: ApiResponse)
    ensures
        final(log)@ == old(log)@ + record_of(input.event@),
        response.data matches Some(receipt) && is_receipt(
            response,
            input.event@,
            receipt.event.timestamp@,
            final(log).events(),
        ),
{
    record_event(log, input, current_timestamp())
}

} // verus!
