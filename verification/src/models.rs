//! The values that go in and come out: events, sessions, and the results of
//! the queries.

use crate::ratios::RatioAnalysis;
use vstd::prelude::*;

verus! {

/// One event as a client submits it: the raw line.
#[derive(Debug, Clone, PartialEq, Eq)]
pub struct EventInput {
    pub event: String,
}

/// One event of the log: its line, and the time at which it was taken.
#[derive(Debug, Clone, PartialEq, Eq)]
pub struct Event {
    pub line: String,
    pub timestamp: String,
}

/// A session: the span that a `START` line opens and the next `START` line
/// closes. It is derived from the log and never stored.
#[derive(Debug, Clone, PartialEq, Eq)]
pub struct Session {
    pub category: String,
    pub activity: String,
    pub start_event_idx: usize,
    pub end_event_idx: Option<usize>,
    pub is_active: bool,
}

/// What a `Session` stands for.
pub ghost struct SessionView {
    pub category: Seq<char>,
    pub activity: Seq<char>,
    pub start_event_idx: int,
    pub end_event_idx: Option<int>,
    pub is_active: bool,
}

impl View for Session {
    type V = SessionView;

    open spec fn view(&self) -> SessionView {
        SessionView {
            category: self.category@,
            activity: self.activity@,
            start_event_idx: self.start_event_idx as int,
            end_event_idx: match self.end_event_idx {
                Some(end) => Some(end as int),
                None => None,
            },
            is_active: self.is_active,
        }
    }
}

impl DeepView for Session {
    type V = SessionView;

    open spec fn deep_view(&self) -> SessionView {
        self@
    }
}

/// All sessions of a log, with their number and the number of active ones.
#[derive(Debug, Clone, PartialEq, Eq)]
pub struct Timeline {
    pub sessions: Vec<Session>,
    pub total: usize,
    pub active: usize,
}

/// What is handed back for an event that was logged: the event, and the
/// session that is active once it is in the log.
#[derive(Debug, Clone, PartialEq, Eq)]
pub struct EventReceipt {
    pub event: Event,
    pub session_info: Option<Session>,
}

/// The answer to a request that changes the log.
#[derive(Debug, Clone, PartialEq, Eq)]
pub struct ApiResponse {
    pub status: String,
    pub message: String,
    pub data: Option<EventReceipt>,
}

/// What a query found, by the kind of the query.
#[derive(Debug, Clone, PartialEq, Eq)]
pub enum QueryData {
    Sessions(Timeline),
    Analysis(RatioAnalysis),
    Recent(Vec<String>),
}

/// The answer to a query: the query, the kind of the result, and the result.
#[derive(Debug, Clone, PartialEq, Eq)]
pub struct QueryResult {
    pub query: String,
    pub result_type: String,
    pub data: QueryData,
}

} // verus!
