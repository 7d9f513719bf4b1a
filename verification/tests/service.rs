use event_agent::event_log::EventLog;
use event_agent::models::{EventInput, QueryData, Session};
use event_agent::service::{
    classify_query, create_event, handle_query, health_check, record_event, QueryKind,
};

fn log_of(lines: &[&str]) -> EventLog {
    let mut content = String::new();
    for line in lines {
        content.push_str(line);
        content.push('\n');
    }
    EventLog::from_content(content)
}

fn input(event: &str) -> EventInput {
    EventInput { event: event.to_string() }
}

#[test]
fn queries_are_told_apart_by_what_they_hold() {
    assert_eq!(classify_query("ratio"), QueryKind::Ratios);
    assert_eq!(classify_query("show me the ratios"), QueryKind::Ratios);
    assert_eq!(classify_query("session"), QueryKind::Timeline);
    assert_eq!(classify_query("all sessions please"), QueryKind::Timeline);
    assert_eq!(classify_query("my timeline"), QueryKind::Timeline);
    assert_eq!(classify_query(""), QueryKind::Recent);
    assert_eq!(classify_query("what happened"), QueryKind::Recent);
    assert_eq!(classify_query("Ratio"), QueryKind::Recent);
    assert_eq!(classify_query("rati o"), QueryKind::Recent);
    assert_eq!(classify_query("TIMELINE"), QueryKind::Recent);
}

#[test]
fn ratio_wins_over_session_and_timeline() {
    assert_eq!(classify_query("session ratio"), QueryKind::Ratios);
    assert_eq!(classify_query("timeline of ratios per session"), QueryKind::Ratios);
}

#[test]
fn query_for_ratios_gives_the_analysis() {
    let log = log_of(&["START THEORY a", "START PRACTICE b", "START THEORY c"]);
    let result = handle_query(&log, "theory to practice ratio");
    assert_eq!(result.query, "ratios");
    assert_eq!(result.result_type, "analysis");
    match result.data {
        QueryData::Analysis(analysis) => {
            assert_eq!(analysis.total_events, 3);
            assert_eq!(analysis.theory_to_practice.numerator, 2);
            assert_eq!(analysis.theory_to_practice.denominator, 1);
        },
        other => panic!("not an analysis: {:?}", other),
    }
}

#[test]
fn query_for_sessions_gives_the_timeline() {
    let log = log_of(&["START THEORY a", "START PRACTICE b"]);
    for query in ["sessions", "timeline"] {
        let result = handle_query(&log, query);
        assert_eq!(result.query, "timeline");
        assert_eq!(result.result_type, "sessions");
        match result.data {
            QueryData::Sessions(timeline) => {
                assert_eq!(timeline.total, 2);
                assert_eq!(timeline.active, 1);
            },
            other => panic!("not a timeline: {:?}", other),
        }
    }
}

#[test]
fn any_other_query_gives_the_events() {
    let log = log_of(&["START THEORY a", "", "note"]);
    let result = handle_query(&log, "what happened");
    assert_eq!(result.query, "what happened");
    assert_eq!(result.result_type, "recent");
    assert_eq!(
        result.data,
        QueryData::Recent(vec!["START THEORY a".to_string(), "note".to_string()])
    );
}

#[test]
fn empty_query_gives_the_events() {
    let result = handle_query(&EventLog::new(), "");
    assert_eq!(result.query, "");
    assert_eq!(result.result_type, "recent");
    assert_eq!(result.data, QueryData::Recent(Vec::new()));
}

#[test]
fn recording_an_event_appends_it_and_acknowledges_it() {
    let mut log = log_of(&["START THEORY pandas"]);
    let response =
        record_event(&mut log, &input("START GAME valorant  "), "2024-05-01T10:00:00+00:00".to_string());
    assert_eq!(log.content(), "START THEORY pandas\nSTART GAME valorant\n");
    assert_eq!(response.status, "success");
    assert_eq!(response.message, "Event logged: START GAME valorant  ");
    let receipt = response.data.unwrap();
    assert_eq!(receipt.event.line, "START GAME valorant  ");
    assert_eq!(receipt.event.timestamp, "2024-05-01T10:00:00+00:00");
    assert_eq!(
        receipt.session_info,
        Some(Session {
            category: "GAME".to_string(),
            activity: "valorant".to_string(),
            start_event_idx: 1,
            end_event_idx: None,
            is_active: true,
        })
    );
}

#[test]
fn recording_an_event_that_is_no_boundary_keeps_the_session() {
    let mut log = log_of(&["START THEORY pandas"]);
    let response = record_event(&mut log, &input("note to self"), "t".to_string());
    let receipt = response.data.unwrap();
    assert_eq!(receipt.session_info.unwrap().category, "THEORY");
    assert_eq!(log.read_all().len(), 2);
}

#[test]
fn recording_into_an_empty_log_without_a_boundary_gives_no_session() {
    let mut log = EventLog::new();
    let response = record_event(&mut log, &input("hello"), "t".to_string());
    assert_eq!(response.data.unwrap().session_info, None);
    assert_eq!(log.content(), "hello\n");
}

#[test]
fn creating_an_event_stamps_it_with_the_time() {
    let mut log = EventLog::new();
    let before = chrono::Utc::now();
    let response = create_event(&mut log, &input("START THEORY pandas"));
    let after = chrono::Utc::now();
    assert_eq!(log.content(), "START THEORY pandas\n");
    assert_eq!(response.status, "success");
    assert_eq!(response.message, "Event logged: START THEORY pandas");
    let receipt = response.data.unwrap();
    assert_eq!(receipt.event.line, "START THEORY pandas");
    let stamp = chrono::DateTime::parse_from_rfc3339(&receipt.event.timestamp).unwrap();
    assert!(before <= stamp && stamp <= after);
    assert_eq!(receipt.session_info.unwrap().activity, "pandas");
}

#[test]
fn health_check_reports_healthy_with_the_time() {
    let before = chrono::Utc::now();
    let health = health_check();
    let after = chrono::Utc::now();
    assert_eq!(health.status, "healthy");
    let stamp = chrono::DateTime::parse_from_rfc3339(&health.timestamp).unwrap();
    assert!(before <= stamp && stamp <= after);
}
