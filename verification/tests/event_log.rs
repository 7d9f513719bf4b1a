use event_agent::event_log::{normalize_line, EventLog};
use std::io::BufRead;

fn read_like_a_file(content: &str) -> Vec<String> {
    std::io::Cursor::new(content.as_bytes())
        .lines()
        .map(|line| line.unwrap())
        .filter(|line| !line.trim().is_empty())
        .collect()
}

#[test]
fn test_append_to_log() {
    let mut log = EventLog::new();

    log.append("START THEORY pandas\n");

    let content = log.content().to_string();
    assert!(content.contains("START THEORY pandas"));
}

#[test]
fn test_read_log() {
    let log = EventLog::from_content("START THEORY pandas\nSTART GAME valorant\n\n".to_string());

    let events = log.read_all();

    assert_eq!(events.len(), 2);
    assert_eq!(events[0], "START THEORY pandas");
    assert_eq!(events[1], "START GAME valorant");
}

#[test]
fn test_log_append_only() {
    let mut log = EventLog::new();

    log.append("START THEORY pandas\n");
    log.append("START PRACTICE rust\n");

    let content = log.content().to_string();
    let lines: Vec<&str> = content.lines().collect();

    assert_eq!(lines.len(), 2);
    assert_eq!(lines[0], "START THEORY pandas");
    assert_eq!(lines[1], "START PRACTICE rust");
}

#[test]
fn new_log_is_empty() {
    let log = EventLog::new();
    assert_eq!(log.content(), "");
    assert!(log.read_all().is_empty());
}

#[test]
fn normalize_trims_the_end_and_adds_one_line_feed() {
    assert_eq!(normalize_line("START THEORY pandas"), "START THEORY pandas\n");
    assert_eq!(normalize_line("START THEORY pandas \t\r\n"), "START THEORY pandas\n");
    assert_eq!(normalize_line("  START THEORY pandas"), "  START THEORY pandas\n");
    assert_eq!(normalize_line("a\u{3000}\u{a0}"), "a\n");
    assert_eq!(normalize_line(""), "\n");
    assert_eq!(normalize_line(" \t "), "\n");
    assert_eq!(normalize_line("día ∑ 越"), "día ∑ 越\n");
}

#[test]
fn append_returns_the_record_and_adds_it_at_the_end() {
    let mut log = EventLog::from_content("START A x\n".to_string());
    let record = log.append("START B y   ");
    assert_eq!(record, "START B y\n");
    assert_eq!(log.content(), "START A x\nSTART B y\n");
}

#[test]
fn append_never_changes_what_was_written() {
    let lines = ["START A x", "  ", "note", "START B y\t", "", "STOP", "START A x"];
    let mut log = EventLog::new();
    let mut seen = String::new();
    let mut events: Vec<String> = Vec::new();
    for line in lines {
        log.append(line);
        assert!(log.content().starts_with(&seen));
        seen = log.content().to_string();
        let now = log.read_all();
        assert!(now.len() >= events.len());
        assert_eq!(&now[..events.len()], &events[..]);
        events = now;
    }
    assert_eq!(events, vec!["START A x", "note", "START B y", "STOP", "START A x"]);
}

#[test]
fn read_all_gives_back_what_was_appended() {
    let lines = ["START THEORY pandas  ", "   ", "START GAME valorant", "x", "\t", " lead"];
    let mut log = EventLog::new();
    for line in lines {
        log.append(line);
    }
    let expected: Vec<String> = lines
        .iter()
        .map(|line| line.trim_end().to_string())
        .filter(|line| !line.is_empty())
        .collect();
    assert_eq!(log.read_all(), expected);
}

#[test]
fn a_blank_line_adds_no_event() {
    let mut log = EventLog::from_content("START A x\n".to_string());
    log.append(" \t ");
    assert_eq!(log.content(), "START A x\n\n");
    assert_eq!(log.read_all(), vec!["START A x"]);
}

#[test]
fn a_line_feed_inside_a_line_makes_two_events() {
    let mut log = EventLog::new();
    log.append("START A x\nSTART B y");
    assert_eq!(log.read_all(), vec!["START A x", "START B y"]);
}

#[test]
fn read_all_splits_as_a_line_reader_does() {
    let texts = [
        "",
        "\n",
        "a",
        "a\n",
        "a\nb",
        "a\r\nb\r\n",
        "a\r",
        "a\r\n\r\n\r\nb",
        "\r\n",
        "\r",
        "a\r\r\n",
        " \n\t\n  x  \n",
        "START THEORY pandas\nSTART GAME valorant\n\n",
        "one\u{2028}still one\n",
        "tab\tinside\n\u{a0}\nlast without end",
        "día ∑ 越\nüber\n",
        "a\n\nb\n\n\n",
    ];
    for text in texts {
        let log = EventLog::from_content(text.to_string());
        assert_eq!(log.read_all(), read_like_a_file(text), "{:?}", text);
    }
}

#[test]
fn from_content_keeps_the_text() {
    let log = EventLog::from_content("no line end".to_string());
    assert_eq!(log.content(), "no line end");
    assert_eq!(log.snapshot().content(), "no line end");
}

#[test]
fn appending_to_an_unfinished_line_continues_it() {
    let mut log = EventLog::from_content("START A".to_string());
    log.append(" x");
    assert_eq!(log.read_all(), vec!["START A x"]);
}
