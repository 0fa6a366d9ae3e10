use claude_code_sync::session::{dedup_sessions, ConversationSession, ParseError};
use claude_code_sync::summary::{
    extract_match_snippet, format_relative_time, get_filtered_sessions, is_valid_session,
    scan_project_sessions, scan_project_sessions_with_filtered, search_session, SessionSummary,
};

fn transcript_line(kind: &str, sid: &str, n: usize) -> String {
    format!(
        "{{\"type\":\"{}\",\"sessionId\":\"{}\",\"uuid\":\"u-{}\",\"timestamp\":\"2025-01-01T{:02}:00:00Z\"}}",
        kind, sid, n, n % 24
    )
}

fn summary_with(title: &str, message_count: usize, last: Option<&str>) -> SessionSummary {
    SessionSummary {
        session_id: "test".to_string(),
        title: title.to_string(),
        project_name: "test".to_string(),
        project_dir: String::new(),
        file_path: String::new(),
        message_count,
        user_message_count: 0,
        assistant_message_count: 0,
        first_timestamp: None,
        last_activity: last.map(|s| s.to_string()),
        file_size: 0,
    }
}

#[test]
fn test_from_content_reads_a_transcript() {
    let content = format!(
        "{}\n{}\n{}",
        "{\"type\":\"user\",\"sessionId\":\"s-1\",\"cwd\":\"/home/u/proj\",\"message\":{\"content\":\"hello there\"}}",
        "not valid json at all",
        "{\"type\":\"assistant\",\"sessionId\":\"s-1\",\"timestamp\":\"2025-01-02T03:04:05Z\"}",
    );
    let session = ConversationSession::from_content("/tmp/s-1.jsonl", &content).unwrap();
    assert_eq!(session.session_id, "s-1");
    // the corrupt line is skipped, not fatal
    assert_eq!(session.entries.len(), 2);
    assert_eq!(session.message_count(), 2);
    assert_eq!(session.project_name().unwrap(), "proj");
    assert_eq!(session.title().unwrap(), "hello there");
    assert_eq!(
        session.latest_timestamp().unwrap(),
        "2025-01-02T03:04:05Z"
    );
}

#[test]
fn test_from_content_without_session_id() {
    let r = ConversationSession::from_content("/tmp/x.jsonl", "{\"type\":\"user\"}\n");
    assert_eq!(r.unwrap_err(), ParseError::MissingSessionId);
}

#[test]
fn test_content_hash_ignores_incidental_metadata() {
    // same conversation content, different incidental fields and key order
    let a = "{\"type\":\"user\",\"sessionId\":\"s\",\"uuid\":\"1\",\"message\":{\"content\":\"hi\"}}";
    let b = "{\"message\":{\"content\":\"hi\"},\"sessionId\":\"s\",\"type\":\"user\",\"uuid\":\"2\",\"timestamp\":\"2025-06-07T00:00:00Z\"}";
    let sa = ConversationSession::from_content("/a.jsonl", a).unwrap();
    let sb = ConversationSession::from_content("/b.jsonl", b).unwrap();
    assert_eq!(sa.content_hash(), sb.content_hash());

    let c = "{\"type\":\"user\",\"sessionId\":\"s\",\"message\":{\"content\":\"bye\"}}";
    let sc = ConversationSession::from_content("/c.jsonl", c).unwrap();
    assert_ne!(sa.content_hash(), sc.content_hash());
}

#[test]
fn test_discover_sessions_deduplicates_by_session_id() {
    // a main conversation with ten user/assistant pairs
    let mut main_content = String::new();
    for i in 0..10 {
        main_content.push_str(&transcript_line("user", "session-123", i));
        main_content.push('\n');
        main_content.push_str(&transcript_line("assistant", "session-123", i));
        main_content.push('\n');
    }
    // an auxiliary file with only one pair under the same identifier
    let agent_content = format!(
        "{}\n{}\n",
        transcript_line("user", "session-123", 90),
        transcript_line("assistant", "session-123", 91)
    );

    let main = ConversationSession::from_content("/p/main.jsonl", &main_content).unwrap();
    let agent = ConversationSession::from_content("/p/agent.jsonl", &agent_content).unwrap();

    let sessions = dedup_sessions(&vec![agent, main]);
    assert_eq!(sessions.len(), 1, "Should deduplicate to 1 session");
    assert_eq!(sessions[0].session_id, "session-123");
    assert_eq!(
        sessions[0].message_count(),
        20,
        "Should keep the session with more messages"
    );
}

#[test]
fn test_discover_sessions_no_duplicates() {
    let one = ConversationSession::from_content(
        "/p/session-1.jsonl",
        &transcript_line("user", "session-1", 0),
    )
    .unwrap();
    let two = ConversationSession::from_content(
        "/p/session-2.jsonl",
        &transcript_line("user", "session-2", 0),
    )
    .unwrap();
    let sessions = dedup_sessions(&vec![one, two]);
    assert_eq!(sessions.len(), 2, "Should have 2 distinct sessions");
}

#[test]
fn test_is_valid_session() {
    let with_title = ConversationSession::from_content(
        "/p/a.jsonl",
        "{\"type\":\"user\",\"sessionId\":\"s\",\"message\":{\"content\":\"a question\"}}",
    )
    .unwrap();
    assert!(is_valid_session(&with_title));

    let no_messages = ConversationSession::from_content(
        "/p/b.jsonl",
        "{\"type\":\"summary\",\"sessionId\":\"s\"}",
    )
    .unwrap();
    assert!(!is_valid_session(&no_messages));
}

#[test]
fn test_display_title_truncation() {
    let session = summary_with("This is a very long title that should be truncated", 0, None);
    let short = session.display_title(20);
    assert!(short.chars().count() <= 20);
    assert!(short.ends_with("..."));
}

#[test]
fn test_display_title_unicode() {
    let session = summary_with("这是一个很长的中文标题需要截断", 0, None);
    let short = session.display_title(10);
    assert!(short.chars().count() <= 10);
    assert!(short.ends_with("..."));
}

#[test]
fn test_format_relative_time() {
    // 2025-01-01T00:00:00Z is epoch millisecond 1735689600000
    let base: i64 = 1735689600000;
    assert_eq!(
        format_relative_time("2025-01-01T00:00:00Z", base + 3600 * 1000),
        "1 hour ago"
    );
    assert_eq!(
        format_relative_time("2025-01-01T00:00:00Z", base + 30 * 1000),
        "Just now"
    );
    assert_eq!(
        format_relative_time("2025-01-01T00:00:00Z", base + 2 * 86400 * 1000),
        "2 days ago"
    );
    assert_eq!(format_relative_time("not a timestamp", 0), "Unknown");
}

#[test]
fn test_scan_orders_and_filters() {
    let old = summary_with("older session", 3, Some("2025-01-01T00:00:00Z"));
    let new = summary_with("newer session", 2, Some("2025-03-01T00:00:00Z"));
    let invalid = summary_with("(No title)", 5, Some("2025-02-01T00:00:00Z"));
    let all = vec![old, invalid, new];

    let (valid, filtered) = scan_project_sessions_with_filtered(&all);
    assert_eq!(filtered, 1);
    assert_eq!(valid.len(), 2);
    assert_eq!(valid[0].title, "newer session");
    assert_eq!(valid[1].title, "older session");

    assert_eq!(scan_project_sessions(&all).len(), 2);
    let dropped = get_filtered_sessions(&all);
    assert_eq!(dropped.len(), 1);
    assert_eq!(dropped[0].title, "(No title)");
}

#[test]
fn test_extract_match_snippet() {
    let text = format!("{}NEEDLE{}", "x".repeat(50), "y".repeat(50));
    let snippet = extract_match_snippet(&text, "needle", 20);
    assert!(snippet.contains("NEEDLE"));
    assert!(snippet.starts_with("..."));
    assert!(snippet.ends_with("..."));

    let short = extract_match_snippet("one\nline", "line", 60);
    assert_eq!(short, "one line");
}

#[test]
fn test_rename_entry_sets_title() {
    // renaming appends a custom-title record; the last one wins
    let content = format!(
        "{}\n{}\n",
        "{\"type\":\"user\",\"sessionId\":\"s\",\"message\":{\"content\":\"original question\"}}",
        "{\"type\":\"custom-title\",\"customTitle\":\"My renamed session\",\"sessionId\":\"s\"}",
    );
    let session = ConversationSession::from_content("/p/a.jsonl", &content).unwrap();
    assert_eq!(session.title().unwrap(), "My renamed session");
}

#[test]
fn test_search_session() {
    let content = format!(
        "{}\n{}\n{}\n",
        "{\"type\":\"user\",\"sessionId\":\"s\",\"message\":{\"content\":\"Tell me about RUST generics\"}}",
        "{\"type\":\"assistant\",\"sessionId\":\"s\",\"message\":{\"content\":\"rust answer\"}}",
        "{\"type\":\"user\",\"sessionId\":\"s\",\"message\":{\"content\":\"unrelated question\"}}",
    );
    let session = ConversationSession::from_content("/p/a.jsonl", &content).unwrap();
    // only user messages are searched, case-insensitively
    let hits = search_session(&session, "rust", 60);
    assert_eq!(hits.len(), 1);
    assert!(hits[0].contains("RUST generics"));
    assert!(search_session(&session, "nothing like this", 60).is_empty());
}

#[test]
fn test_dedup_tie_keeps_first_encountered() {
    // equal message counts under one identifier: the first file wins
    let first = ConversationSession::from_content(
        "/p/first.jsonl",
        "{\"type\":\"user\",\"sessionId\":\"tie\",\"message\":{\"content\":\"from first\"}}",
    )
    .unwrap();
    let second = ConversationSession::from_content(
        "/p/second.jsonl",
        "{\"type\":\"user\",\"sessionId\":\"tie\",\"message\":{\"content\":\"from second\"}}",
    )
    .unwrap();
    let kept = dedup_sessions(&vec![first, second]);
    assert_eq!(kept.len(), 1);
    assert_eq!(kept[0].file_path, "/p/first.jsonl");
    // a strictly larger later file still replaces the incumbent
    let bigger = ConversationSession::from_content(
        "/p/third.jsonl",
        &format!(
            "{}\n{}",
            "{\"type\":\"user\",\"sessionId\":\"tie\",\"message\":{\"content\":\"a\"}}",
            "{\"type\":\"assistant\",\"sessionId\":\"tie\",\"message\":{\"content\":\"b\"}}",
        ),
    )
    .unwrap();
    let kept2 = dedup_sessions(&vec![
        ConversationSession::from_content(
            "/p/first.jsonl",
            "{\"type\":\"user\",\"sessionId\":\"tie\",\"message\":{\"content\":\"x\"}}",
        )
        .unwrap(),
        bigger,
    ]);
    assert_eq!(kept2.len(), 1);
    assert_eq!(kept2[0].file_path, "/p/third.jsonl");
}

#[test]
fn test_scan_keeps_tie_order() {
    let a = summary_with("first of the tie", 1, Some("2025-01-01T00:00:00Z"));
    let b = summary_with("second of the tie", 1, Some("2025-01-01T00:00:00Z"));
    let all = vec![a, b];
    let (sorted, _) = scan_project_sessions_with_filtered(&all);
    assert_eq!(sorted[0].title, "first of the tie");
    assert_eq!(sorted[1].title, "second of the tie");
    // the convenience wrapper returns the very same listing
    let again = scan_project_sessions(&all);
    let titles: Vec<&str> = again.iter().map(|s| s.title.as_str()).collect();
    assert_eq!(titles, vec!["first of the tie", "second of the tie"]);
}
