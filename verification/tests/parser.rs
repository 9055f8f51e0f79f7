use codexsmtui::json::Json;
use codexsmtui::parser::{
    extract_created_time, extract_message_snippet, extract_project_path, extract_recent_message,
    extract_role_and_text, extract_session_id, extract_timestamp, extract_title,
    fallback_session_id, is_noise_text, parse_datetime, parse_i64, parse_recent_messages_from_head,
    parse_recent_messages_from_tail, parse_session_preview, recent_messages, tail_start,
    truncate_display_width,
};

fn s(text: &str) -> Json {
    Json::Str(text.to_string())
}

fn obj(members: Vec<(&str, Json)>) -> Json {
    Json::Object(members.into_iter().map(|(k, v)| (k.to_string(), v)).collect())
}

#[test]
fn truncates_wide_strings() {
    assert_eq!(truncate_display_width("hello world", 8), "hello...");
}

#[test]
fn builds_file_based_fallback_id() {
    let id = fallback_session_id("/tmp/rollout-abc-123.jsonl", true);
    assert!(id.starts_with("file:rollout-abc-123"));
}

#[test]
fn extracts_message_text() {
    let value = obj(vec![
        ("type", s("response_item")),
        (
            "payload",
            obj(vec![
                ("type", s("message")),
                ("role", s("user")),
                (
                    "content",
                    Json::Array(vec![obj(vec![("type", s("input_text")), ("text", s("hello   codex"))])]),
                ),
            ]),
        ),
    ]);

    let message = extract_role_and_text(&value).unwrap();
    assert_eq!(message.0, "user");
    assert_eq!(message.1, "hello codex");
}

#[test]
fn parses_json_lines_through_serde() {
    let log = vec![
        Some(r#"{"type":"response_item","payload":{"type":"message","role":"assistant","content":[{"type":"output_text","text":"  done  "}]}}"#.to_string()),
        Some("{not json".to_string()),
        Some(String::new()),
        None,
    ];
    let recent = parse_recent_messages_from_head(&log);
    assert_eq!(recent.len(), 1);
    assert_eq!(recent[0].role, "assistant");
    assert_eq!(recent[0].text, "done");
}

fn user_event(message: &str) -> Json {
    obj(vec![
        ("type", s("event_msg")),
        ("payload", obj(vec![("type", s("user_message")), ("message", s(message))])),
    ])
}

#[test]
fn user_message_events_are_user_messages() {
    let value = user_event("fix\n the   bug");
    let message = extract_role_and_text(&value).unwrap();
    assert_eq!(message.0, "user");
    assert_eq!(message.1, "fix the bug");
    assert_eq!(extract_message_snippet(&value, "user").unwrap(), "fix the bug");
    assert!(extract_message_snippet(&value, "assistant").is_none());
}

#[test]
fn noise_is_skipped_case_insensitively() {
    assert!(is_noise_text("see <ENVIRONMENT_CONTEXT> here"));
    assert!(is_noise_text("# AGENTS.md instructions for /x"));
    assert!(is_noise_text("Filesystem sandboxing defines the rules"));
    assert!(!is_noise_text("an ordinary question"));
    let value = obj(vec![
        ("type", s("response_item")),
        (
            "payload",
            obj(vec![
                ("type", s("message")),
                ("role", s("user")),
                (
                    "content",
                    Json::Array(vec![
                        obj(vec![("text", s("<environment_context>x</environment_context>"))]),
                        obj(vec![("text", s("real question"))]),
                    ]),
                ),
            ]),
        ),
    ]);
    assert_eq!(extract_role_and_text(&value).unwrap().1, "real question");
}

#[test]
fn noisy_only_message_gives_nothing() {
    assert!(extract_role_and_text(&user_event("<app-context>")).is_none());
    assert!(extract_role_and_text(&user_event("   ")).is_none());
}

#[test]
fn fields_follow_their_key_order() {
    let value = obj(vec![
        ("cwd", s("/work/b")),
        ("id", s(" top-id ")),
        (
            "payload",
            obj(vec![
                ("cwd", s("/work/a")),
                ("id", s("  ")),
                ("session_id", s("sid")),
                ("title", s("  Payload   title ")),
            ]),
        ),
        ("title", s("Top title")),
    ]);
    assert_eq!(extract_session_id(&value).unwrap(), "top-id");
    assert_eq!(extract_title(&value).unwrap(), "Payload title");
    assert_eq!(extract_project_path(&value).unwrap(), "/work/a");
}

#[test]
fn times_read_rfc3339_or_unix_seconds() {
    assert_eq!(parse_datetime("2024-01-02T03:04:05Z"), Some(1704164645));
    assert_eq!(parse_datetime("2024-01-02T03:04:05+01:00"), Some(1704161045));
    assert_eq!(parse_datetime("1700000000"), Some(1700000000));
    assert_eq!(parse_datetime("-5"), Some(-5));
    assert_eq!(parse_datetime("99999999999999"), None);
    assert_eq!(parse_datetime("yesterday"), None);
    let value = obj(vec![
        ("payload", obj(vec![("timestamp", s("10"))])),
        ("timestamp", s("2024-01-02T03:04:05Z")),
    ]);
    assert_eq!(extract_created_time(&value), Some(10));
    assert_eq!(extract_timestamp(&value), Some(1704164645));
}

#[test]
fn integers_parse_like_std() {
    assert_eq!(parse_i64("42"), Some(42));
    assert_eq!(parse_i64("+42"), Some(42));
    assert_eq!(parse_i64("-0"), Some(0));
    assert_eq!(parse_i64("-9223372036854775808"), Some(i64::MIN));
    assert_eq!(parse_i64("9223372036854775807"), Some(i64::MAX));
    assert_eq!(parse_i64("9223372036854775808"), None);
    assert_eq!(parse_i64("-9223372036854775809"), None);
    assert_eq!(parse_i64(""), None);
    assert_eq!(parse_i64("-"), None);
    assert_eq!(parse_i64("1 "), None);
    for text in ["0", "17", "-17", "+3", "00012", "123456789012"] {
        assert_eq!(parse_i64(text), text.parse::<i64>().ok());
    }
}

#[test]
fn fallback_id_is_cut_to_24_characters() {
    assert_eq!(
        fallback_session_id("/s/rollout-2025-01-01T00-00-00-abcdef.jsonl", true),
        "file:rollout-2025-01-01T00-00"
    );
    assert_eq!(fallback_session_id("/", true), "file:session");
    assert_eq!(fallback_session_id("/tmp/.hidden", true), "file:.hidden");
    assert_eq!(fallback_session_id("/tmp/bad\u{fffd}.jsonl", false), "file:session");
    assert_eq!(fallback_session_id("/tmp/abc.\u{fffd}", true), "file:abc");
}

fn lines(texts: &[&str]) -> Vec<Option<String>> {
    texts.iter().map(|t| Some(t.to_string())).collect()
}

#[test]
fn preview_takes_first_fields_and_falls_back() {
    let log = lines(&[
        r#"{"type":"session_meta","payload":{"id":"abc","cwd":"/proj","timestamp":"2024-05-01T10:00:00Z"}}"#,
        "not json at all",
        r#"{"type":"event_msg","timestamp":"2024-05-01T10:05:00Z","payload":{"type":"user_message","message":"first  question"}}"#,
        r#"{"type":"event_msg","timestamp":"2024-05-01T10:06:00Z","payload":{"type":"user_message","message":"second question"}}"#,
    ]);
    let session = parse_session_preview("/root/s/a.jsonl", true, 77, None, &log);
    assert_eq!(session.id, "abc");
    assert_eq!(session.title, "first question");
    assert_eq!(session.project_path, "/proj");
    assert_eq!(session.file_path, "/root/s/a.jsonl");
    assert_eq!(session.created_at, Some(1714557600));
    assert_eq!(session.updated_at, Some(1714558000 - 40));
    assert_eq!(session.size, 77);
    assert!(!session.selected);

    let with_mtime = parse_session_preview("/root/s/a.jsonl", true, 77, Some(5), &log);
    assert_eq!(with_mtime.updated_at, Some(5));
    assert_eq!(with_mtime.created_at, Some(1714557600));

    let empty = parse_session_preview("/root/s/rollout-x.jsonl", true, 0, Some(9), &lines(&[]));
    assert_eq!(empty.id, "file:rollout-x");
    assert_eq!(empty.title, "Untitled Session");
    assert_eq!(empty.project_path, "Unknown Project");
    assert_eq!(empty.created_at, Some(9));
    assert_eq!(empty.updated_at, Some(9));
}

#[test]
fn preview_reads_only_the_first_fifty_lines() {
    let mut log: Vec<Option<String>> = vec![None; 50];
    log.push(Some(r#"{"payload":{"id":"late"}}"#.to_string()));
    let session = parse_session_preview("/x/late.jsonl", true, 1, None, &log);
    assert_eq!(session.id, "file:late");
    assert_eq!(session.created_at, None);
    assert_eq!(session.updated_at, None);
}

#[test]
fn preview_title_prefers_explicit_title_and_cuts_it() {
    let long = "t".repeat(100);
    let log = lines(&[
        r#"{"type":"event_msg","payload":{"type":"user_message","message":"question"}}"#,
        &format!(r#"{{"title":"{}"}}"#, long),
    ]);
    let session = parse_session_preview("/x/y.jsonl", true, 1, None, &log);
    assert_eq!(session.title, format!("{}...", "t".repeat(77)));
}

#[test]
fn recent_messages_keep_the_last_eight() {
    let mut texts = Vec::new();
    for i in 0..10 {
        texts.push(format!(
            r#"{{"type":"event_msg","timestamp":"{}","payload":{{"type":"user_message","message":"m{}"}}}}"#,
            1000 + i,
            i
        ));
    }
    let owned: Vec<Option<String>> = texts.iter().map(|t| Some(t.clone())).collect();
    let recent = parse_recent_messages_from_head(&owned);
    assert_eq!(recent.len(), 8);
    assert_eq!(recent[0].text, "m2");
    assert_eq!(recent[7].text, "m9");
    assert_eq!(recent[7].role, "user");
    assert_eq!(recent[7].timestamp, Some(1009));

    let chunk = texts.join("\n");
    let from_tail = parse_recent_messages_from_tail(&chunk, 0);
    assert_eq!(from_tail.len(), 8);
    assert_eq!(from_tail[0].text, "m2");
}

#[test]
fn tail_drops_the_partial_first_line() {
    let chunk = "{\"type\":\"event_msg\",\"payload\":{\"type\":\"user_message\",\"message\":\"cut\"}}\r\n{\"type\":\"event_msg\",\"payload\":{\"type\":\"user_message\",\"message\":\"whole\"}}\r\n";
    let from_start = parse_recent_messages_from_tail(chunk, 0);
    assert_eq!(from_start.len(), 2);
    let from_middle = parse_recent_messages_from_tail(chunk, 10);
    assert_eq!(from_middle.len(), 1);
    assert_eq!(from_middle[0].text, "whole");
    assert!(parse_recent_messages_from_tail("no newline here", 5).is_empty());
    assert_eq!(tail_start(10), 0);
    assert_eq!(tail_start(200_000), 200_000 - 131_072);
}

#[test]
fn recent_message_text_is_cut_to_160_columns() {
    let long = "w".repeat(200);
    let value = user_event(&long);
    let m = extract_recent_message(&value).unwrap();
    assert_eq!(m.text, format!("{}...", "w".repeat(157)));
    assert_eq!(m.timestamp, None);
}

#[test]
fn detail_falls_back_to_the_head_when_the_tail_has_no_message() {
    let head = lines(&[
        r#"{"type":"event_msg","payload":{"type":"user_message","message":"from head"}}"#,
    ]);
    let from_head = recent_messages(Vec::new(), &head);
    assert_eq!(from_head.len(), 1);
    assert_eq!(from_head[0].text, "from head");

    let tail = parse_recent_messages_from_tail(
        "{\"type\":\"event_msg\",\"payload\":{\"type\":\"user_message\",\"message\":\"from tail\"}}\n",
        0,
    );
    let kept = recent_messages(tail, &head);
    assert_eq!(kept.len(), 1);
    assert_eq!(kept[0].text, "from tail");
    assert!(recent_messages(Vec::new(), &lines(&["not json"])).is_empty());
}
