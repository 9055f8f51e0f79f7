use codexsmtui::session::Session;
use codexsmtui::text::{
    clean_text, concat2, contains_str, decimal_string, same_text, trim,
    truncate_display_width,
};

#[test]
fn whitespace_collapses_and_blank_is_none() {
    assert_eq!(clean_text("  a \t b\n\nc  ").unwrap(), "a b c");
    assert_eq!(clean_text("\u{3000}x\u{a0}y").unwrap(), "x y");
    assert!(clean_text(" \n\t ").is_none());
    assert!(clean_text("").is_none());
    let once = clean_text(" p  q ").unwrap();
    assert_eq!(clean_text(&once).unwrap(), once);
}

#[test]
fn trim_matches_std() {
    for text in ["  a b  ", "", "   ", "x", "\u{2003}y\u{2003}"] {
        assert_eq!(trim(text), text.trim());
    }
}

#[test]
fn truncation_counts_display_columns() {
    assert_eq!(truncate_display_width("short", 10), "short");
    assert_eq!(truncate_display_width("日本語のテキスト", 9), "日本語...");
    assert_eq!(truncate_display_width("abcdef", 2), "...");
    assert_eq!(truncate_display_width("abcdef", 6), "abcdef");
    assert_eq!(truncate_display_width("abcdefg", 6), "abc...");
}

#[test]
fn substrings_and_case() {
    assert!(contains_str("hello world", "o w"));
    assert!(contains_str("abc", ""));
    assert!(!contains_str("abc", "abcd"));
    assert!(!contains_str("abc", "ac"));
    assert!(same_text("x", "x"));
    assert!(!same_text("x", "xy"));
    assert_eq!(concat2("ab", "cd"), "abcd");
}

#[test]
fn decimals() {
    assert_eq!(decimal_string(0), "0");
    assert_eq!(decimal_string(7), "7");
    assert_eq!(decimal_string(1024), "1024");
    assert_eq!(decimal_string(u64::MAX), u64::MAX.to_string());
}

#[test]
fn search_text_is_lower_cased() {
    let session = Session {
        id: "ID-9".to_string(),
        title: "MiXeD Ünïcode".to_string(),
        project_path: "/P".to_string(),
        file_path: "/F.jsonl".to_string(),
        created_at: None,
        updated_at: None,
        size: 0,
        selected: false,
    };
    assert_eq!(session.search_blob(), "mixed ünïcode\n/p\nid-9\n/f.jsonl");
}

#[test]
fn cleaned_text_has_single_inner_spaces() {
    for text in ["  a \t b\n\nc  ", "x", "\u{2003}p\u{2003}\u{2003}q", "one  two   three"] {
        let c = clean_text(text).unwrap();
        assert!(!c.starts_with(char::is_whitespace));
        assert!(!c.ends_with(char::is_whitespace));
        assert!(!c.contains("  "));
        assert!(c.chars().all(|ch| !ch.is_whitespace() || ch == ' '));
        assert_eq!(c, text.split_whitespace().collect::<Vec<_>>().join(" "));
    }
}
