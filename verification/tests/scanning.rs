use codexsmtui::scanner::{
    build_projects, default_session_root_label, is_session_file, scan_sessions, sort_by_recency,
    ScanEvent,
};
use codexsmtui::session::Session;

fn session(id: &str, project: &str, path: &str, updated: Option<i64>, created: Option<i64>) -> Session {
    Session {
        id: id.to_string(),
        title: format!("title {id}"),
        project_path: project.to_string(),
        file_path: path.to_string(),
        created_at: created,
        updated_at: updated,
        size: 10,
        selected: false,
    }
}

#[test]
fn label_names_the_default_root() {
    assert_eq!(default_session_root_label(), "~/.codex/sessions");
}

#[test]
fn only_jsonl_files_are_sessions() {
    assert!(is_session_file("/s/2025/01/a.jsonl", true));
    assert!(!is_session_file("/s/2025/01/a.jsonl", false));
    assert!(!is_session_file("/s/a.json", true));
    assert!(!is_session_file("/s/.jsonl", true));
    assert!(!is_session_file("/s/a.JSONL", true));
    assert!(is_session_file("/s/a.b.jsonl", true));
}

#[test]
fn sessions_are_listed_newest_first_then_by_path() {
    let items = vec![
        session("a", "p", "/s/b.jsonl", Some(10), None),
        session("b", "p", "/s/a.jsonl", Some(10), None),
        session("c", "p", "/s/c.jsonl", None, Some(30)),
        session("d", "p", "/s/d.jsonl", None, None),
        session("e", "p", "/s/2025-x/e.jsonl", Some(10), None),
        session("f", "p", "/s/2025/f.jsonl", Some(10), None),
    ];
    let ids: Vec<String> = sort_by_recency(&items).into_iter().map(|s| s.id).collect();
    assert_eq!(ids, vec!["c", "f", "e", "b", "a", "d"]);
}

#[test]
fn scan_collects_sessions_and_warnings() {
    let events = vec![
        ScanEvent::Parsed(session("old", "p", "/s/old.jsonl", Some(1), None)),
        ScanEvent::WalkFailed("permission denied".to_string()),
        ScanEvent::Parsed(session("new", "p", "/s/new.jsonl", Some(2), None)),
        ScanEvent::ParseFailed("/s/bad.jsonl".to_string(), "unable to open".to_string()),
    ];
    let result = scan_sessions(true, &events);
    assert!(result.root_exists);
    let ids: Vec<&str> = result.sessions.iter().map(|s| s.id.as_str()).collect();
    assert_eq!(ids, vec!["new", "old"]);
    assert_eq!(result.warnings, vec!["Walk error: permission denied", "/s/bad.jsonl: unable to open"]);

    let missing = scan_sessions(false, &events);
    assert!(!missing.root_exists);
    assert!(missing.sessions.is_empty());
    assert!(missing.warnings.is_empty());
}

#[test]
fn projects_are_grouped_and_counted() {
    let items = vec![
        session("1", "/work/b", "/s/1.jsonl", None, None),
        session("2", "/work/a", "/s/2.jsonl", None, None),
        session("3", "/work/b", "/s/3.jsonl", None, None),
        session("4", "Unknown Project", "/s/4.jsonl", None, None),
    ];
    let projects = build_projects(&items);
    let got: Vec<(String, usize)> = projects.into_iter().map(|p| (p.path, p.session_count)).collect();
    assert_eq!(
        got,
        vec![
            ("All Sessions".to_string(), 4),
            ("/work/a".to_string(), 1),
            ("/work/b".to_string(), 2),
            ("Unknown Project".to_string(), 1),
        ]
    );
    let none = build_projects(&Vec::new());
    assert_eq!(none.len(), 1);
    assert_eq!(none[0].session_count, 0);
}
