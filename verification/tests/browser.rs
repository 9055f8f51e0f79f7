use codexsmtui::app::{App, DeleteJob, Effect, Focus, KeyCode, KeyEvent};
use codexsmtui::display::{
    detail_fields, detail_hint, message_heading, message_lines, project_label, session_item_text,
    sessions_title, status_hint,
};
use codexsmtui::scanner::ScanResult;
use codexsmtui::session::{MessageSnippet, Session, SessionDetail};

fn session(id: &str, project: &str, path: &str, updated: i64) -> Session {
    Session {
        id: id.to_string(),
        title: format!("Title {id}"),
        project_path: project.to_string(),
        file_path: path.to_string(),
        created_at: None,
        updated_at: Some(updated),
        size: 100,
        selected: false,
    }
}

fn sample() -> Vec<Session> {
    vec![
        session("s1", "/work/a", "/s/1.jsonl", 30),
        session("s2", "/work/b", "/s/2.jsonl", 20),
        session("s3", "/work/a", "/s/3.jsonl", 10),
    ]
}

fn app_with(sessions: Vec<Session>) -> App {
    App::new(
        "/home/u/.codex/sessions".to_string(),
        ScanResult { sessions, warnings: vec!["w".to_string()], root_exists: true },
    )
}

fn press(code: KeyCode) -> KeyEvent {
    KeyEvent { code, press: true, control: false }
}

fn ch(c: char) -> KeyEvent {
    press(KeyCode::Char(c))
}

fn is_nothing(e: &Effect) -> bool {
    matches!(e, Effect::Nothing)
}

#[test]
fn new_lists_everything_and_selects_the_first() {
    let app = app_with(sample());
    assert_eq!(app.status, "Loaded 3 sessions");
    assert_eq!(app.filtered_session_indices, vec![0, 1, 2]);
    assert_eq!(app.session_state.selected, Some(0));
    assert_eq!(app.project_state.selected, Some(0));
    assert_eq!(app.projects.len(), 3);
    assert_eq!(app.projects[0].path, "All Sessions");
    assert!(app.focus == Focus::Sessions);
    assert_eq!(app.current_session().unwrap().id, "s1");
    assert_eq!(app.no_sessions_message(), "No sessions in this project group.");

    let missing = App::new(
        "/nowhere".to_string(),
        ScanResult { sessions: Vec::new(), warnings: Vec::new(), root_exists: false },
    );
    assert_eq!(missing.status, "No Codex sessions found at ~/.codex/sessions");
    assert_eq!(missing.session_state.selected, None);
    assert_eq!(missing.no_sessions_message(), "No Codex sessions found at ~/.codex/sessions");
}

#[test]
fn moving_and_jumping_stay_in_range() {
    let mut app = app_with(sample());
    app.handle_key(press(KeyCode::Up));
    assert_eq!(app.session_state.selected, Some(0));
    app.handle_key(press(KeyCode::Down));
    app.handle_key(press(KeyCode::Down));
    app.handle_key(press(KeyCode::Down));
    assert_eq!(app.session_state.selected, Some(2));
    app.handle_key(ch('g'));
    assert_eq!(app.session_state.selected, Some(0));
    app.handle_key(ch('G'));
    assert_eq!(app.session_state.selected, Some(2));
    let released = KeyEvent { code: KeyCode::Up, press: false, control: false };
    app.handle_key(released);
    assert_eq!(app.session_state.selected, Some(2));
}

#[test]
fn choosing_a_project_filters_the_sessions() {
    let mut app = app_with(sample());
    app.handle_key(press(KeyCode::Tab));
    assert!(app.focus == Focus::Projects);
    app.handle_key(press(KeyCode::Down));
    assert_eq!(app.project_state.selected, Some(1));
    assert_eq!(app.current_project().unwrap().path, "/work/a");
    assert_eq!(app.filtered_session_indices, vec![0, 2]);
    assert_eq!(app.current_session().unwrap().id, "s1");
    app.handle_key(ch('G'));
    assert_eq!(app.filtered_session_indices, vec![1]);
    assert_eq!(app.session_state.selected, Some(0));
    app.handle_key(ch('g'));
    assert_eq!(app.filtered_session_indices, vec![0, 1, 2]);
    assert_eq!(app.current_session().unwrap().id, "s2");
}

#[test]
fn searching_filters_case_insensitively() {
    let mut app = app_with(sample());
    app.handle_key(ch('/'));
    assert!(app.search_mode);
    for c in "S2".chars() {
        app.handle_key(ch(c));
    }
    assert_eq!(app.search_query, "S2");
    assert_eq!(app.filtered_session_indices, vec![1]);
    assert_eq!(app.status_parts().0, "Search: S2");
    let with_control = KeyEvent { code: KeyCode::Char('x'), press: true, control: true };
    app.handle_key(with_control);
    assert_eq!(app.search_query, "S2");
    app.handle_key(press(KeyCode::Backspace));
    assert_eq!(app.search_query, "S");
    assert_eq!(app.filtered_session_indices, vec![0, 1, 2]);
    assert_eq!(app.current_session().unwrap().id, "s2");
    app.handle_key(ch('z'));
    assert!(app.filtered_session_indices.is_empty());
    assert_eq!(app.session_state.selected, None);
    assert_eq!(app.no_sessions_message(), "No sessions match search: Sz");
    app.handle_key(press(KeyCode::Esc));
    assert!(!app.search_mode);
    assert_eq!(app.search_query, "");
    assert_eq!(app.status, "Search cleared");
    assert_eq!(app.filtered_session_indices, vec![0, 1, 2]);
    app.handle_key(ch('/'));
    app.handle_key(ch('1'));
    app.handle_key(press(KeyCode::Enter));
    assert!(!app.search_mode);
    assert_eq!(app.search_query, "1");
}

#[test]
fn selecting_twice_restores_the_mark() {
    let mut app = app_with(sample());
    app.handle_key(ch(' '));
    assert!(app.sessions[0].selected);
    assert_eq!(app.status, "Selected s1");
    assert_eq!(app.selected_count(), 1);
    assert_eq!(app.status_parts().2, " | selected: 1");
    app.handle_key(ch(' '));
    assert!(!app.sessions[0].selected);
    assert_eq!(app.status, "Unselected s1");
    assert_eq!(app.selected_count(), 0);
    assert_eq!(app.status_parts().2, "");
    assert_eq!(app.status_parts().1, " | warnings: 1");
}

#[test]
fn deleting_the_current_session_asks_then_moves_it() {
    let mut app = app_with(sample());
    app.handle_key(press(KeyCode::Down));
    let e = app.handle_key(ch('d'));
    assert!(is_nothing(&e));
    let req = app.confirm_delete.as_ref().unwrap();
    assert_eq!(req.session_indices, vec![1]);
    assert_eq!(req.prompt, "Delete this session? y/N [s2]");
    let e = app.handle_key(ch('x'));
    assert!(is_nothing(&e));
    assert!(app.confirm_delete.is_some());
    let jobs = match app.handle_key(ch('y')) {
        Effect::Delete(jobs) => jobs,
        _ => panic!("expected a delete"),
    };
    assert!(app.confirm_delete.is_none());
    assert_eq!(jobs.len(), 1);
    assert_eq!(jobs[0].index, 1);
    assert_eq!(jobs[0].file_path, "/s/2.jsonl");
    app.finish_delete(&jobs, &vec![None]);
    let ids: Vec<&str> = app.sessions.iter().map(|s| s.id.as_str()).collect();
    assert_eq!(ids, vec!["s1", "s3"]);
    assert_eq!(app.status, "Moved 1 session(s) to trash");
    assert_eq!(app.projects.len(), 2);
    assert_eq!(app.filtered_session_indices, vec![0, 1]);
    assert_eq!(app.current_session().unwrap().id, "s3");
}

#[test]
fn deleting_marked_sessions_reports_failures() {
    let mut app = app_with(sample());
    let e = app.handle_key(ch('D'));
    assert!(is_nothing(&e));
    assert_eq!(app.status, "No selected sessions");
    app.handle_key(ch(' '));
    app.handle_key(ch('G'));
    app.handle_key(ch(' '));
    app.handle_key(ch('D'));
    assert_eq!(app.confirm_delete.as_ref().unwrap().prompt, "Delete selected 2 sessions? y/N");
    let jobs = match app.handle_key(ch('y')) {
        Effect::Delete(jobs) => jobs,
        _ => panic!("expected a delete"),
    };
    let paths: Vec<&str> = jobs.iter().map(|j| j.file_path.as_str()).collect();
    assert_eq!(paths, vec!["/s/1.jsonl", "/s/3.jsonl"]);
    app.finish_delete(&jobs, &vec![Some("busy".to_string()), None]);
    assert_eq!(app.status, "Moved 1 session(s); 1 failure(s)");
    assert_eq!(app.warnings, vec!["w", "/s/1.jsonl: busy"]);
    let ids: Vec<&str> = app.sessions.iter().map(|s| s.id.as_str()).collect();
    assert_eq!(ids, vec!["s1", "s2"]);

    let mut other = app_with(sample());
    let only = vec![DeleteJob { index: 0, file_path: "/s/1.jsonl".to_string() }];
    other.finish_delete(&only, &vec![Some("denied".to_string())]);
    assert_eq!(other.status, "/s/1.jsonl: denied");
    other.finish_delete(&Vec::new(), &Vec::new());
    assert_eq!(other.status, "No sessions deleted");
}

#[test]
fn cancelling_a_delete_keeps_everything() {
    let mut app = app_with(sample());
    app.handle_key(ch('d'));
    app.handle_key(ch('n'));
    assert!(app.confirm_delete.is_none());
    assert_eq!(app.status, "Delete cancelled");
    assert_eq!(app.sessions.len(), 3);
    app.handle_key(ch('d'));
    app.handle_key(press(KeyCode::Esc));
    assert!(app.confirm_delete.is_none());
}

#[test]
fn detail_opens_through_an_effect_and_closes() {
    let mut app = app_with(sample());
    let loaded = match app.handle_key(press(KeyCode::Enter)) {
        Effect::LoadDetail(s) => s,
        _ => panic!("expected a detail load"),
    };
    assert_eq!(loaded.id, "s1");
    app.finish_load_detail(Err("unable to open".to_string()));
    assert_eq!(app.status, "Detail load failed: unable to open");
    assert!(app.detail.is_none());
    let detail = SessionDetail {
        session: loaded,
        recent_messages: vec![MessageSnippet { role: "user".to_string(), timestamp: None, text: "hi".to_string() }],
    };
    app.finish_load_detail(Ok(detail));
    assert!(app.detail.is_some());
    app.handle_key(ch('g'));
    assert!(app.detail.is_some());
    app.handle_key(ch('d'));
    assert!(app.confirm_delete.is_some());
    app.handle_key(ch('y'));
    app.finish_delete(&vec![DeleteJob { index: 0, file_path: "/s/1.jsonl".to_string() }], &vec![None]);
    assert!(app.detail.is_none());
}

#[test]
fn detail_escape_and_quit() {
    let mut app = app_with(sample());
    app.finish_load_detail(Ok(SessionDetail { session: sample().remove(0), recent_messages: Vec::new() }));
    app.handle_key(press(KeyCode::Esc));
    assert!(app.detail.is_none());
    app.finish_load_detail(Ok(SessionDetail { session: sample().remove(0), recent_messages: Vec::new() }));
    app.handle_key(ch('q'));
    assert!(app.should_quit);
}

#[test]
fn help_takes_keys_until_closed() {
    let mut app = app_with(sample());
    app.handle_key(ch('?'));
    assert!(app.show_help);
    app.handle_key(press(KeyCode::Down));
    assert_eq!(app.session_state.selected, Some(0));
    app.handle_key(ch('?'));
    assert!(!app.show_help);
    app.handle_key(ch('?'));
    app.handle_key(ch('q'));
    assert!(app.should_quit);
}

#[test]
fn refresh_keeps_project_and_session() {
    let mut app = app_with(sample());
    let e = app.handle_key(ch('r'));
    assert!(matches!(e, Effect::Rescan));
    app.handle_key(press(KeyCode::Tab));
    app.handle_key(press(KeyCode::Down));
    app.handle_key(press(KeyCode::Tab));
    app.handle_key(press(KeyCode::Down));
    assert_eq!(app.current_session().unwrap().id, "s3");
    let mut rescanned = sample();
    rescanned.insert(0, session("s0", "/work/a", "/s/0.jsonl", 40));
    app.finish_refresh(ScanResult { sessions: rescanned, warnings: Vec::new(), root_exists: true });
    assert_eq!(app.status, "Refreshed 4 sessions");
    assert_eq!(app.current_project().unwrap().path, "/work/a");
    assert_eq!(app.filtered_session_indices, vec![0, 1, 3]);
    assert_eq!(app.current_session().unwrap().id, "s3");
    assert!(app.warnings.is_empty());

    app.finish_refresh(ScanResult { sessions: Vec::new(), warnings: Vec::new(), root_exists: false });
    assert_eq!(app.status, "No Codex sessions found at ~/.codex/sessions");
    assert_eq!(app.project_state.selected, Some(0));
    assert_eq!(app.session_state.selected, None);
}

#[test]
fn screen_texts() {
    let app = app_with(sample());
    let label = project_label(&app.projects[1]);
    assert_eq!(label.0, "/work/a");
    assert_eq!(label.1, " (2)");
    assert_eq!(sessions_title(""), "Sessions");
    assert_eq!(sessions_title("abc"), "Sessions / abc");
    let mut s = sample().remove(0);
    s.selected = true;
    let item = session_item_text(&s, "2024-01-01 00:00:00", "100 B");
    assert_eq!(item.marker, "[x]");
    assert_eq!(item.title, "Title s1");
    assert_eq!(item.project, "/work/a");
    assert_eq!(item.meta, "s1  2024-01-01 00:00:00  100 B");
    assert_eq!(message_heading("user", "Unknown"), "[user] Unknown");
    assert_eq!(app.status_parts().0, "Loaded 3 sessions");
}

#[test]
fn rows_stay_ordered_and_selection_follows_them() {
    let mut app = app_with(sample());
    let keys = vec![
        press(KeyCode::Down),
        ch(' '),
        press(KeyCode::Tab),
        press(KeyCode::Down),
        press(KeyCode::Tab),
        ch('/'),
        ch('z'),
        press(KeyCode::Backspace),
        press(KeyCode::Enter),
        ch('G'),
        ch('g'),
    ];
    for key in keys {
        app.handle_key(key);
        let rows = &app.filtered_session_indices;
        assert!(rows.windows(2).all(|w| w[0] < w[1]));
        assert!(rows.iter().all(|&k| k < app.sessions.len()));
        assert_eq!(app.current_session().is_some(), !rows.is_empty());
    }
}

#[test]
fn detail_metadata_lines() {
    let mut s = sample().remove(0);
    s.size = 1536;
    let detail = SessionDetail { session: s, recent_messages: Vec::new() };
    let fields = detail_fields(&detail, "c-time", "u-time");
    let labels: Vec<&str> = fields.iter().map(|f| f.0.as_str()).collect();
    assert_eq!(labels, vec!["Session ID: ", "Title: ", "Project: ", "Created: ", "Updated: ", "File: ", "Size: "]);
    assert_eq!(fields[0].1, "s1");
    assert_eq!(fields[3].1, "c-time");
    assert_eq!(fields[4].1, "u-time");
    assert_eq!(fields[5].1, detail.session.file_path);
    assert_eq!(fields[6].1, "1.5 KB");
}

#[test]
fn detail_message_section_and_hints() {
    let none: Vec<MessageSnippet> = Vec::new();
    assert_eq!(message_lines(&none, &Vec::new()), vec!["No recent user/assistant messages parsed."]);
    let messages = vec![
        MessageSnippet { role: "user".to_string(), timestamp: None, text: "hi".to_string() },
        MessageSnippet { role: "assistant".to_string(), timestamp: Some(1), text: "yo".to_string() },
    ];
    let times = vec!["Unknown".to_string(), "t1".to_string()];
    assert_eq!(
        message_lines(&messages, &times),
        vec!["[user] Unknown", "hi", "", "[assistant] t1", "yo", ""]
    );
    assert_eq!(detail_hint(), "esc close | d delete");
    assert!(status_hint().starts_with(" | tab focus"));
    assert!(status_hint().ends_with("q quit"));
}
