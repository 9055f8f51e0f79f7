use codexsmtui::path::{compare_paths, file_name_of, join, paths_equal, split_name};
use codexsmtui::trash::{trash_step, unique_target_path, TrashStep};
use std::collections::HashSet;
use std::path::Path;

#[test]
fn paths_compare_by_components() {
    for (a, b) in [
        ("/s/2025/a.jsonl", "/s/2025-x/b.jsonl"),
        ("a/b", "a-b"),
        ("/a", "a"),
        ("./a", "a"),
        ("../a", "a"),
        ("a//b", "a/b"),
        ("a/./b", "a/b/"),
        ("x", "x/y"),
        ("é", "z"),
    ] {
        let want = match Path::new(a).cmp(Path::new(b)) {
            std::cmp::Ordering::Less => -1,
            std::cmp::Ordering::Equal => 0,
            std::cmp::Ordering::Greater => 1,
        };
        assert_eq!(compare_paths(a, b), want, "{a} vs {b}");
        assert_eq!(paths_equal(a, b), Path::new(a) == Path::new(b), "{a} == {b}");
    }
}

#[test]
fn file_names_stems_and_extensions() {
    for p in ["/tmp/x.jsonl", "/tmp/x.tar.gz", "/tmp/.bashrc", "/tmp/a.", "/tmp/", "/", "a/..", "."] {
        let want = Path::new(p).file_name().map(|n| n.to_str().unwrap().to_string());
        let got = file_name_of(p).map(|v| v.into_iter().collect::<String>());
        assert_eq!(got, want, "{p}");
        if let Some(name) = file_name_of(p) {
            let (stem, ext) = split_name(&name);
            let stem: String = stem.into_iter().collect();
            let ext: Option<String> = ext.map(|e| e.into_iter().collect());
            assert_eq!(Some(stem.as_str()), Path::new(p).file_stem().and_then(|s| s.to_str()));
            assert_eq!(ext.as_deref(), Path::new(p).extension().and_then(|s| s.to_str()));
        }
    }
}

#[test]
fn join_matches_pathbuf_push() {
    for (dir, name) in [("/t", "a.jsonl"), ("/t/", "a.jsonl"), ("", "a"), ("/t", "/abs")] {
        let chars: Vec<char> = name.chars().collect();
        assert_eq!(join(dir, &chars), Path::new(dir).join(name).to_str().unwrap());
    }
}

/// Searches the trash directory `dir` for a free name for `source`, asking
/// `exists` about each candidate as the program does.
fn search(dir: &str, source: &str, exists: impl Fn(&str) -> bool) -> (String, u64) {
    let mut attempt: u64 = 0;
    loop {
        let candidate = unique_target_path(dir, source, true, true, attempt);
        match trash_step(dir, source, true, true, attempt, exists(&candidate)) {
            TrashStep::Take(path) => return (path, attempt),
            TrashStep::Next(next) => attempt = next,
        }
    }
}

#[test]
fn appends_suffix_when_name_exists() {
    // A trash directory whose only entry is `sample.jsonl`.
    let base = Path::new("/tmp/codexsmtui-trash-test");
    let existing = base.join("sample.jsonl");
    let dir = base.to_str().unwrap();
    let (candidate, _) = search(dir, "/tmp/sample.jsonl", |p| Path::new(p) == existing);
    assert!(candidate.ends_with("sample-1.jsonl"));
    assert_eq!(Path::new(&candidate), base.join("sample-1.jsonl"));
}

#[test]
fn trash_names_follow_the_attempts() {
    let base = "/tmp/codexsmtui-trash";
    assert_eq!(unique_target_path(base, "/tmp/sample.jsonl", true, true, 0), "/tmp/codexsmtui-trash/sample.jsonl");
    assert_eq!(unique_target_path(base, "/tmp/sample.jsonl", true, true, 12), "/tmp/codexsmtui-trash/sample-12.jsonl");
    assert_eq!(unique_target_path(base, "/tmp/noext", true, true, 2), "/tmp/codexsmtui-trash/noext-2");
    assert_eq!(unique_target_path(base, "/", true, true, 0), "/tmp/codexsmtui-trash/session.jsonl");
    assert_eq!(unique_target_path(base, "/", true, true, 3), "/tmp/codexsmtui-trash/session-3");
}

#[test]
fn the_search_takes_the_first_free_name() {
    let taken: HashSet<String> = ["/t/a.jsonl", "/t/a-1.jsonl", "/t/a-2.jsonl", "/t/a-4.jsonl"]
        .iter()
        .map(|s| s.to_string())
        .collect();
    let (path, attempt) = search("/t", "/logs/a.jsonl", |p| taken.contains(p));
    assert_eq!(path, "/t/a-3.jsonl");
    assert_eq!(attempt, 3);
    let (free, first) = search("/t", "/logs/b.jsonl", |p| taken.contains(p));
    assert_eq!(free, "/t/b.jsonl");
    assert_eq!(first, 0);
    assert!(matches!(trash_step("/t", "/logs/a.jsonl", true, true, 7, true), TrashStep::Next(8)));
}

#[test]
fn trash_candidates_never_repeat() {
    for source in ["/tmp/sample.jsonl", "/tmp/x-1.jsonl", "/tmp/a.", "/tmp/noext", "/"] {
        let names: Vec<String> = (0..120).map(|k| unique_target_path("/t", source, true, true, k)).collect();
        for i in 0..names.len() {
            for j in i + 1..names.len() {
                assert_ne!(names[i], names[j], "{source}: {i} and {j}");
            }
        }
    }
}

#[test]
fn parts_that_are_not_text_are_replaced_or_dropped() {
    // The stem is not valid UTF-8: `session` stands for it.
    let bad_stem = "/logs/bad\u{fffd}.jsonl";
    assert_eq!(unique_target_path("/t", bad_stem, false, true, 0), "/t/session.jsonl");
    assert_eq!(unique_target_path("/t", bad_stem, false, true, 2), "/t/session-2.jsonl");
    assert_eq!(unique_target_path("/t", bad_stem, true, true, 2), "/t/bad\u{fffd}-2.jsonl");
    // The extension is not valid UTF-8: the stem stays, the extension goes.
    let bad_ext = "/logs/abc.\u{fffd}";
    assert_eq!(unique_target_path("/t", bad_ext, true, false, 0), "/t/session.jsonl");
    assert_eq!(unique_target_path("/t", bad_ext, true, false, 1), "/t/abc-1");
    assert_eq!(unique_target_path("/t", bad_ext, true, false, 2), "/t/abc-2");
    let names: Vec<String> = (0..50).map(|k| unique_target_path("/t", bad_ext, true, false, k)).collect();
    for i in 0..names.len() {
        for j in i + 1..names.len() {
            assert_ne!(names[i], names[j]);
        }
    }
}
