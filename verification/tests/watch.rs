use stemwatch::tasks::db::TaskSelection;
use stemwatch::watch::{parse_task_selections, relative_path, task_file_paths, tasks_file_touched};

fn args(v: &[&str]) -> Vec<String> {
    v.iter().map(|s| s.to_string()).collect()
}

fn sel(dir: &str, name: &str) -> (String, String) {
    (dir.to_string(), name.to_string())
}

fn sels(v: &[TaskSelection]) -> Vec<(String, String)> {
    v.iter().map(|s| (s.dir.clone(), s.name.clone())).collect()
}

#[test]
fn relative_paths() {
    assert_eq!(relative_path("/w", "/w/a/b.txt"), "a/b.txt");
    assert_eq!(relative_path("/w/", "/w/a.txt"), "a.txt");
    assert_eq!(relative_path("/w", "/other/a.txt"), "/other/a.txt");
    assert_eq!(relative_path("/w", "/wx/a.txt"), "/wx/a.txt");
    assert_eq!(relative_path("/w", "/w"), "");
}

#[test]
fn no_selection_is_an_error() {
    let (s, err, warnings) = parse_task_selections(&args(&["watch"]), "/cwd");
    assert!(s.is_empty() && err && warnings.is_empty());
    let (s, err, _) = parse_task_selections(&args(&[]), "/cwd");
    assert!(s.is_empty() && err);
}

#[test]
fn well_formed_selections() {
    let (s, err, warnings) = parse_task_selections(&args(&["watch", "foo:taskfoo", ":root"]), "/cwd");
    assert_eq!(sels(&s), vec![sel("/cwd/foo", "taskfoo"), sel("/cwd", "root")]);
    assert!(!err);
    assert!(warnings.is_empty());
    let (s, _, _) = parse_task_selections(&args(&["watch", "a:b:c"]), "/cwd");
    assert_eq!(sels(&s), vec![sel("/cwd/a:b", "c")]);
}

#[test]
fn malformed_selections_warn_from_the_first_error_on() {
    let (s, err, warnings) =
        parse_task_selections(&args(&["watch", "ok:one", "nocolon", "bar:", "x:two"]), "/cwd");
    assert!(err);
    assert_eq!(
        sels(&s),
        vec![sel("/cwd/ok", "one"), sel("/cwd", "nocolon"), sel("/cwd/bar", "task"), sel("/cwd/x", "two")]
    );
    assert_eq!(
        warnings,
        vec![
            "expected '<path>:<task>', got 'nocolon'; using /cwd/tasks.toml for task 'nocolon'".to_string(),
            "expected '<path>:<task>', got 'bar:'; using /cwd/bar/tasks.toml for task 'task'".to_string(),
            "expected '<path>:<task>', got 'x:two'; using /cwd/x/tasks.toml for task 'two'".to_string(),
        ]
    );
}

#[test]
fn absolute_selection_path_replaces_cwd() {
    let (s, err, _) = parse_task_selections(&args(&["watch", "/abs/dir:t"]), "/cwd");
    assert_eq!(sels(&s), vec![sel("/abs/dir", "t")]);
    assert!(!err);
}

#[test]
fn touched_task_files() {
    let selections = vec![
        TaskSelection { dir: "/w/foo".to_string(), name: "a".to_string() },
        TaskSelection { dir: "/w/bar".to_string(), name: "b".to_string() },
    ];
    let paths = task_file_paths(&selections, "/w");
    assert_eq!(
        paths,
        vec![
            ("/w/foo".to_string(), "foo/tasks.toml".to_string(), "foo/tasks.toml".to_string()),
            ("/w/bar".to_string(), "bar/tasks.toml".to_string(), "bar/tasks.toml".to_string()),
        ]
    );
    let ev = |p: &str| format!(r#"{{"type":"fs-event","timestamp":1,"kind":"Modify","paths":["{p}"]}}"#);
    assert_eq!(tasks_file_touched(&ev("bar/tasks.toml"), &paths), Some("/w/bar".to_string()));
    assert_eq!(tasks_file_touched(&ev("./foo/tasks.toml"), &paths), Some("/w/foo".to_string()));
    assert_eq!(tasks_file_touched(&ev("x/bar/tasks.toml"), &paths), Some("/w/bar".to_string()));
    assert_eq!(tasks_file_touched(&ev("bar/other.toml"), &paths), None);
    assert_eq!(tasks_file_touched(&ev("tasks.toml"), &paths), None);
    assert_eq!(
        tasks_file_touched(r#"{"type":"fs-error","paths":["foo/tasks.toml"]}"#, &paths),
        None
    );
    assert_eq!(tasks_file_touched("garbage", &paths), None);
    let two = r#"{"type":"fs-event","paths":["a.txt","foo/tasks.toml","bar/tasks.toml"]}"#;
    assert_eq!(tasks_file_touched(two, &paths), Some("/w/foo".to_string()));
}

#[test]
fn task_file_outside_watch_root_keeps_full_path() {
    let selections = vec![TaskSelection { dir: "/elsewhere".to_string(), name: "a".to_string() }];
    let paths = task_file_paths(&selections, "/w");
    assert_eq!(paths[0].1, "/elsewhere/tasks.toml");
    assert_eq!(paths[0].2, "/elsewhere/tasks.toml");
}
