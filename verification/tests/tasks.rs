use stemwatch::tasks::db::{
    build_tasks_file, diff_tasks, validate_task, OnReload, RawTask, RawTasksFile, ReloadEvent,
    ResolvedDep, Task, TaskConfigError, TaskDb, TaskEntry, TaskKey, TaskSelection, TasksFile,
    TASKS_FILE_NAME,
};
use stemwatch::tasks::fs_events::extract_fs_paths;
use stemwatch::tasks::globs::build_globset;
use stemwatch::tasks::scheduler::{
    collect_closure, plan_runs, topo_sort, DepEdge, ReloadAction, RunAction, RunDecision, SchedulerState,
    StartAction, TaskRuntime,
};
use stemwatch::tasks::tables::build_tables;
use stemwatch::tasks::deps::{parse_dep, resolve_deps_of};

fn raw(cmd: Option<&str>, watch: Option<Vec<&str>>, persistent: Option<bool>) -> RawTask {
    RawTask {
        cmd: cmd.map(|c| c.to_string()),
        watch: watch.map(|w| w.into_iter().map(|g| g.to_string()).collect()),
        persistent,
        deps: None,
    }
}

fn tasks_file(path: &str, items: Vec<(&str, &str, Vec<&str>, bool)>) -> TasksFile {
    let raw_file = RawTasksFile {
        tasks: items
            .into_iter()
            .map(|(n, c, w, p)| (n.to_string(), raw(Some(c), Some(w), Some(p))))
            .collect(),
    };
    build_tasks_file(path.to_string(), raw_file, "content", None).unwrap()
}

fn key(root: &str, name: &str) -> TaskKey {
    TaskKey { root: root.to_string(), name: name.to_string() }
}

fn runtime(deps: Vec<(TaskKey, OnReload)>, persistent: bool, rerun_hash: u64) -> TaskRuntime {
    TaskRuntime {
        task: Task { cmd: "echo".to_string(), watch: vec![], persistent, deps: vec![] },
        globset: build_globset(&vec![]).ok().unwrap(),
        deps: deps.into_iter().map(|(target, on_reload)| ResolvedDep { target, on_reload }).collect(),
        valid: true,
        persistent,
        rerun_hash,
        effective_hash: rerun_hash,
    }
}

fn keys(v: &[TaskKey]) -> Vec<(String, String)> {
    v.iter().map(|k| (k.root.clone(), k.name.clone())).collect()
}

#[test]
fn loads_valid_task_table() {
    let f = tasks_file(
        "/p/tasks.toml",
        vec![("task1", "echo one", vec!["*.rs"], true), ("task2", "echo two", vec!["src/**"], false)],
    );
    assert_eq!(f.tasks.len(), 2);
    let t1 = f.task("task1").ok().unwrap();
    assert_eq!(t1.cmd, "echo one");
    assert_eq!(t1.watch, vec!["*.rs".to_string()]);
    assert!(t1.persistent);
    let t2 = f.task("task2").ok().unwrap();
    assert_eq!(t2.cmd, "echo two");
    assert!(!t2.persistent);
    assert_eq!(f.metadata.path, "/p/tasks.toml");
    assert_eq!(TASKS_FILE_NAME, "tasks.toml");
}

#[test]
fn missing_task_lookup_returns_error() {
    let f = tasks_file("/p/tasks.toml", vec![("task1", "echo", vec!["*.rs"], true)]);
    let err = f.task("task2").err().unwrap();
    assert!(matches!(err, TaskConfigError::MissingTask { .. }));
    let msg = err.message();
    assert!(msg.contains("task 'task2' not found"), "{msg}");
    assert_eq!(msg, "error- failed to resolve task: task 'task2' not found in /p/tasks.toml");
}

#[test]
fn missing_required_fields_are_reported_in_order() {
    let err = validate_task("/p/tasks.toml", "t", raw(None, None, None)).err().unwrap();
    assert!(err.message().contains("missing field 'cmd'"));
    assert_eq!(
        err.message(),
        "error- malformed tasks.toml at /p/tasks.toml (task 't'): missing field 'cmd'"
    );
    let err = validate_task("p", "t", raw(Some("c"), None, None)).err().unwrap();
    assert!(err.message().ends_with("missing field 'watch'"));
    let err = validate_task("p", "t", raw(Some("c"), Some(vec!["*.rs", " \t"]), Some(true))).err().unwrap();
    assert!(err.message().ends_with("watch globs must be non-empty strings"));
    let err = validate_task("p", "t", raw(Some("c"), Some(vec!["*.rs"]), None)).err().unwrap();
    assert!(err.message().ends_with("missing field 'persistent'"));
    let ok = validate_task("p", "t", raw(Some("c"), Some(vec![]), Some(false))).ok().unwrap();
    assert_eq!(ok, Task { cmd: "c".to_string(), watch: vec![], persistent: false, deps: vec![] });
}

#[test]
fn build_tasks_file_stops_at_first_bad_task() {
    let raw_file = RawTasksFile {
        tasks: vec![
            ("a".to_string(), raw(Some("x"), Some(vec!["*"]), Some(true))),
            ("b".to_string(), raw(Some("y"), None, Some(true))),
            ("c".to_string(), raw(None, None, None)),
        ],
    };
    let err = build_tasks_file("f".to_string(), raw_file, "", None).err().unwrap();
    assert_eq!(err.message(), "error- malformed tasks.toml at f (task 'b'): missing field 'watch'");
}

#[test]
fn missing_file_message() {
    let err = TaskConfigError::MissingFile { path: "/x/tasks.toml".to_string() };
    assert_eq!(err.message(), "error- failed to resolve task: tasks.toml not found at /x/tasks.toml");
}

#[test]
fn database_reloads_and_versions() {
    let mut db = TaskDb::new("/w".to_string());
    db.add_root("/r".to_string());
    db.add_root("/r".to_string());
    assert_eq!(db.roots(), vec!["/r".to_string()]);
    assert_eq!(db.snapshot("/r").unwrap().version, 0);
    assert!(db.snapshot("/other").is_none());

    let f = tasks_file("/r/tasks.toml", vec![("a", "echo a", vec!["*.txt"], false)]);
    let (res, ev) = db.reload_root("/r", Ok(f));
    assert!(res.is_ok());
    match ev {
        ReloadEvent::Reloaded { root, version, changes } => {
            assert_eq!(root, "/r");
            assert_eq!(version, 1);
            assert_eq!(changes.changed, vec!["a".to_string()]);
            assert!(changes.removed.is_empty());
        }
        _ => panic!("expected a reload"),
    }
    let snap = db.snapshot("/r").unwrap();
    assert_eq!(snap.version, 1);
    assert_eq!(snap.tasks.len(), 1);
    assert!(snap.tasks[0].1.valid);
    assert!(snap.tasks[0].1.deps.is_empty());

    let f = tasks_file("/r/tasks.toml", vec![("a", "echo a", vec!["*.txt"], false)]);
    let (_, ev) = db.reload_root("/r", Ok(f));
    match ev {
        ReloadEvent::Reloaded { version, changes, .. } => {
            assert_eq!(version, 2);
            assert!(changes.changed.is_empty());
            assert!(changes.removed.is_empty());
        }
        _ => panic!("expected a reload"),
    }

    let f = tasks_file("/r/tasks.toml", vec![("b", "echo b", vec!["*.txt"], false)]);
    let (_, ev) = db.reload_root("/r", Ok(f));
    match ev {
        ReloadEvent::Reloaded { version, changes, .. } => {
            assert_eq!(version, 3);
            assert_eq!(changes.changed, vec!["b".to_string()]);
            assert_eq!(changes.removed, vec!["a".to_string()]);
        }
        _ => panic!("expected a reload"),
    }

    let (res, ev) = db.reload_root(
        "/r",
        Err(TaskConfigError::MissingFile { path: "/r/tasks.toml".to_string() }),
    );
    assert!(res.is_err());
    match ev {
        ReloadEvent::ReloadFailed { root, message } => {
            assert_eq!(root, "/r");
            assert_eq!(message, "error- failed to resolve task: tasks.toml not found at /r/tasks.toml");
        }
        _ => panic!("expected a failure"),
    }
    let snap = db.snapshot("/r").unwrap();
    assert_eq!(snap.version, 3);
    assert_eq!(snap.tasks[0].0, "b");
}

#[test]
fn diff_of_same_table_is_empty() {
    let entry = TaskEntry {
        task: Task { cmd: "x".to_string(), watch: vec![], persistent: false, deps: vec![] },
        hash: 7,
        deps: vec![],
        valid: true,
        rerun_hash: None,
        effective_hash: None,
    };
    let table = vec![("a".to_string(), entry.clone())];
    let changes = diff_tasks(&table, &table);
    assert!(changes.changed.is_empty() && changes.removed.is_empty());
    let mut other = entry.clone();
    other.hash = 8;
    let changes = diff_tasks(&table, &vec![("a".to_string(), other)]);
    assert_eq!(changes.changed, vec!["a".to_string()]);
}

#[test]
fn topo_sort_puts_dependencies_first() {
    let tasks = vec![
        (key("/r", "a"), runtime(vec![(key("/r", "b"), OnReload::Rerun)], false, 1)),
        (key("/r", "b"), runtime(vec![], false, 1)),
    ];
    assert_eq!(keys(&topo_sort(&tasks)), keys(&[key("/r", "b"), key("/r", "a")]));
}

#[test]
fn topo_sort_keeps_table_order_on_cycles() {
    let tasks = vec![
        (key("/r", "a"), runtime(vec![(key("/r", "b"), OnReload::Rerun)], false, 1)),
        (key("/r", "b"), runtime(vec![(key("/r", "a"), OnReload::Rerun)], false, 1)),
    ];
    assert_eq!(keys(&topo_sort(&tasks)), keys(&[key("/r", "a"), key("/r", "b")]));
}

fn edge(to: TaskKey, on_reload: OnReload, up: bool, down: bool) -> DepEdge {
    DepEdge { to, on_reload, upstream_persistent: up, downstream_persistent: down }
}

#[test]
fn closure_follows_dependencies_and_rerunning_edges() {
    let tasks = vec![
        (key("/r", "a"), runtime(vec![(key("/r", "b"), OnReload::Rerun)], false, 1)),
        (key("/r", "b"), runtime(vec![], false, 1)),
    ];
    let deps = vec![(key("/r", "b"), vec![edge(key("/r", "a"), OnReload::Rerun, false, false)])];
    let mut run_set = Vec::new();
    let mut direct = Vec::new();
    collect_closure(&key("/r", "b"), &tasks, &deps, &mut run_set, &mut direct);
    let mut got = keys(&run_set);
    got.sort();
    assert_eq!(got, keys(&[key("/r", "a"), key("/r", "b")]));
    assert_eq!(keys(&direct), keys(&[key("/r", "b")]));

    let ignoring = vec![(key("/r", "b"), vec![edge(key("/r", "a"), OnReload::Ignore, false, false)])];
    let mut run_set = Vec::new();
    let mut direct = Vec::new();
    collect_closure(&key("/r", "b"), &tasks, &ignoring, &mut run_set, &mut direct);
    assert_eq!(keys(&run_set), keys(&[key("/r", "b")]));

    let persistent = vec![(key("/r", "b"), vec![edge(key("/r", "a"), OnReload::Rerun, true, true)])];
    let mut run_set = Vec::new();
    let mut direct = Vec::new();
    collect_closure(&key("/r", "b"), &tasks, &persistent, &mut run_set, &mut direct);
    assert_eq!(keys(&run_set), keys(&[key("/r", "b")]));
}

#[test]
fn plan_runs_skips_unchanged_upstream_reruns() {
    let tasks = vec![
        (key("/r", "a"), runtime(vec![(key("/r", "b"), OnReload::Rerun)], false, 5)),
        (key("/r", "b"), runtime(vec![], false, 1)),
    ];
    let order = vec![key("/r", "b"), key("/r", "a")];
    let run_set = vec![key("/r", "a"), key("/r", "b")];
    let direct = vec![key("/r", "b")];
    let plan = plan_runs(&order, &run_set, &direct, &tasks, &vec![], &vec![]);
    let started: Vec<(String, String)> = plan
        .iter()
        .map(|a| match a {
            RunAction::Start(k) => (k.root.clone(), k.name.clone()),
            RunAction::SkipInvalid(_) => panic!("nothing is invalid"),
        })
        .collect();
    assert_eq!(started, keys(&order));
    let last = vec![(key("/r", "a"), 5u64)];
    let plan = plan_runs(&order, &run_set, &direct, &tasks, &vec![], &last);
    assert_eq!(plan.len(), 1);
    assert!(matches!(&plan[0], RunAction::Start(k) if k.name == "b"));

    let mut invalid = tasks;
    invalid[0].1.valid = false;
    let plan = plan_runs(&order, &run_set, &direct, &invalid, &vec![], &last);
    assert_eq!(plan.len(), 2);
    assert!(matches!(&plan[1], RunAction::SkipInvalid(k) if k.name == "a"));
}

#[test]
fn invalid_globs_are_rejected() {
    assert!(build_globset(&vec!["[".to_string()]).is_err());
    assert!(build_globset(&vec!["*.txt".to_string(), "src/**".to_string()]).is_ok());
    assert!(build_globset(&vec!["*.txt".to_string(), "{a".to_string()]).is_err());
}

fn db_with(root: &str, items: Vec<(&str, &str, Vec<&str>, bool)>) -> TaskDb {
    let mut db = TaskDb::new("/w".to_string());
    db.add_root(root.to_string());
    let f = tasks_file(&format!("{root}/tasks.toml"), items);
    let _ = db.reload_root(root, Ok(f));
    db
}

#[test]
fn tables_leave_out_tasks_with_bad_globs() {
    let db = db_with("/r", vec![("good", "echo", vec!["*.txt"], false), ("bad", "echo", vec!["["], false)]);
    let t = build_tables(&db);
    assert_eq!(keys(&t.tasks.iter().map(|e| e.0.clone()).collect::<Vec<_>>()), keys(&[key("/r", "good")]));
    assert_eq!(t.invalid.len(), 1);
    assert_eq!(t.invalid[0].0.name, "bad");
    assert_eq!(t.root_versions, vec![("/r".to_string(), 1)]);
}

#[test]
fn scheduler_rebuild_starts_persistent_tasks() {
    let db = db_with("/r", vec![("svc", "serve", vec!["*.txt"], true), ("job", "build", vec!["*.rs"], false)]);
    let mut st = SchedulerState::new(
        vec![TaskSelection { dir: "/r".to_string(), name: "svc".to_string() }],
        "/r".to_string(),
    );
    let out = st.rebuild(&db);
    assert_eq!(keys(&out.to_start), keys(&[key("/r", "svc")]));
    assert!(out.to_stop.is_empty());
    assert!(out.invalid.is_empty());
    let svc = key("/r", "svc");
    assert_eq!(st.start_action(&svc), StartAction::Spawn);
    assert_eq!(st.command_of(&svc), Some("serve".to_string()));
    st.record_started(&svc);
    assert_eq!(st.start_action(&svc), StartAction::KeepRunning);
    assert_eq!(st.start_action(&key("/r", "missing")), StartAction::Nothing);
    let restart = st.take_exited(&vec![svc.clone()]);
    assert_eq!(keys(&restart), keys(&[svc.clone()]));
    assert_eq!(st.start_action(&svc), StartAction::Spawn);
    let job = key("/r", "job");
    st.record_started(&job);
    assert_eq!(st.start_action(&job), StartAction::StopThenSpawn);
    st.record_stopped(&job);
    assert_eq!(st.start_action(&job), StartAction::Spawn);
}

#[test]
fn scheduler_stops_runs_of_removed_tasks() {
    let mut db = db_with("/r", vec![("a", "x", vec!["*.txt"], false)]);
    let mut st = SchedulerState::new(vec![], "/r".to_string());
    st.rebuild(&db);
    st.record_started(&key("/r", "a"));
    let f = tasks_file("/r/tasks.toml", vec![("b", "y", vec!["*.txt"], false)]);
    let _ = db.reload_root("/r", Ok(f));
    let out = st.rebuild(&db);
    assert_eq!(keys(&out.to_stop), keys(&[key("/r", "a")]));
    assert_eq!(st.start_action(&key("/r", "a")), StartAction::Nothing);
}

#[test]
fn reload_decisions() {
    let db = db_with("/r", vec![("a", "x", vec!["*.txt"], false)]);
    let mut st = SchedulerState::new(
        vec![TaskSelection { dir: "/r".to_string(), name: "a".to_string() }],
        "/r".to_string(),
    );
    assert!(st.root_tracked("/r"));
    assert!(!st.root_tracked("/s"));
    let failed = ReloadEvent::ReloadFailed { root: "/r".to_string(), message: "boom".to_string() };
    assert!(matches!(st.reload_action(&failed), ReloadAction::Report(m) if m == "boom"));
    let other = ReloadEvent::ReloadFailed { root: "/s".to_string(), message: "boom".to_string() };
    assert!(matches!(st.reload_action(&other), ReloadAction::Ignore));
    let snap = db.snapshot("/r").unwrap();
    let reloaded = ReloadEvent::Reloaded {
        root: "/r".to_string(),
        version: snap.version,
        changes: diff_tasks(&vec![], &snap.tasks),
    };
    assert!(matches!(st.reload_action(&reloaded), ReloadAction::Rebuild));
    st.rebuild(&db);
    assert!(matches!(st.reload_action(&reloaded), ReloadAction::Ignore));
}

#[test]
fn fs_event_runs_matching_tasks() {
    let db = db_with("/w", vec![("txt", "a", vec!["*.txt"], false), ("rs", "b", vec!["src/*.rs"], false)]);
    let mut st = SchedulerState::new(vec![], "/w".to_string());
    st.rebuild(&db);
    let plan = st.plan_fs_event(&vec!["notes.txt".to_string()]);
    assert_eq!(keys(&plan.direct), keys(&[key("/w", "txt")]));
    assert_eq!(plan.actions.len(), 1);
    assert!(matches!(&plan.actions[0], RunAction::Start(k) if k.name == "txt"));
    let plan = st.plan_fs_event(&vec!["src/main.rs".to_string(), "x.md".to_string()]);
    assert_eq!(keys(&plan.direct), keys(&[key("/w", "rs")]));
    let plan = st.plan_fs_event(&vec!["x.md".to_string()]);
    assert!(plan.direct.is_empty() && plan.run_set.is_empty() && plan.actions.is_empty());
}

#[test]
fn fs_payload_paths() {
    let p = extract_fs_paths(r#"{"type":"fs-event","timestamp":1,"kind":"Modify","paths":["a.txt",3,"b/c.rs"]}"#);
    assert_eq!(p, Some(vec!["a.txt".to_string(), "b/c.rs".to_string()]));
    assert_eq!(extract_fs_paths(r#"{"type":"fs-error","message":"x"}"#), None);
    assert_eq!(extract_fs_paths(r#"{"type":"fs-event"}"#), None);
    assert_eq!(extract_fs_paths(r#"{"type":"fs-event","paths":"a"}"#), None);
    assert_eq!(extract_fs_paths("not json"), None);
    assert_eq!(extract_fs_paths(r#"[1,2]"#), None);
}

#[test]
fn tables_hold_dependent_edges_with_persistence() {
    let db = db_with("/r", vec![("up", "u", vec!["*.txt"], true), ("down", "d", vec!["*.rs"], false)]);
    let t = build_tables(&db);
    assert!(t.dependents.is_empty());
    assert_eq!(t.tasks.len(), 2);
    assert!(t.tasks[0].1.persistent);
    assert_eq!(t.tasks[0].1.rerun_hash, t.tasks[0].1.effective_hash);
}

#[test]
fn task_file_hash_follows_content() {
    let mk = |content: &str| {
        let raw_file = RawTasksFile { tasks: vec![] };
        build_tasks_file("f".to_string(), raw_file, content, None).unwrap().metadata.content_hash
    };
    assert_eq!(mk("a = 1"), mk("a = 1"));
    assert_ne!(mk("a = 1"), mk("a = 2"));
}

fn db_with_deps(root: &str, items: Vec<(&str, bool, Vec<&str>)>) -> TaskDb {
    let raw_file = RawTasksFile {
        tasks: items
            .into_iter()
            .map(|(n, p, d)| {
                let mut r = raw(Some(&format!("echo {n}")), Some(vec!["*.txt"]), Some(p));
                r.deps = Some(d.into_iter().map(|x| x.to_string()).collect());
                (n.to_string(), r)
            })
            .collect(),
    };
    let f = build_tasks_file(format!("{root}/tasks.toml"), raw_file, "content", None).unwrap();
    let mut db = TaskDb::new("/w".to_string());
    db.add_root(root.to_string());
    let _ = db.reload_root(root, Ok(f));
    db
}

fn start_names(actions: &[RunAction]) -> Vec<String> {
    actions
        .iter()
        .map(|a| match a {
            RunAction::Start(k) => format!("start {}", k.name),
            RunAction::SkipInvalid(k) => format!("skip {}", k.name),
        })
        .collect()
}

#[test]
fn dependency_specs_resolve() {
    let d = parse_dep(":up", "/r", "/w").unwrap();
    assert_eq!((d.target.root.as_str(), d.target.name.as_str()), ("/r", "up"));
    assert_eq!(d.on_reload, OnReload::Rerun);
    let d = parse_dep("//:up?on_reload=none", "/r", "/w").unwrap();
    assert_eq!((d.target.root.as_str(), d.target.name.as_str()), ("/w", "up"));
    assert_eq!(d.on_reload, OnReload::Ignore);
    let d = parse_dep("//lib:x?on_reload=rerun", "/r", "/w").unwrap();
    assert_eq!((d.target.root.as_str(), d.target.name.as_str()), ("/w/lib", "x"));
    assert_eq!(d.on_reload, OnReload::Rerun);
    let d = parse_dep("sub:x", "/r", "/w").unwrap();
    assert_eq!((d.target.root.as_str(), d.target.name.as_str()), ("/r/sub", "x"));
    assert!(parse_dep("up", "/r", "/w").is_none());
    assert!(parse_dep(":", "/r", "/w").is_none());
    assert!(parse_dep(":x?on_reload=sometimes", "/r", "/w").is_none());
    let (deps, ok) = resolve_deps_of(&vec![":a".to_string(), "bad".to_string(), ":b".to_string()], "/r", "/w");
    assert!(!ok);
    assert_eq!(deps.iter().map(|d| d.target.name.clone()).collect::<Vec<_>>(), vec!["a", "b"]);
}

#[test]
fn database_resolves_dependencies() {
    let db = db_with_deps("/r", vec![("root", false, vec![":child"]), ("child", false, vec![]), ("odd", false, vec!["nope"])]);
    let snap = db.snapshot("/r").unwrap();
    let root = &snap.tasks.iter().find(|e| e.0 == "root").unwrap().1;
    assert!(root.valid);
    assert_eq!(root.deps.len(), 1);
    assert_eq!(root.deps[0].target, key("/r", "child"));
    let odd = &snap.tasks.iter().find(|e| e.0 == "odd").unwrap().1;
    assert!(!odd.valid);
}

#[test]
fn invalid_nonpersistent_to_persistent_edge_is_rejected() {
    let db = db_with_deps(
        "/r",
        vec![("up", true, vec![]), ("down", false, vec![":up"]), ("lost", false, vec![":ghost"]), ("svc", true, vec![":up"])],
    );
    let t = build_tables(&db);
    let valid = |name: &str| t.tasks.iter().find(|e| e.0.name == name).unwrap().1.valid;
    assert!(valid("up"));
    assert!(!valid("down"));
    assert!(!valid("lost"));
    assert!(valid("svc"));
}

#[test]
fn initial_run_executes_tasks_once() {
    let db = db_with_deps("/r", vec![("root", false, vec![":child"]), ("child", false, vec![])]);
    let mut st = SchedulerState::new(
        vec![TaskSelection { dir: "/r".to_string(), name: "root".to_string() }],
        "/r".to_string(),
    );
    let out = st.rebuild(&db);
    assert!(out.to_start.is_empty());
    let plan = st.plan_startup();
    assert_eq!(keys(&plan.direct), keys(&[key("/r", "root")]));
    assert_eq!(start_names(&plan.actions), vec!["start child", "start root"]);
}

#[test]
fn dependent_skips_when_upstream_fails() {
    let db = db_with_deps("/r", vec![("dep", false, vec![]), ("root", false, vec![":dep"])]);
    let mut st = SchedulerState::new(vec![], "/r".to_string());
    st.rebuild(&db);
    let plan = st.plan_fs_event(&vec!["trigger.txt".to_string()]);
    assert_eq!(start_names(&plan.actions), vec!["start dep", "start root"]);
    assert!(st.upstream_failed(&key("/r", "root"), &vec![key("/r", "dep")]));
    assert!(!st.upstream_failed(&key("/r", "root"), &vec![]));
    assert!(!st.upstream_failed(&key("/r", "dep"), &vec![key("/r", "dep")]));
    assert!(!st.upstream_failed(&key("/r", "missing"), &vec![key("/r", "dep")]));

    let dep = RunAction::Start(key("/r", "dep"));
    let root = RunAction::Start(key("/r", "root"));
    let (d, failed) = st.run_step(&vec![], &dep, None);
    assert_eq!(d, RunDecision::StartAndWait);
    assert!(failed.is_empty());
    let (d, failed) = st.run_step(&failed, &dep, Some(false));
    assert_eq!(d, RunDecision::Done);
    assert_eq!(keys(&failed), keys(&[key("/r", "dep")]));
    let (d, failed) = st.run_step(&failed, &root, None);
    assert_eq!(d, RunDecision::SkipUpstreamFailed);
    assert_eq!(keys(&failed), keys(&[key("/r", "dep"), key("/r", "root")]));
    let (_, ok_list) = st.run_step(&vec![], &dep, Some(true));
    assert!(ok_list.is_empty());
    let (d, after_ok) = st.run_step(&ok_list, &root, None);
    assert_eq!(d, RunDecision::StartAndWait);
    assert!(after_ok.is_empty());
    let (d, invalid) = st.run_step(&vec![], &RunAction::SkipInvalid(key("/r", "dep")), None);
    assert_eq!(d, RunDecision::Report);
    assert_eq!(keys(&invalid), keys(&[key("/r", "dep")]));
}

#[test]
fn invalid_reload_keeps_old_state_but_skips_new_runs() {
    let db = db_with("/r", vec![("leaf", "l", vec!["leaf.txt"], false)]);
    let mut st = SchedulerState::new(
        vec![TaskSelection { dir: "/r".to_string(), name: "leaf".to_string() }],
        "/r".to_string(),
    );
    st.rebuild(&db);
    let change = vec!["leaf.txt".to_string()];
    assert_eq!(start_names(&st.plan_fs_event(&change).actions), vec!["start leaf"]);
    let failed = ReloadEvent::ReloadFailed { root: "/r".to_string(), message: "bad".to_string() };
    st.note_reload(&failed);
    assert!(st.root_failed("/r"));
    assert_eq!(start_names(&st.plan_fs_event(&change).actions), vec!["skip leaf"]);
    let elsewhere = ReloadEvent::ReloadFailed { root: "/s".to_string(), message: "bad".to_string() };
    st.note_reload(&elsewhere);
    assert!(!st.root_failed("/s"));
    let snap = db.snapshot("/r").unwrap();
    let reloaded = ReloadEvent::Reloaded {
        root: "/r".to_string(),
        version: snap.version + 1,
        changes: diff_tasks(&vec![], &snap.tasks),
    };
    st.note_reload(&reloaded);
    assert!(!st.root_failed("/r"));
    assert_eq!(start_names(&st.plan_fs_event(&change).actions), vec!["start leaf"]);
}

#[test]
fn persistent_starts_without_fs_events() {
    let db = db_with("/r", vec![("persist", "p", vec!["persist.txt"], true), ("leaf", "l", vec!["leaf.txt"], false)]);
    let mut st = SchedulerState::new(
        vec![TaskSelection { dir: "/r".to_string(), name: "leaf".to_string() }],
        "/r".to_string(),
    );
    let out = st.rebuild(&db);
    assert_eq!(keys(&out.to_start), keys(&[key("/r", "persist")]));
    assert!(st.persistent_task(&key("/r", "persist")));
    let (d, _) = st.run_step(&vec![], &RunAction::Start(key("/r", "persist")), None);
    assert_eq!(d, RunDecision::Start);
    assert!(!st.persistent_task(&key("/r", "leaf")));
}

#[test]
fn cycle_detection_marks_tasks_invalid() {
    let db = db_with_deps(
        "/r",
        vec![("a", false, vec![":b"]), ("b", false, vec![":a"]), ("c", false, vec![":a"]), ("d", false, vec![])],
    );
    let t = build_tables(&db);
    let valid = |name: &str| t.tasks.iter().find(|e| e.0.name == name).unwrap().1.valid;
    assert!(!valid("a"));
    assert!(!valid("b"));
    assert!(!valid("c"));
    assert!(valid("d"));
    let mut st = SchedulerState::new(
        vec![TaskSelection { dir: "/r".to_string(), name: "a".to_string() }],
        "/r".to_string(),
    );
    st.rebuild(&db);
    let plan = st.plan_fs_event(&vec!["a.txt".to_string()]);
    assert!(plan.actions.iter().all(|a| !matches!(a, RunAction::Start(k) if k.name != "d")));
    assert!(st.plan_startup().actions.iter().all(|a| matches!(a, RunAction::SkipInvalid(_))));
}

#[test]
fn missing_selection_logs_error_and_exits() {
    let f = tasks_file("/h/tasks.toml", vec![("task1", "echo task1 >> run.log", vec!["*.txt"], false)]);
    let err = f.task("missing").err().unwrap();
    assert!(err.message().contains("task 'missing' not found"));
    assert!(f.task("task1").is_ok());
}

fn db_watching(root: &str, items: Vec<(&str, bool, Vec<&str>, Vec<&str>)>) -> TaskDb {
    let raw_file = RawTasksFile {
        tasks: items
            .into_iter()
            .map(|(n, p, w, d)| {
                let mut r = raw(Some(&format!("echo {n}")), Some(w), Some(p));
                r.deps = Some(d.into_iter().map(|x| x.to_string()).collect());
                (n.to_string(), r)
            })
            .collect(),
    };
    let f = build_tasks_file(format!("{root}/tasks.toml"), raw_file, "content", None).unwrap();
    let mut db = TaskDb::new("/w".to_string());
    db.add_root(root.to_string());
    let _ = db.reload_root(root, Ok(f));
    db
}

#[test]
fn on_reload_none_skips_downstream_on_upstream_change() {
    let db = db_watching(
        "/w",
        vec![("up", true, vec!["up.txt"], vec![]), ("down", false, vec!["down.txt"], vec!["//:up?on_reload=none"])],
    );
    let mut st = SchedulerState::new(
        vec![TaskSelection { dir: "/w".to_string(), name: "down".to_string() }],
        "/w".to_string(),
    );
    st.rebuild(&db);
    let plan = st.plan_fs_event(&vec!["down.txt".to_string()]);
    assert_eq!(start_names(&plan.actions), vec!["start up", "start down"]);
    let plan = st.plan_fs_event(&vec!["up.txt".to_string()]);
    assert_eq!(start_names(&plan.actions), vec!["start up"]);
}

#[test]
fn deps_run_before_dependents() {
    let db = db_watching(
        "/r",
        vec![("root", false, vec!["root.txt"], vec![":dep"]), ("dep", false, vec!["dep.txt"], vec![])],
    );
    let mut st = SchedulerState::new(vec![], "/r".to_string());
    st.rebuild(&db);
    let plan = st.plan_fs_event(&vec!["root.txt".to_string()]);
    assert_eq!(start_names(&plan.actions), vec!["start dep", "start root"]);
}

#[test]
fn cascaded_reruns_trigger_dependents() {
    let db = db_watching(
        "/r",
        vec![
            ("c", false, vec!["c.txt"], vec![":b"]),
            ("b", false, vec!["b.txt"], vec![":a"]),
            ("a", false, vec!["a.txt"], vec![]),
        ],
    );
    let mut st = SchedulerState::new(vec![], "/r".to_string());
    st.rebuild(&db);
    let plan = st.plan_fs_event(&vec!["a.txt".to_string()]);
    assert_eq!(start_names(&plan.actions), vec!["start a", "start b", "start c"]);
}
