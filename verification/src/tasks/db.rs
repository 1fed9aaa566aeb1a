//! Task definitions, the task file model and the database of loaded task roots.
use vstd::prelude::*;
use crate::tasks::deps::{all_deps_resolve, resolve_deps_of, resolved_deps};
use crate::text::{concat, is_blank, is_blank_spec, str_eq};
use std::hash::{Hash, Hasher};

verus! {

/// Name of the file that defines the tasks of a directory.
pub const TASKS_FILE_NAME: &'static str = "tasks.toml";

#[verifier::external_type_specification]
#[verifier::external_body]
pub struct ExSystemTime(std::time::SystemTime);

#[verifier::external_type_specification]
#[verifier::external_body]
pub struct ExIoError(std::io::Error);

#[verifier::external_type_specification]
#[verifier::external_body]
pub struct ExTomlError(toml::de::Error);

/// One task: a shell command, the globs it watches, whether it keeps running, and the
/// tasks it depends on, as written (`[//][path]:name[?on_reload=none|rerun]`).
#[derive(Clone, Debug, PartialEq, Eq)]
pub struct Task {
    pub cmd: String,
    pub watch: Vec<String>,
    pub persistent: bool,
    pub deps: Vec<String>,
}

/// Abstract value of a task: command, watch globs, persistence and dependencies.
pub struct TaskView {
    pub cmd: Seq<char>,
    pub watch: Seq<Seq<char>>,
    pub persistent: bool,
    pub deps: Seq<Seq<char>>,
}

impl View for Task {
    type V = TaskView;

    open spec fn view(&self) -> TaskView {
        TaskView {
            cmd: self.cmd@,
            watch: self.watch@.map_values(|g: String| g@),
            persistent: self.persistent,
            deps: strings_view(self.deps@),
        }
    }
}

/// The same strings, in a new list.
pub fn copy_strings(v: &Vec<String>) -> (out: Vec<String>)
    ensures
        out@.map_values(|g: String| g@) == v@.map_values(|g: String| g@),
        out@ == v@,
{
    let mut out: Vec<String> = Vec::new();
    let mut i: usize = 0;
    while i < v.len()
        invariant
            i <= v.len(),
            out@ == v@.take(i as int),
        decreases v.len() - i,
    {
        out.push(v[i].clone());
        proof {
            assert(v@.take(i + 1) =~= v@.take(i as int).push(v@[i as int]));
        }
        i = i + 1;
    }
    assert(v@.take(v.len() as int) =~= v@);
    out
}

impl Task {
    /// The same task, as a new value.
    pub fn duplicate(&self) -> (t: Task)
        ensures
            t@ == self@,
            t.cmd == self.cmd,
            t.watch@ == self.watch@,
            t.persistent == self.persistent,
    {
        Task {
            cmd: self.cmd.clone(),
            watch: copy_strings(&self.watch),
            persistent: self.persistent,
            deps: copy_strings(&self.deps),
        }
    }
}

/// A task chosen on the command line: the directory holding its task file, and its name.
#[derive(Clone, Debug, PartialEq, Eq, Hash)]
pub struct TaskSelection {
    pub dir: String,
    pub name: String,
}

/// Where a task file was read from, when it was last modified, and a hash of its text.
#[derive(Clone, Debug)]
pub struct TasksMetadata {
    pub path: String,
    pub modified: Option<std::time::SystemTime>,
    pub content_hash: u64,
}

impl TasksMetadata {
    /// The same metadata, as a new value.
    pub fn duplicate(&self) -> (m: TasksMetadata)
        ensures
            m == *self,
    {
        TasksMetadata {
            path: self.path.clone(),
            modified: self.modified,
            content_hash: self.content_hash,
        }
    }
}

/// The tasks of one task file, each under its own name, with the file's metadata.
#[derive(Clone, Debug)]
pub struct TasksFile {
    pub tasks: Vec<(String, Task)>,
    pub metadata: TasksMetadata,
}

/// The names of a list of named items.
pub open spec fn names_of<T>(items: Seq<(String, T)>) -> Seq<Seq<char>> {
    items.map_values(|e: (String, T)| e.0@)
}

/// Every name occurs at most once.
pub open spec fn unique_names<T>(items: Seq<(String, T)>) -> bool {
    forall|a: int, b: int|
        0 <= a < items.len() && 0 <= b < items.len() && a != b ==> items[a].0@ != items[b].0@
}

/// Position of the first item named `name`, or -1 when none is.
pub open spec fn position_of<T>(items: Seq<(String, T)>, name: Seq<char>) -> int
    decreases items.len(),
{
    if items.len() == 0 {
        -1
    } else if position_of(items.drop_last(), name) >= 0 {
        position_of(items.drop_last(), name)
    } else if items.last().0@ == name {
        items.len() - 1
    } else {
        -1
    }
}

/// Facts about [`position_of`]: it is -1 exactly when no item has the name, and
/// otherwise it is the first position holding the name.
pub proof fn lemma_position_of_props<T>(items: Seq<(String, T)>, name: Seq<char>)
    ensures
        -1 <= position_of(items, name) < items.len(),
        position_of(items, name) == -1 <==> (forall|k: int|
            0 <= k < items.len() ==> #[trigger] items[k].0@ != name),
        position_of(items, name) >= 0 ==> items[position_of(items, name)].0@ == name,
        position_of(items, name) >= 0 ==> (forall|k: int|
            0 <= k < position_of(items, name) ==> #[trigger] items[k].0@ != name),
    decreases items.len(),
{
    if items.len() > 0 {
        let front = items.drop_last();
        lemma_position_of_props(front, name);
        assert forall|k: int| 0 <= k < front.len() implies #[trigger] front[k].0@ == items[k].0@ by {
        }
        if position_of(front, name) == -1 {
            assert forall|k: int| 0 <= k < front.len() implies #[trigger] items[k].0@ != name by {
                assert(front[k].0@ != name);
            }
            if items.last().0@ != name {
                assert forall|k: int| 0 <= k < items.len() implies #[trigger] items[k].0@ != name by {
                    if k < front.len() {
                        assert(front[k].0@ != name);
                    }
                }
            }
        } else {
            let p = position_of(front, name);
            assert(position_of(items, name) == p);
            assert forall|k: int| 0 <= k < p implies #[trigger] items[k].0@ != name by {
                assert(front[k].0@ != name);
            }
            assert(items[p].0@ == front[p].0@);
        }
    }
}

/// Lists with the same names at the same positions give the same position for every name.
pub proof fn lemma_position_of_same_names<T, U>(a: Seq<(String, T)>, b: Seq<(String, U)>, name: Seq<char>)
    requires
        a.len() == b.len(),
        forall|k: int| 0 <= k < a.len() ==> (#[trigger] a[k]).0@ == b[k].0@,
    ensures
        position_of(a, name) == position_of(b, name),
    decreases a.len(),
{
    if a.len() > 0 {
        lemma_position_of_same_names(a.drop_last(), b.drop_last(), name);
        assert(a.last().0@ == b.last().0@);
    }
}

/// Finds the first item named `name`.
pub fn find_named<T>(items: &Vec<(String, T)>, name: &str) -> (pos: Option<usize>)
    ensures
        match pos {
            Some(p) => p == position_of(items@, name@),
            None => position_of(items@, name@) == -1,
        },
{
    proof {
        lemma_position_of_props(items@, name@);
    }
    let mut i: usize = 0;
    while i < items.len()
        invariant
            i <= items.len(),
            forall|k: int| 0 <= k < i ==> #[trigger] items@[k].0@ != name@,
        decreases items.len() - i,
    {
        if str_eq(items[i].0.as_str(), name) {
            proof {
                lemma_position_of_props(items@, name@);
                if position_of(items@, name@) < i {
                    let q = position_of(items@, name@);
                    assert(items@[q].0@ != name@);
                }
            }
            return Some(i);
        }
        i = i + 1;
    }
    None
}

/// Errors met while resolving tasks from a task file.
#[derive(Debug)]
pub enum TaskConfigError {
    MissingFile { path: String },
    ReadFailed { path: String, source: std::io::Error },
    ParseFailed { path: String, source: toml::de::Error },
    MissingTask { name: String, path: String },
    InvalidTask { name: String, path: String, reason: String },
}

/// The message of an error, given the text of its underlying cause (used by the read and
/// parse failures only).
pub open spec fn error_message(e: TaskConfigError, cause: Seq<char>) -> Seq<char> {
    match e {
        TaskConfigError::MissingFile { path } => "error- failed to resolve task: tasks.toml not found at "@
            + path@,
        TaskConfigError::ReadFailed { path, .. } => "error- failed to resolve task: could not read "@
            + path@ + " ("@ + cause + ")"@,
        TaskConfigError::ParseFailed { path, .. } => "error- malformed tasks.toml at "@ + path@
            + ": "@ + cause,
        TaskConfigError::MissingTask { name, path } => "error- failed to resolve task: task '"@
            + name@ + "' not found in "@ + path@,
        TaskConfigError::InvalidTask { name, path, reason } => "error- malformed tasks.toml at "@
            + path@ + " (task '"@ + name@ + "'): "@ + reason@,
    }
}

/// Whether the error carries an underlying cause whose text enters its message.
pub open spec fn has_cause(e: TaskConfigError) -> bool {
    e is ReadFailed || e is ParseFailed
}

impl TaskConfigError {
    /// The user-facing message of this error.
    pub fn message(&self) -> (m: String)
        ensures
            !has_cause(*self) ==> m@ == error_message(*self, Seq::empty()),
            has_cause(*self) ==> exists|cause: String|
                m@ == error_message(*self, cause@) && match *self {
                    TaskConfigError::ReadFailed { source, .. } => vstd::string::to_string_from_display_ensures(
                        &source,
                        cause,
                    ),
                    TaskConfigError::ParseFailed { source, .. } => vstd::string::to_string_from_display_ensures(
                        &source,
                        cause,
                    ),
                    _ => true,
                },
    {
        match self {
            TaskConfigError::MissingFile { path } => {
                concat("error- failed to resolve task: tasks.toml not found at ", path.as_str())
            },
            TaskConfigError::ReadFailed { path, source } => {
                let cause = source.to_string();
                let mut m = concat("error- failed to resolve task: could not read ", path.as_str());
                m.append(" (");
                m.append(cause.as_str());
                m.append(")");
                m
            },
            TaskConfigError::ParseFailed { path, source } => {
                let cause = source.to_string();
                let mut m = concat("error- malformed tasks.toml at ", path.as_str());
                m.append(": ");
                m.append(cause.as_str());
                m
            },
            TaskConfigError::MissingTask { name, path } => {
                let mut m = concat("error- failed to resolve task: task '", name.as_str());
                m.append("' not found in ");
                m.append(path.as_str());
                m
            },
            TaskConfigError::InvalidTask { name, path, reason } => {
                let mut m = concat("error- malformed tasks.toml at ", path.as_str());
                m.append(" (task '");
                m.append(name.as_str());
                m.append("'): ");
                m.append(reason.as_str());
                m
            },
        }
    }
}

impl TasksFile {
    /// The tasks of the file have distinct names.
    pub open spec fn wf(&self) -> bool {
        unique_names(self.tasks@)
    }

    /// Looks a task up by name.
    pub fn task(&self, name: &str) -> (r: Result<&Task, TaskConfigError>)
        ensures
            match r {
                Ok(t) => {
                    &&& position_of(self.tasks@, name@) >= 0
                    &&& *t == self.tasks@[position_of(self.tasks@, name@)].1
                },
                Err(e) => {
                    &&& position_of(self.tasks@, name@) == -1
                    &&& e is MissingTask
                    &&& e->MissingTask_name@ == name@
                    &&& e->MissingTask_path@ == self.metadata.path@
                },
            },
    {
        proof {
            lemma_position_of_props(self.tasks@, name@);
        }
        match find_named(&self.tasks, name) {
            Some(p) => Ok(&self.tasks[p].1),
            None => Err(
                TaskConfigError::MissingTask {
                    name: String::from_str(name),
                    path: self.metadata.path.clone(),
                },
            ),
        }
    }
}

/// A task as written in a task file, before its required fields are checked.
#[derive(Clone, Debug)]
pub struct RawTask {
    pub cmd: Option<String>,
    pub watch: Option<Vec<String>>,
    pub persistent: Option<bool>,
    pub deps: Option<Vec<String>>,
}

/// The dependencies written for a raw task: none when the field is absent.
pub open spec fn raw_deps(raw: RawTask) -> Seq<String> {
    match raw.deps {
        Some(d) => d@,
        None => Seq::empty(),
    }
}

/// The tasks of a task file as written, each under its table name.
#[derive(Clone, Debug)]
pub struct RawTasksFile {
    pub tasks: Vec<(String, RawTask)>,
}

/// The reason a raw task is rejected, if it is: the first missing field among `cmd` and
/// `watch`, then a blank watch glob, then a missing `persistent`.
pub open spec fn rejection(raw: RawTask) -> Option<Seq<char>> {
    if raw.cmd is None {
        Some("missing field 'cmd'"@)
    } else if raw.watch is None {
        Some("missing field 'watch'"@)
    } else if exists|g: int|
        0 <= g < raw.watch->0@.len() && is_blank_spec(#[trigger] raw.watch->0@[g]@) {
        Some("watch globs must be non-empty strings"@)
    } else if raw.persistent is None {
        Some("missing field 'persistent'"@)
    } else {
        None
    }
}

/// Checks that a raw task has all required fields and only non-blank watch globs.
pub fn validate_task(path: &str, name: &str, raw: RawTask) -> (r: Result<Task, TaskConfigError>)
    ensures
        match r {
            Ok(t) => {
                &&& rejection(raw) is None
                &&& t.cmd == raw.cmd->0
                &&& t.watch == raw.watch->0
                &&& t.persistent == raw.persistent->0
                &&& t.deps@ == raw_deps(raw)
            },
            Err(e) => {
                &&& rejection(raw) is Some
                &&& e is InvalidTask
                &&& e->InvalidTask_name@ == name@
                &&& e->InvalidTask_path@ == path@
                &&& e->InvalidTask_reason@ == rejection(raw)->0
            },
        },
{
    let cmd = match raw.cmd {
        Some(c) => c,
        None => {
            return Err(
                TaskConfigError::InvalidTask {
                    name: String::from_str(name),
                    path: String::from_str(path),
                    reason: String::from_str("missing field 'cmd'"),
                },
            );
        },
    };
    let watch = match raw.watch {
        Some(w) => w,
        None => {
            return Err(
                TaskConfigError::InvalidTask {
                    name: String::from_str(name),
                    path: String::from_str(path),
                    reason: String::from_str("missing field 'watch'"),
                },
            );
        },
    };
    let mut g: usize = 0;
    while g < watch.len()
        invariant
            g <= watch.len(),
            raw.cmd is Some,
            raw.watch == Some(watch),
            forall|k: int| 0 <= k < g ==> !is_blank_spec(#[trigger] watch@[k]@),
        decreases watch.len() - g,
    {
        if is_blank(watch[g].as_str()) {
            assert(is_blank_spec(raw.watch->0@[g as int]@));
            return Err(
                TaskConfigError::InvalidTask {
                    name: String::from_str(name),
                    path: String::from_str(path),
                    reason: String::from_str("watch globs must be non-empty strings"),
                },
            );
        }
        g = g + 1;
    }
    let persistent = match raw.persistent {
        Some(p) => p,
        None => {
            return Err(
                TaskConfigError::InvalidTask {
                    name: String::from_str(name),
                    path: String::from_str(path),
                    reason: String::from_str("missing field 'persistent'"),
                },
            );
        },
    };
    let deps = match raw.deps {
        Some(d) => d,
        None => Vec::new(),
    };
    Ok(Task { cmd, watch, persistent, deps })
}

/// Hash of a task file's text, as computed by the standard library's default hasher.
pub uninterp spec fn string_hash(text: Seq<char>) -> u64;

/// Hashes a string with `std::collections::hash_map::DefaultHasher::new()`.
/// Claimed: the result is a function of the string's characters alone ([`string_hash`]);
/// the standard library documents that every hasher built by `new` starts from the same
/// keys, and hashing a `str` feeds only its bytes and a terminator.
#[verifier::external_body]
fn hash_string(value: &str) -> (h: u64)
    ensures
        h == string_hash(value@),
{
    let mut hasher = std::collections::hash_map::DefaultHasher::new();
    value.hash(&mut hasher);
    hasher.finish()
}

/// Hashes a task's command, watch globs and persistence with
/// `std::collections::hash_map::DefaultHasher::new()`.
/// Nothing is claimed of the value: hashing the glob list feeds its length as a
/// machine-sized integer, so the value differs between machines.
#[verifier::external_body]
fn hash_task(task: &Task) -> (h: u64)
{
    let mut hasher = std::collections::hash_map::DefaultHasher::new();
    task.cmd.hash(&mut hasher);
    task.watch.hash(&mut hasher);
    task.persistent.hash(&mut hasher);
    hasher.finish()
}

/// Builds the task file model from the tables read from a task file: every raw task is
/// checked, in order, and the first one rejected gives the error.
pub fn build_tasks_file(
    path: String,
    raw: RawTasksFile,
    content: &str,
    modified: Option<std::time::SystemTime>,
) -> (r: Result<TasksFile, TaskConfigError>)
    requires
        unique_names(raw.tasks@),
    ensures
        match r {
            Ok(f) => {
                &&& forall|k: int|
                    0 <= k < raw.tasks@.len() ==> #[trigger] rejection(raw.tasks@[k].1) is None
                &&& f.tasks@.len() == raw.tasks@.len()
                &&& forall|k: int|
                    0 <= k < raw.tasks@.len() ==> {
                        &&& #[trigger] f.tasks@[k].0 == raw.tasks@[k].0
                        &&& f.tasks@[k].1.cmd == raw.tasks@[k].1.cmd->0
                        &&& f.tasks@[k].1.watch == raw.tasks@[k].1.watch->0
                        &&& f.tasks@[k].1.persistent == raw.tasks@[k].1.persistent->0
                        &&& f.tasks@[k].1.deps@ == raw_deps(raw.tasks@[k].1)
                    }
                &&& f.wf()
                &&& f.metadata.path == path
                &&& f.metadata.modified == modified
                &&& f.metadata.content_hash == string_hash(content@)
            },
            Err(e) => exists|k: int|
                0 <= k < raw.tasks@.len() && {
                    &&& rejection(#[trigger] raw.tasks@[k].1) is Some
                    &&& forall|q: int| 0 <= q < k ==> rejection(#[trigger] raw.tasks@[q].1) is None
                    &&& e is InvalidTask
                    &&& e->InvalidTask_name@ == raw.tasks@[k].0@
                    &&& e->InvalidTask_path@ == path@
                    &&& e->InvalidTask_reason@ == rejection(raw.tasks@[k].1)->0
                },
        },
{
    let ghost items = raw.tasks@;
    let mut tasks: Vec<(String, Task)> = Vec::new();
    for entry in it: raw.tasks.into_iter()
        invariant
            it.seq() == items,
            unique_names(items),
            tasks@.len() == it.index(),
            forall|q: int| 0 <= q < it.index() ==> rejection(#[trigger] items[q].1) is None,
            forall|k: int|
                0 <= k < it.index() ==> {
                    &&& (#[trigger] tasks@[k]).0 == items[k].0
                    &&& tasks@[k].1.cmd == items[k].1.cmd->0
                    &&& tasks@[k].1.watch == items[k].1.watch->0
                    &&& tasks@[k].1.persistent == items[k].1.persistent->0
                    &&& tasks@[k].1.deps@ == raw_deps(items[k].1)
                },
    {
        let (name, raw_task) = entry;
        let ghost k = it.index();
        assert(entry == items[k as int]);
        match validate_task(path.as_str(), name.as_str(), raw_task) {
            Ok(task) => {
                let ghost before = tasks@;
                tasks.push((name, task));
                assert forall|q: int| 0 <= q < k implies #[trigger] tasks@[q] == before[q] by {}
            },
            Err(e) => {
                assert(rejection(items[k as int].1) is Some);
                return Err(e);
            },
        }
    }
    let content_hash = hash_string(content);
    let f = TasksFile { tasks, metadata: TasksMetadata { path, modified, content_hash } };
    assert(f.wf()) by {
        assert forall|a: int, b: int|
            0 <= a < f.tasks@.len() && 0 <= b < f.tasks@.len() && a != b implies f.tasks@[a].0@
            != f.tasks@[b].0@ by {
            assert(f.tasks@[a].0 == items[a].0);
            assert(f.tasks@[b].0 == items[b].0);
        }
    }
    Ok(f)
}

/// A task as the database stores it: its definition, the hash of the definition, its
/// resolved dependencies, whether it may run, and the hashes that decide re-runs.
#[derive(Clone, Debug)]
pub struct TaskEntry {
    pub task: Task,
    pub hash: u64,
    pub deps: Vec<ResolvedDep>,
    pub valid: bool,
    pub rerun_hash: Option<u64>,
    pub effective_hash: Option<u64>,
}

/// A task identified across task roots: the root directory and the task's name there.
#[derive(Clone, Debug, PartialEq, Eq, Hash)]
pub struct TaskKey {
    pub root: String,
    pub name: String,
}

impl View for TaskKey {
    type V = (Seq<char>, Seq<char>);

    open spec fn view(&self) -> (Seq<char>, Seq<char>) {
        (self.root@, self.name@)
    }
}

impl TaskKey {
    /// The same key, as a new value.
    pub fn duplicate(&self) -> (k: TaskKey)
        ensures
            k == *self,
            k@ == self@,
    {
        TaskKey { root: self.root.clone(), name: self.name.clone() }
    }

    /// Whether two keys name the same task.
    pub fn same(&self, other: &TaskKey) -> (b: bool)
        ensures
            b == (self@ == other@),
    {
        str_eq(self.root.as_str(), other.root.as_str()) && str_eq(
            self.name.as_str(),
            other.name.as_str(),
        )
    }
}

/// Whether a dependent task re-runs when the task it depends on re-runs (`Ignore`: it does not).
#[derive(Clone, Copy, Debug, PartialEq, Eq, Structural)]
pub enum OnReload {
    Rerun,
    Ignore,
}

/// A dependency of a task on another task, with its re-run policy.
#[derive(Clone, Debug)]
pub struct ResolvedDep {
    pub target: TaskKey,
    pub on_reload: OnReload,
}

impl ResolvedDep {
    /// The same dependency, as a new value.
    pub fn duplicate(&self) -> (d: ResolvedDep)
        ensures
            d.target@ == self.target@,
            d.on_reload == self.on_reload,
    {
        ResolvedDep { target: self.target.duplicate(), on_reload: self.on_reload }
    }
}

/// The targets and policies of a list of dependencies.
pub open spec fn deps_view(deps: Seq<ResolvedDep>) -> Seq<((Seq<char>, Seq<char>), OnReload)> {
    deps.map_values(|d: ResolvedDep| (d.target@, d.on_reload))
}

/// The same dependencies, in a new list.
pub fn copy_deps(deps: &Vec<ResolvedDep>) -> (out: Vec<ResolvedDep>)
    ensures
        deps_view(out@) == deps_view(deps@),
{
    let mut out: Vec<ResolvedDep> = Vec::new();
    let mut i: usize = 0;
    while i < deps.len()
        invariant
            i <= deps.len(),
            out@.len() == i,
            forall|k: int|
                0 <= k < i ==> {
                    &&& (#[trigger] out@[k]).target@ == deps@[k].target@
                    &&& out@[k].on_reload == deps@[k].on_reload
                },
        decreases deps.len() - i,
    {
        out.push(deps[i].duplicate());
        i = i + 1;
    }
    assert(deps_view(out@) =~= deps_view(deps@));
    out
}

/// Abstract value of a stored task.
pub struct EntryView {
    pub task: TaskView,
    pub hash: u64,
    pub deps: Seq<((Seq<char>, Seq<char>), OnReload)>,
    pub valid: bool,
    pub rerun_hash: Option<u64>,
    pub effective_hash: Option<u64>,
}

impl View for TaskEntry {
    type V = EntryView;

    open spec fn view(&self) -> EntryView {
        EntryView {
            task: self.task@,
            hash: self.hash,
            deps: deps_view(self.deps@),
            valid: self.valid,
            rerun_hash: self.rerun_hash,
            effective_hash: self.effective_hash,
        }
    }
}

impl TaskEntry {
    /// The same entry, as a new value.
    pub fn duplicate(&self) -> (e: TaskEntry)
        ensures
            e@ == self@,
    {
        TaskEntry {
            task: self.task.duplicate(),
            hash: self.hash,
            deps: copy_deps(&self.deps),
            valid: self.valid,
            rerun_hash: self.rerun_hash,
            effective_hash: self.effective_hash,
        }
    }
}

/// Names and views of a list of named entries.
pub open spec fn entries_view(entries: Seq<(String, TaskEntry)>) -> Seq<(Seq<char>, EntryView)> {
    entries.map_values(|e: (String, TaskEntry)| (e.0@, e.1@))
}

/// The same named entries, in a new list.
pub fn copy_entries(entries: &Vec<(String, TaskEntry)>) -> (out: Vec<(String, TaskEntry)>)
    ensures
        entries_view(out@) == entries_view(entries@),
        names_of(out@) == names_of(entries@),
{
    let mut out: Vec<(String, TaskEntry)> = Vec::new();
    let mut i: usize = 0;
    while i < entries.len()
        invariant
            i <= entries.len(),
            out@.len() == i,
            forall|k: int|
                0 <= k < i ==> {
                    &&& (#[trigger] out@[k]).0@ == entries@[k].0@
                    &&& out@[k].1@ == entries@[k].1@
                },
        decreases entries.len() - i,
    {
        out.push((entries[i].0.clone(), entries[i].1.duplicate()));
        i = i + 1;
    }
    assert(entries_view(out@) =~= entries_view(entries@));
    assert(names_of(out@) =~= names_of(entries@));
    out
}

/// The names of tasks that a reload added or redefined, and of those it removed.
#[derive(Clone, Debug)]
pub struct TaskChanges {
    pub changed: Vec<String>,
    pub removed: Vec<String>,
}

/// Whether an entry of the new table keeps the hash its name had in the old table.
pub open spec fn unchanged_in(old: Seq<(String, TaskEntry)>, e: (String, TaskEntry)) -> bool {
    position_of(old, e.0@) >= 0 && old[position_of(old, e.0@)].1.hash == e.1.hash
}

/// Names, in the new table's order, of the entries that are new or whose hash differs.
pub open spec fn changed_names(old: Seq<(String, TaskEntry)>, new: Seq<(String, TaskEntry)>) -> Seq<
    Seq<char>,
>
    decreases new.len(),
{
    if new.len() == 0 {
        Seq::empty()
    } else if unchanged_in(old, new.last()) {
        changed_names(old, new.drop_last())
    } else {
        changed_names(old, new.drop_last()).push(new.last().0@)
    }
}

/// Names, in the old table's order, of the entries the new table lacks.
pub open spec fn removed_names(old: Seq<(String, TaskEntry)>, new: Seq<(String, TaskEntry)>) -> Seq<
    Seq<char>,
>
    decreases old.len(),
{
    if old.len() == 0 {
        Seq::empty()
    } else if position_of(new, old.last().0@) >= 0 {
        removed_names(old.drop_last(), new)
    } else {
        removed_names(old.drop_last(), new).push(old.last().0@)
    }
}

/// The views of a list of strings.
pub open spec fn strings_view(v: Seq<String>) -> Seq<Seq<char>> {
    v.map_values(|s: String| s@)
}

/// Compares the tasks of a root before and after a reload.
pub fn diff_tasks(old: &Vec<(String, TaskEntry)>, new: &Vec<(String, TaskEntry)>) -> (c:
    TaskChanges)
    ensures
        strings_view(c.changed@) == changed_names(old@, new@),
        strings_view(c.removed@) == removed_names(old@, new@),
{
    let mut changed: Vec<String> = Vec::new();
    let mut removed: Vec<String> = Vec::new();
    let mut i: usize = 0;
    while i < new.len()
        invariant
            i <= new.len(),
            strings_view(changed@) == changed_names(old@, new@.take(i as int)),
        decreases new.len() - i,
    {
        proof {
            assert(new@.take(i + 1).drop_last() =~= new@.take(i as int));
            lemma_position_of_props(old@, new@[i as int].0@);
        }
        let same = match find_named(old, new[i].0.as_str()) {
            Some(p) => old[p].1.hash == new[i].1.hash,
            None => false,
        };
        if !same {
            changed.push(new[i].0.clone());
            proof {
                assert(strings_view(changed@) =~= changed_names(old@, new@.take(i as int)).push(
                    new@[i as int].0@,
                ));
            }
        }
        i = i + 1;
    }
    assert(new@.take(new.len() as int) =~= new@);
    let mut j: usize = 0;
    while j < old.len()
        invariant
            j <= old.len(),
            strings_view(removed@) == removed_names(old@.take(j as int), new@),
        decreases old.len() - j,
    {
        proof {
            assert(old@.take(j + 1).drop_last() =~= old@.take(j as int));
            lemma_position_of_props(new@, old@[j as int].0@);
        }
        if find_named(new, old[j].0.as_str()).is_none() {
            removed.push(old[j].0.clone());
            proof {
                assert(strings_view(removed@) =~= removed_names(old@.take(j as int), new@).push(
                    old@[j as int].0@,
                ));
            }
        }
        j = j + 1;
    }
    assert(old@.take(old.len() as int) =~= old@);
    TaskChanges { changed, removed }
}

/// With distinct names, the first position of each item's name is the item's own position.
pub proof fn lemma_position_of_unique<T>(items: Seq<(String, T)>, k: int)
    requires
        unique_names(items),
        0 <= k < items.len(),
    ensures
        position_of(items, items[k].0@) == k,
{
    lemma_position_of_props(items, items[k].0@);
    let p = position_of(items, items[k].0@);
    if p != k {
        assert(items[p].0@ == items[k].0@);
    }
}

proof fn lemma_changed_names_self(old: Seq<(String, TaskEntry)>, prefix: int)
    requires
        unique_names(old),
        0 <= prefix <= old.len(),
    ensures
        changed_names(old, old.take(prefix)) == Seq::<Seq<char>>::empty(),
    decreases prefix,
{
    if prefix > 0 {
        assert(old.take(prefix).drop_last() =~= old.take(prefix - 1));
        lemma_changed_names_self(old, prefix - 1);
        lemma_position_of_unique(old, prefix - 1);
        assert(old.take(prefix).last() == old[prefix - 1]);
    }
}

proof fn lemma_removed_names_self(old: Seq<(String, TaskEntry)>, prefix: int)
    requires
        0 <= prefix <= old.len(),
    ensures
        removed_names(old.take(prefix), old) == Seq::<Seq<char>>::empty(),
    decreases prefix,
{
    if prefix > 0 {
        assert(old.take(prefix).drop_last() =~= old.take(prefix - 1));
        lemma_removed_names_self(old, prefix - 1);
        let name = old[prefix - 1].0@;
        lemma_position_of_props(old, name);
        if position_of(old, name) == -1 {
            assert(old[prefix - 1].0@ != name);
        }
    }
}

/// Comparing a table of distinctly named tasks with itself reports no change and no removal.
pub proof fn lemma_diff_of_same_table_is_empty(tasks: Seq<(String, TaskEntry)>)
    requires
        unique_names(tasks),
    ensures
        changed_names(tasks, tasks) == Seq::<Seq<char>>::empty(),
        removed_names(tasks, tasks) == Seq::<Seq<char>>::empty(),
{
    lemma_changed_names_self(tasks, tasks.len() as int);
    lemma_removed_names_self(tasks, tasks.len() as int);
    assert(tasks.take(tasks.len() as int) =~= tasks);
}

/// A name is reported changed exactly when it names an entry of the new table whose hash
/// its old entry does not share; it is reported removed exactly when it names an entry of
/// the old table and no entry of the new table.
pub proof fn lemma_diff_membership(
    old: Seq<(String, TaskEntry)>,
    new: Seq<(String, TaskEntry)>,
    name: Seq<char>,
)
    ensures
        changed_names(old, new).contains(name) <==> exists|k: int|
            0 <= k < new.len() && #[trigger] new[k].0@ == name && !unchanged_in(old, new[k]),
        removed_names(old, new).contains(name) <==> (exists|k: int|
            0 <= k < old.len() && #[trigger] old[k].0@ == name) && position_of(new, name) == -1,
{
    lemma_changed_membership(old, new, name);
    lemma_removed_membership(old, new, name);
}

proof fn lemma_changed_membership(
    old: Seq<(String, TaskEntry)>,
    new: Seq<(String, TaskEntry)>,
    name: Seq<char>,
)
    ensures
        changed_names(old, new).contains(name) <==> exists|k: int|
            0 <= k < new.len() && #[trigger] new[k].0@ == name && !unchanged_in(old, new[k]),
    decreases new.len(),
{
    if new.len() > 0 {
        let front = new.drop_last();
        lemma_changed_membership(old, front, name);
        assert forall|k: int| 0 <= k < front.len() implies #[trigger] front[k] == new[k] by {}
        let c = changed_names(old, new);
        let cf = changed_names(old, front);
        let last = new.last();
        if exists|k: int|
            0 <= k < new.len() && #[trigger] new[k].0@ == name && !unchanged_in(old, new[k]) {
            let k = choose|k: int|
                0 <= k < new.len() && #[trigger] new[k].0@ == name && !unchanged_in(old, new[k]);
            if k < front.len() {
                assert(front[k].0@ == name);
                let q = choose|q: int| 0 <= q < cf.len() && cf[q] == name;
                if unchanged_in(old, last) {
                    assert(c[q] == name);
                } else {
                    assert(c == cf.push(last.0@));
                    assert(c[q] == name);
                }
            } else {
                assert(new[k] == last);
                assert(c == cf.push(last.0@));
                assert(c[cf.len() as int] == name);
            }
        }
        if c.contains(name) {
            let q = choose|q: int| 0 <= q < c.len() && c[q] == name;
            if unchanged_in(old, last) {
                assert(cf[q] == name);
                let k = choose|k: int|
                    0 <= k < front.len() && #[trigger] front[k].0@ == name && !unchanged_in(old, front[k]);
                assert(new[k].0@ == name);
            } else if q < cf.len() {
                assert(cf[q] == name);
                let k = choose|k: int|
                    0 <= k < front.len() && #[trigger] front[k].0@ == name && !unchanged_in(old, front[k]);
                assert(new[k].0@ == name);
            } else {
                assert(new[new.len() - 1].0@ == name);
            }
        }
    } else {
        assert(changed_names(old, new) =~= Seq::<Seq<char>>::empty());
    }
}

proof fn lemma_removed_membership(
    old: Seq<(String, TaskEntry)>,
    new: Seq<(String, TaskEntry)>,
    name: Seq<char>,
)
    ensures
        removed_names(old, new).contains(name) <==> (exists|k: int|
            0 <= k < old.len() && #[trigger] old[k].0@ == name) && position_of(new, name) == -1,
    decreases old.len(),
{
    if old.len() > 0 {
        let front = old.drop_last();
        lemma_removed_membership(front, new, name);
        assert forall|k: int| 0 <= k < front.len() implies #[trigger] front[k] == old[k] by {}
        if exists|k: int| 0 <= k < old.len() && #[trigger] old[k].0@ == name {
            let k = choose|k: int| 0 <= k < old.len() && #[trigger] old[k].0@ == name;
            if k < front.len() {
                assert(front[k].0@ == name);
            }
        }
        if exists|k: int| 0 <= k < front.len() && #[trigger] front[k].0@ == name {
            let k = choose|k: int| 0 <= k < front.len() && #[trigger] front[k].0@ == name;
            assert(old[k].0@ == name);
        }
        let r = removed_names(old, new);
        let rf = removed_names(front, new);
        if position_of(new, old.last().0@) == -1 && old.last().0@ == name {
            assert(r == rf.push(name));
            assert(r[rf.len() as int] == name);
        }
        if r.contains(name) && !rf.contains(name) {
            let q = choose|q: int| 0 <= q < r.len() && r[q] == name;
            if position_of(new, old.last().0@) >= 0 {
                assert(rf[q] == name);
            } else if q < rf.len() {
                assert(rf[q] == name);
            } else {
                assert(old[old.len() - 1].0@ == name);
            }
        }
        if rf.contains(name) {
            let q = choose|q: int| 0 <= q < rf.len() && rf[q] == name;
            if position_of(new, old.last().0@) >= 0 {
                assert(r[q] == name);
            } else {
                assert(r[q] == name);
            }
        }
    } else {
        assert(removed_names(old, new) =~= Seq::<Seq<char>>::empty());
    }
}

/// Outcome of reloading the task file of a root, as announced to listeners.
#[derive(Clone, Debug)]
pub enum ReloadEvent {
    Reloaded { root: String, version: u64, changes: TaskChanges },
    ReloadFailed { root: String, message: String },
}

/// What the database holds for one root at one moment.
#[derive(Clone, Debug)]
pub struct TaskSnapshot {
    pub version: u64,
    pub tasks: Vec<(String, TaskEntry)>,
    pub metadata: Option<TasksMetadata>,
}

/// What the database holds for one root: how often it was reloaded, its tasks by name,
/// and the metadata of the task file last loaded.
#[derive(Clone, Debug)]
pub struct RootState {
    pub version: u64,
    pub tasks: Vec<(String, TaskEntry)>,
    pub metadata: Option<TasksMetadata>,
}

/// The tasks loaded for each task root, by root directory.
pub struct TaskDb {
    roots: Vec<(String, RootState)>,
    workspace: String,
}

/// Entries built from the tasks of the task file of root `dir`: each keeps its task, with
/// the dependencies that resolve (seen from `dir` and the workspace root), and may run
/// when all of them resolve.
pub open spec fn entries_from_file(
    entries: Seq<(String, TaskEntry)>,
    tasks: Seq<(String, Task)>,
    dir: Seq<char>,
    workspace: Seq<char>,
) -> bool {
    &&& entries.len() == tasks.len()
    &&& forall|k: int|
        0 <= k < tasks.len() ==> {
            &&& (#[trigger] entries[k]).0@ == tasks[k].0@
            &&& entries[k].1.task@ == tasks[k].1@
            &&& deps_view(entries[k].1.deps@) == resolved_deps(tasks[k].1@.deps, dir, workspace)
            &&& entries[k].1.valid == all_deps_resolve(tasks[k].1@.deps, dir, workspace)
            &&& entries[k].1.rerun_hash is None
            &&& entries[k].1.effective_hash is None
        }
}

/// The state of a root just added: version 0, no tasks, no metadata.
pub open spec fn is_fresh_root(st: RootState) -> bool {
    st.version == 0 && st.tasks@.len() == 0 && st.metadata is None
}

impl TaskDb {
    /// The roots held, each with its state, in the order they were added.
    pub closed spec fn states(&self) -> Seq<(String, RootState)> {
        self.roots@
    }

    /// The workspace root, from which dependency paths starting with `//` are taken.
    pub closed spec fn workspace_root(&self) -> Seq<char> {
        self.workspace@
    }

    /// Position of a root among the tracked roots, or -1 when it is not tracked.
    pub open spec fn root_index(&self, dir: Seq<char>) -> int {
        position_of(self.states(), dir)
    }

    /// The tasks held for a root (none when it is not tracked).
    pub open spec fn root_tasks(&self, dir: Seq<char>) -> Seq<(String, TaskEntry)> {
        if self.root_index(dir) >= 0 {
            self.states()[self.root_index(dir)].1.tasks@
        } else {
            Seq::empty()
        }
    }

    /// The version of a root (0 when it is not tracked).
    pub open spec fn root_version(&self, dir: Seq<char>) -> u64 {
        if self.root_index(dir) >= 0 {
            self.states()[self.root_index(dir)].1.version
        } else {
            0
        }
    }

    /// Every root appears once and the tasks of every root have distinct names.
    pub closed spec fn wf(&self) -> bool {
        &&& unique_names(self.roots@)
        &&& forall|k: int|
            0 <= k < self.roots@.len() ==> unique_names((#[trigger] self.roots@[k]).1.tasks@)
    }

    /// In a well-formed database, roots are distinct and so are the task names of a root.
    pub proof fn lemma_wf_unique(&self)
        requires
            self.wf(),
        ensures
            unique_names(self.states()),
            forall|k: int|
                0 <= k < self.states().len() ==> unique_names((#[trigger] self.states()[k]).1.tasks@),
    {
    }

    /// An empty database for a workspace.
    pub fn new(workspace: String) -> (db: TaskDb)
        ensures
            db.wf(),
            db.states().len() == 0,
            db.workspace_root() == workspace@,
    {
        TaskDb { roots: Vec::new(), workspace }
    }

    /// Starts tracking a root, with no tasks and version 0, unless it is tracked already.
    pub fn add_root(&mut self, dir: String)
        requires
            old(self).wf(),
        ensures
            final(self).wf(),
            final(self).workspace_root() == old(self).workspace_root(),
            position_of(old(self).states(), dir@) >= 0 ==> final(self).states() == old(self).states(),
            position_of(old(self).states(), dir@) == -1 ==> {
                &&& final(self).states().len() == old(self).states().len() + 1
                &&& final(self).states().drop_last() == old(self).states()
                &&& final(self).states().last().0 == dir
                &&& is_fresh_root(final(self).states().last().1)
            },
    {
        proof {
            lemma_position_of_props(self.roots@, dir@);
        }
        match find_named(&self.roots, dir.as_str()) {
            Some(_) => {},
            None => {
                let ghost before = self.roots@;
                let fresh = RootState { version: 0, tasks: Vec::new(), metadata: None };
                self.roots.push((dir, fresh));
                proof {
                    assert(self.roots@.drop_last() =~= before);
                    assert forall|a: int, b: int|
                        0 <= a < self.roots@.len() && 0 <= b < self.roots@.len() && a != b implies self.roots@[a].0@
                        != self.roots@[b].0@ by {
                        if a < before.len() && b < before.len() {
                            assert(self.roots@[a] == before[a]);
                            assert(self.roots@[b] == before[b]);
                        } else if a < before.len() {
                            assert(self.roots@[a] == before[a]);
                            assert(before[a].0@ != dir@);
                        } else if b < before.len() {
                            assert(self.roots@[b] == before[b]);
                            assert(before[b].0@ != dir@);
                        }
                    }
                    assert forall|k: int| 0 <= k < self.roots@.len() implies unique_names(
                        (#[trigger] self.roots@[k]).1.tasks@,
                    ) by {
                        if k < before.len() {
                            assert(self.roots@[k] == before[k]);
                        } else {
                            assert(self.roots@[k].1.tasks@.len() == 0);
                        }
                    }
                }
            },
        }
    }

    /// The directories of all tracked roots, in the order they were added.
    pub fn roots(&self) -> (dirs: Vec<String>)
        ensures
            strings_view(dirs@) == names_of(self.states()),
    {
        let mut dirs: Vec<String> = Vec::new();
        let mut i: usize = 0;
        while i < self.roots.len()
            invariant
                i <= self.roots.len(),
                dirs@.len() == i,
                forall|k: int| 0 <= k < i ==> (#[trigger] dirs@[k])@ == self.roots@[k].0@,
            decreases self.roots.len() - i,
        {
            dirs.push(self.roots[i].0.clone());
            i = i + 1;
        }
        assert(strings_view(dirs@) =~= names_of(self.states()));
        dirs
    }

    /// What the database holds for a root, as a new value, if the root is tracked.
    pub fn snapshot(&self, dir: &str) -> (snap: Option<TaskSnapshot>)
        ensures
            position_of(self.states(), dir@) == -1 <==> snap is None,
            snap matches Some(s) ==> {
                let st = self.states()[position_of(self.states(), dir@)].1;
                &&& s.version == st.version
                &&& entries_view(s.tasks@) == entries_view(st.tasks@)
                &&& names_of(s.tasks@) == names_of(st.tasks@)
                &&& s.metadata == st.metadata
            },
    {
        proof {
            lemma_position_of_props(self.roots@, dir@);
        }
        match find_named(&self.roots, dir) {
            Some(p) => {
                let st = &self.roots[p].1;
                let metadata = match &st.metadata {
                    Some(m) => Some(m.duplicate()),
                    None => None,
                };
                Some(TaskSnapshot { version: st.version, tasks: copy_entries(&st.tasks), metadata })
            },
            None => None,
        }
    }

    /// Installs the outcome of loading a root's task file. The root is tracked from now on
    /// in any case. When loading failed, the root keeps its tasks and the failure is
    /// announced with the error's message; when it succeeded, the root's tasks become those
    /// of the file, its metadata that of the file, its version goes up by one (saturating),
    /// and the announcement lists the tasks changed and removed.
    pub fn reload_root(&mut self, dir: &str, loaded: Result<TasksFile, TaskConfigError>) -> (out: (
        Result<(), TaskConfigError>,
        ReloadEvent,
    ))
        requires
            old(self).wf(),
            loaded matches Ok(f) ==> f.wf(),
        ensures
            final(self).wf(),
            final(self).workspace_root() == old(self).workspace_root(),
            final(self).root_index(dir@) >= 0,
            final(self).states()[final(self).root_index(dir@)].0@ == dir@,
            old(self).root_index(dir@) >= 0 ==> final(self).root_index(dir@) == old(self).root_index(dir@)
                && final(self).states().len() == old(self).states().len(),
            old(self).root_index(dir@) == -1 ==> final(self).root_index(dir@) == old(self).states().len()
                && final(self).states().len() == old(self).states().len() + 1,
            forall|k: int|
                0 <= k < old(self).states().len() && k != final(self).root_index(dir@)
                    ==> #[trigger] final(self).states()[k] == old(self).states()[k],
            loaded is Err ==> {
                &&& out.0 == Err::<(), TaskConfigError>(loaded->Err_0)
                &&& out.1 is ReloadFailed
                &&& out.1->ReloadFailed_root@ == dir@
                &&& !has_cause(loaded->Err_0) ==> out.1->ReloadFailed_message@ == error_message(
                    loaded->Err_0,
                    Seq::empty(),
                )
                &&& has_cause(loaded->Err_0) ==> exists|cause: String|
                    out.1->ReloadFailed_message@ == error_message(loaded->Err_0, cause@) && match loaded->Err_0 {
                        TaskConfigError::ReadFailed { source, .. } => vstd::string::to_string_from_display_ensures(
                            &source,
                            cause,
                        ),
                        TaskConfigError::ParseFailed { source, .. } => vstd::string::to_string_from_display_ensures(
                            &source,
                            cause,
                        ),
                        _ => true,
                    }
                &&& old(self).root_index(dir@) >= 0 ==> final(self).states()[final(self).root_index(dir@)].1
                    == old(self).states()[final(self).root_index(dir@)].1
                &&& old(self).root_index(dir@) == -1 ==> is_fresh_root(
                    final(self).states()[final(self).root_index(dir@)].1,
                )
            },
            loaded is Ok ==> {
                &&& out.0 is Ok
                &&& entries_from_file(
                    final(self).root_tasks(dir@),
                    loaded->Ok_0.tasks@,
                    dir@,
                    final(self).workspace_root(),
                )
                &&& final(self).states()[final(self).root_index(dir@)].1.metadata == Some(
                    loaded->Ok_0.metadata,
                )
                &&& final(self).root_version(dir@) == if old(self).root_version(dir@) == u64::MAX {
                    u64::MAX
                } else {
                    (old(self).root_version(dir@) + 1) as u64
                }
                &&& out.1 is Reloaded
                &&& out.1->Reloaded_root@ == dir@
                &&& out.1->Reloaded_version == final(self).root_version(dir@)
                &&& strings_view(out.1->Reloaded_changes.changed@) == changed_names(
                    old(self).root_tasks(dir@),
                    final(self).root_tasks(dir@),
                )
                &&& strings_view(out.1->Reloaded_changes.removed@) == removed_names(
                    old(self).root_tasks(dir@),
                    final(self).root_tasks(dir@),
                )
            },
    {
        self.add_root(String::from_str(dir));
        proof {
            lemma_position_of_props(self.roots@, dir@);
        }
        let file = match loaded {
            Ok(file) => file,
            Err(err) => {
                let message = err.message();
                return (Err(err), ReloadEvent::ReloadFailed { root: String::from_str(dir), message });
            },
        };
        let mut new_tasks: Vec<(String, TaskEntry)> = Vec::new();
        let mut i: usize = 0;
        while i < file.tasks.len()
            invariant
                i <= file.tasks.len(),
                new_tasks@.len() == i,
                forall|k: int|
                    0 <= k < i ==> {
                        &&& (#[trigger] new_tasks@[k]).0@ == file.tasks@[k].0@
                        &&& new_tasks@[k].1.task@ == file.tasks@[k].1@
                        &&& deps_view(new_tasks@[k].1.deps@) == resolved_deps(file.tasks@[k].1@.deps, dir@, self.workspace@)
                        &&& new_tasks@[k].1.valid == all_deps_resolve(file.tasks@[k].1@.deps, dir@, self.workspace@)
                        &&& new_tasks@[k].1.rerun_hash is None
                        &&& new_tasks@[k].1.effective_hash is None
                    },
            decreases file.tasks.len() - i,
        {
            let task = file.tasks[i].1.duplicate();
            let hash = hash_task(&task);
            let (deps, valid) = resolve_deps_of(&file.tasks[i].1.deps, dir, self.workspace.as_str());
            new_tasks.push(
                (
                    file.tasks[i].0.clone(),
                    TaskEntry {
                        task,
                        hash,
                        deps,
                        valid,
                        rerun_hash: None,
                        effective_hash: None,
                    },
                ),
            );
            i = i + 1;
        }
        assert(unique_names(new_tasks@)) by {
            assert forall|a: int, b: int|
                0 <= a < new_tasks@.len() && 0 <= b < new_tasks@.len() && a != b implies new_tasks@[a].0@
                != new_tasks@[b].0@ by {
                assert(new_tasks@[a].0@ == file.tasks@[a].0@);
                assert(new_tasks@[b].0@ == file.tasks@[b].0@);
            }
        }
        let p = match find_named(&self.roots, dir) {
            Some(p) => p,
            None => {
                proof {
                    lemma_position_of_props(old(self).states(), dir@);
                    if old(self).root_index(dir@) == -1 {
                        assert(self.roots@.last().0@ == dir@);
                        assert(self.roots@[self.roots@.len() - 1].0@ == dir@);
                    }
                    assert(false);
                }
                return (Ok(()), ReloadEvent::ReloadFailed { root: String::from_str(dir), message: String::new() });
            },
        };
        proof {
            lemma_position_of_props(self.roots@, dir@);
            lemma_position_of_props(old(self).states(), dir@);
            if old(self).root_index(dir@) >= 0 {
                assert(self.roots@ == old(self).states());
            } else {
                assert(p == old(self).states().len());
            }
            assert(self.roots@[p as int].1.tasks@ =~= old(self).root_tasks(dir@));
            assert(self.roots@[p as int].1.version == old(self).root_version(dir@));
        }
        let changes = diff_tasks(&self.roots[p].1.tasks, &new_tasks);
        let version = self.roots[p].1.version.saturating_add(1);
        let ghost before = self.roots@;
        let name = self.roots[p].0.clone();
        let state = RootState { version, tasks: new_tasks, metadata: Some(file.metadata) };
        self.roots.set(p, (name, state));
        proof {
            assert forall|a: int, b: int|
                0 <= a < self.roots@.len() && 0 <= b < self.roots@.len() && a != b implies self.roots@[a].0@
                != self.roots@[b].0@ by {
                assert(self.roots@[a].0@ == before[a].0@);
                assert(self.roots@[b].0@ == before[b].0@);
            }
            assert forall|k: int| 0 <= k < self.roots@.len() implies unique_names(
                (#[trigger] self.roots@[k]).1.tasks@,
            ) by {
                if k != p {
                    assert(self.roots@[k] == before[k]);
                }
            }
            lemma_position_of_props(self.roots@, dir@);
            lemma_position_of_props(before, dir@);
            lemma_position_of_same_names(self.roots@, before, dir@);
        }
        (Ok(()), ReloadEvent::Reloaded { root: String::from_str(dir), version, changes })
    }
}

} // verus!
