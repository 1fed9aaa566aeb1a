//! The watcher's own logic: paths relative to the watched folder, the task selections of
//! the command line, and which selected task file an event payload touches.
use vstd::prelude::*;
use crate::json::{JsonValue, get_field, json_field, json_str, json_strings, parse_json, json_document, string_items};
use crate::paths::{path_join, path_strip_prefix, joined_path, stripped_path};
use crate::tasks::db::{TaskSelection, TASKS_FILE_NAME};
use crate::text::{
    concat, contains_text, ends_with, last_index_of, split_at_last, str_contains, str_ends_with,
    str_eq, trim_dot_slash, trim_leading_dot_slash,
};

verus! {

/// A path relative to `root`: the rest of `candidate` after `root`, or `candidate` itself
/// when it is not under `root`.
pub open spec fn relative_text(root: Seq<char>, candidate: Seq<char>) -> Seq<char> {
    match stripped_path(candidate, root) {
        Some(rest) => rest,
        None => candidate,
    }
}

/// The path of `candidate` relative to `root`, or `candidate` when it is not under `root`.
pub fn relative_path(root: &str, candidate: &str) -> (rel: String)
    ensures
        rel@ == relative_text(root@, candidate@),
{
    match path_strip_prefix(candidate, root) {
        Some(rest) => rest,
        None => String::from_str(candidate),
    }
}

/// The name of task files.
pub open spec fn tasks_file_name() -> Seq<char> {
    "tasks.toml"@
}

/// The three ways a selected task file is recognised in events: its root, its path
/// relative to the watched folder, and that path without leading `./`.
pub open spec fn task_file_entry(sel: TaskSelection, watch_root: Seq<char>) -> (Seq<char>, Seq<char>, Seq<char>) {
    let rel = relative_text(watch_root, joined_path(sel.dir@, tasks_file_name()));
    (sel.dir@, rel, trim_dot_slash(rel))
}

/// The texts of a table of task file entries.
pub open spec fn entries_view(v: Seq<(String, String, String)>) -> Seq<(Seq<char>, Seq<char>, Seq<char>)> {
    v.map_values(|e: (String, String, String)| (e.0@, e.1@, e.2@))
}

/// For each selection, in order, its root, the path of its task file relative to the
/// watched folder, and that path without leading `./`.
pub fn task_file_paths(selections: &Vec<TaskSelection>, watch_root: &str) -> (paths: Vec<(String, String, String)>)
    ensures
        paths@.len() == selections@.len(),
        forall|i: int|
            0 <= i < selections@.len() ==> #[trigger] entries_view(paths@)[i] == task_file_entry(
                selections@[i],
                watch_root@,
            ),
{
    proof {
        reveal_strlit("tasks.toml");
    }
    let mut paths: Vec<(String, String, String)> = Vec::new();
    let mut i: usize = 0;
    while i < selections.len()
        invariant
            i <= selections@.len(),
            paths@.len() == i,
            TASKS_FILE_NAME@ == tasks_file_name(),
            forall|k: int|
                0 <= k < i ==> #[trigger] entries_view(paths@)[k] == task_file_entry(
                    selections@[k],
                    watch_root@,
                ),
        decreases selections.len() - i,
    {
        let dir = &selections[i].dir;
        let tasks_path = path_join(dir.as_str(), TASKS_FILE_NAME);
        let rel = relative_path(watch_root, tasks_path.as_str());
        let trimmed = trim_leading_dot_slash(rel.as_str());
        let ghost before = paths@;
        paths.push((dir.clone(), rel, trimmed));
        proof {
            assert forall|k: int| 0 <= k < i + 1 implies #[trigger] entries_view(paths@)[k]
                == task_file_entry(selections@[k], watch_root@) by {
                if k < i {
                    assert(paths@[k] == before[k]);
                    assert(entries_view(before)[k] == task_file_entry(selections@[k], watch_root@));
                }
            }
        }
        i = i + 1;
    }
    paths
}

/// Whether a changed path names the task file of an entry: the same relative path, or the
/// same path once leading `./` are removed; or both the path and its trimmed form end with
/// the task file name and hold the entry's path (or its trimmed form).
pub open spec fn path_names_entry(path: Seq<char>, entry: (Seq<char>, Seq<char>, Seq<char>)) -> bool {
    let normalized = trim_dot_slash(path);
    ||| path == entry.1
    ||| normalized == entry.2
    ||| (ends_with(path, tasks_file_name()) && ends_with(normalized, tasks_file_name()) && (
    contains_text(path, entry.1) || contains_text(normalized, entry.2)))
}

/// The root of the first entry whose task file a path names.
pub open spec fn entry_touched(path: Seq<char>, entries: Seq<(Seq<char>, Seq<char>, Seq<char>)>) -> Option<Seq<char>>
    decreases entries.len(),
{
    if entries.len() == 0 {
        None
    } else if path_names_entry(path, entries[0]) {
        Some(entries[0].0)
    } else {
        entry_touched(path, entries.drop_first())
    }
}

/// The root touched by the first path, in order, that names a selected task file.
pub open spec fn first_touched(paths: Seq<Seq<char>>, entries: Seq<(Seq<char>, Seq<char>, Seq<char>)>) -> Option<Seq<char>>
    decreases paths.len(),
{
    if paths.len() == 0 {
        None
    } else if entry_touched(paths[0], entries) is Some {
        entry_touched(paths[0], entries)
    } else {
        first_touched(paths.drop_first(), entries)
    }
}

/// The root whose task file an event touches: for a file-system event (`"type"` is
/// `"fs-event"`) with a `"paths"` array, the root of the first path that names a selected
/// task file; nothing otherwise.
pub open spec fn event_touches(v: JsonValue, entries: Seq<(Seq<char>, Seq<char>, Seq<char>)>) -> Option<Seq<char>> {
    if json_str(json_field(v, "type"@)) == Some("fs-event"@) {
        match json_field(v, "paths"@) {
            Some(JsonValue::Array(items)) => first_touched(json_strings(items@), entries),
            _ => None,
        }
    } else {
        None
    }
}

/// Whether a changed path names the task file of an entry.
fn names_entry(path: &str, entry: &(String, String, String)) -> (b: bool)
    ensures
        b == path_names_entry(path@, (entry.0@, entry.1@, entry.2@)),
{
    proof {
        reveal_strlit("tasks.toml");
    }
    let normalized = trim_leading_dot_slash(path);
    if str_eq(path, entry.1.as_str()) || str_eq(normalized.as_str(), entry.2.as_str()) {
        return true;
    }
    str_ends_with(path, TASKS_FILE_NAME) && str_ends_with(normalized.as_str(), TASKS_FILE_NAME) && (
    str_contains(path, entry.1.as_str()) || str_contains(normalized.as_str(), entry.2.as_str()))
}

/// The root whose task file an event touches.
pub fn touched_root(v: &JsonValue, task_paths: &Vec<(String, String, String)>) -> (root: Option<String>)
    ensures
        match root {
            Some(r) => event_touches(*v, entries_view(task_paths@)) == Some(r@),
            None => event_touches(*v, entries_view(task_paths@)) is None,
        },
{
    proof {
        reveal_strlit("type");
        reveal_strlit("fs-event");
        reveal_strlit("paths");
    }
    let is_fs_event = match get_field(v, "type") {
        Some(JsonValue::Str(t)) => str_eq(t.as_str(), "fs-event"),
        _ => false,
    };
    if !is_fs_event {
        return None;
    }
    let items = match get_field(v, "paths") {
        Some(JsonValue::Array(items)) => items,
        _ => {
            return None;
        },
    };
    let paths = string_items(items);
    let ghost ps = json_strings(items@);
    let ghost es = entries_view(task_paths@);
    let mut i: usize = 0;
    assert(ps.skip(0) =~= ps);
    assert(event_touches(*v, es) == first_touched(ps, es));
    while i < paths.len()
        invariant
            event_touches(*v, es) == first_touched(ps, es),
            i <= paths@.len(),
            ps.len() == paths@.len(),
            forall|q: int| 0 <= q < paths@.len() ==> #[trigger] paths@[q]@ == ps[q],
            es == entries_view(task_paths@),
            first_touched(ps, es) == first_touched(ps.skip(i as int), es),
        decreases paths.len() - i,
    {
        let path = paths[i].as_str();
        let mut j: usize = 0;
        proof {
            assert(es.skip(0) =~= es);
            assert(ps.skip(i as int)[0] == ps[i as int]);
        }
        while j < task_paths.len()
            invariant
                event_touches(*v, es) == first_touched(ps, es),
                first_touched(ps, es) == first_touched(ps.skip(i as int), es),
                ps.len() == paths@.len(),
                i < paths@.len(),
                path@ == ps[i as int],
                j <= task_paths@.len(),
                es == entries_view(task_paths@),
                entry_touched(path@, es) == entry_touched(path@, es.skip(j as int)),
            decreases task_paths.len() - j,
        {
            proof {
                assert(es.skip(j as int)[0] == es[j as int]);
                assert(es.skip(j as int).drop_first() =~= es.skip(j + 1));
            }
            if names_entry(path, &task_paths[j]) {
                return Some(task_paths[j].0.clone());
            }
            j = j + 1;
        }
        proof {
            assert(es.skip(j as int) =~= Seq::<(Seq<char>, Seq<char>, Seq<char>)>::empty());
            assert(ps.skip(i as int).drop_first() =~= ps.skip(i + 1));
        }
        i = i + 1;
    }
    proof {
        assert(ps.skip(i as int) =~= Seq::<Seq<char>>::empty());
    }
    None
}

/// The root whose task file an event payload touches; nothing for a payload that is not
/// JSON.
pub fn tasks_file_touched(payload: &str, task_paths: &Vec<(String, String, String)>) -> (root: Option<String>)
    ensures
        match json_document(payload@) {
            None => root is None,
            Some(v) => match root {
                Some(r) => event_touches(v, entries_view(task_paths@)) == Some(r@),
                None => event_touches(v, entries_view(task_paths@)) is None,
            },
        },
{
    match parse_json(payload) {
        Some(v) => touched_root(&v, task_paths),
        None => None,
    }
}

/// What one command-line argument `<path>:<task>` selects, split at its last `:`: the
/// task folder (`cwd`, joined with the path when there is one), the task name (`task`
/// when none is given), and whether the argument was malformed (no `:`, or no task name).
pub open spec fn selection_of(arg: Seq<char>, cwd: Seq<char>) -> (Seq<char>, Seq<char>, bool) {
    let li = last_index_of(arg, ':');
    let path = if li >= 0 { arg.take(li) } else { Seq::<char>::empty() };
    let task = if li >= 0 { arg.skip(li + 1) } else { arg };
    let dir = if path.len() == 0 { cwd } else { joined_path(cwd, path) };
    let name = if task.len() == 0 { "task"@ } else { task };
    (dir, name, li < 0 || task.len() == 0)
}

/// The warning printed for an argument once an argument has been malformed.
pub open spec fn selection_warning(arg: Seq<char>, dir: Seq<char>, name: Seq<char>) -> Seq<char> {
    "expected '<path>:<task>', got '"@ + arg + "'; using "@ + joined_path(dir, tasks_file_name())
        + " for task '"@ + name + "'"@
}

/// The selections of a list of arguments, whether one was malformed, and the warnings:
/// from the first malformed argument on, one warning for each argument.
pub open spec fn selections_of(args: Seq<Seq<char>>, cwd: Seq<char>) -> (Seq<(Seq<char>, Seq<char>)>, bool, Seq<Seq<char>>)
    decreases args.len(),
{
    if args.len() == 0 {
        (Seq::empty(), false, Seq::empty())
    } else {
        let (sels, err, warns) = selections_of(args.drop_last(), cwd);
        let (dir, name, bad) = selection_of(args.last(), cwd);
        let now_err = err || bad;
        (
            sels.push((dir, name)),
            now_err,
            if now_err { warns.push(selection_warning(args.last(), dir, name)) } else { warns },
        )
    }
}

/// The texts of a list of strings.
pub open spec fn args_view(v: Seq<String>) -> Seq<Seq<char>> {
    v.map_values(|s: String| s@)
}

/// The folders and names of a list of selections.
pub open spec fn selections_view(v: Seq<TaskSelection>) -> Seq<(Seq<char>, Seq<char>)> {
    v.map_values(|s: TaskSelection| (s.dir@, s.name@))
}

/// Reads the task selections `<path>:<task>` of the command line (the arguments after the
/// program name), relative to `cwd`. Returns the selections, whether the command line was
/// wrong (fewer than one selection, or a malformed one), and the warnings to print.
pub fn parse_task_selections(args: &Vec<String>, cwd: &str) -> (r: (Vec<TaskSelection>, bool, Vec<String>))
    ensures
        args@.len() < 2 ==> r.0@.len() == 0 && r.1 && r.2@.len() == 0,
        args@.len() >= 2 ==> ({
            let (sels, err, warns) = selections_of(args_view(args@).skip(1), cwd@);
            &&& selections_view(r.0@) == sels
            &&& r.1 == err
            &&& args_view(r.2@) == warns
        }),
{
    let mut selections: Vec<TaskSelection> = Vec::new();
    let mut warnings: Vec<String> = Vec::new();
    let mut had_error = false;
    if args.len() < 2 {
        return (selections, true, warnings);
    }
    proof {
        reveal_strlit("task");
        reveal_strlit("tasks.toml");
    }
    let ghost av = args_view(args@);
    let mut i: usize = 1;
    assert(av.subrange(1, 1) =~= Seq::<Seq<char>>::empty());
    while i < args.len()
        invariant
            1 <= i <= args@.len(),
            av == args_view(args@),
            TASKS_FILE_NAME@ == tasks_file_name(),
            selections_of(av.subrange(1, i as int), cwd@) == (
                selections_view(selections@),
                had_error,
                args_view(warnings@),
            ),
        decreases args.len() - i,
    {
        let arg = args[i].as_str();
        proof {
            assert(av.subrange(1, i + 1).drop_last() =~= av.subrange(1, i as int));
            assert(av.subrange(1, i + 1).last() == arg@);
            crate::text::lemma_last_index_of(arg@, ':');
        }
        let (path_part, task_part, bad_split) = match split_at_last(arg, ':') {
            Some((p, t)) => (p, t, false),
            None => (String::new(), String::from_str(arg), true),
        };
        let task_name = if task_part.as_str().is_empty() {
            String::from_str("task")
        } else {
            task_part.clone()
        };
        let task_dir = if path_part.as_str().is_empty() {
            String::from_str(cwd)
        } else {
            path_join(cwd, path_part.as_str())
        };
        let bad = bad_split || task_part.as_str().is_empty();
        assert((task_dir@, task_name@, bad) == selection_of(arg@, cwd@));
        had_error = had_error || bad;
        let ghost sels_before = selections@;
        let ghost warns_before = warnings@;
        if had_error {
            let tasks_path = path_join(task_dir.as_str(), TASKS_FILE_NAME);
            let w1 = concat("expected '<path>:<task>', got '", arg);
            let w2 = concat(w1.as_str(), "'; using ");
            let w3 = concat(w2.as_str(), tasks_path.as_str());
            let w4 = concat(w3.as_str(), " for task '");
            let w5 = concat(w4.as_str(), task_name.as_str());
            let w6 = concat(w5.as_str(), "'");
            proof {
                reveal_strlit("expected '<path>:<task>', got '");
                reveal_strlit("'; using ");
                reveal_strlit(" for task '");
                reveal_strlit("'");
                assert(w6@ =~= selection_warning(arg@, task_dir@, task_name@));
            }
            warnings.push(w6);
            proof {
                assert(args_view(warnings@) =~= args_view(warns_before).push(
                    selection_warning(arg@, task_dir@, task_name@),
                ));
            }
        }
        selections.push(TaskSelection { dir: task_dir, name: task_name });
        proof {
            assert(selections_view(selections@) =~= selections_view(sels_before).push(
                (selection_of(arg@, cwd@).0, selection_of(arg@, cwd@).1),
            ));
        }
        i = i + 1;
    }
    proof {
        assert(av.subrange(1, args@.len() as int) =~= av.skip(1));
    }
    (selections, had_error, warnings)
}

} // verus!
