//! File-system events seen by the scheduler: the paths an event payload names, and the
//! tasks whose watch globs those paths match.
use vstd::prelude::*;
use crate::json::{JsonValue, get_field, json_document, json_field, json_str, json_strings, parse_json, string_items, texts};
use crate::paths::{joined_path, path_join, path_strip_prefix, stripped_path};
use crate::tasks::db::TaskKey;
use crate::tasks::globs::glob_set_matches;
use crate::tasks::keyed::{key_list_view, list_has_key};
use crate::tasks::scheduler::{
    DepEdge, RunAction, TaskRuntime, collect_closure, is_path, plan_runs, planned_actions, reaches,
    same_actions, successors,
};
use crate::text::str_eq;

verus! {

/// The paths of a file-system event: for a value whose `"type"` is `"fs-event"` and whose
/// `"paths"` is an array, the strings of that array in order; nothing otherwise.
pub open spec fn event_paths(v: JsonValue) -> Option<Seq<Seq<char>>> {
    if json_str(json_field(v, "type"@)) == Some("fs-event"@) {
        match json_field(v, "paths"@) {
            Some(JsonValue::Array(items)) => Some(json_strings(items@)),
            _ => None,
        }
    } else {
        None
    }
}

/// The paths of a file-system event value.
pub fn fs_event_paths(v: &JsonValue) -> (paths: Option<Vec<String>>)
    ensures
        match paths {
            Some(p) => event_paths(*v) == Some(texts(p@)),
            None => event_paths(*v) is None,
        },
{
    proof {
        reveal_strlit("type");
        reveal_strlit("fs-event");
        reveal_strlit("paths");
    }
    let is_fs_event = match get_field(v, "type") {
        Some(JsonValue::Str(t)) => str_eq(t.as_str(), "fs-event"),
        _ => false,
    };
    if !is_fs_event {
        return None;
    }
    match get_field(v, "paths") {
        Some(JsonValue::Array(items)) => Some(string_items(items)),
        _ => None,
    }
}

/// The paths of a file-system event payload; nothing for a payload that is not JSON or not
/// a file-system event with a list of paths.
pub fn extract_fs_paths(payload: &str) -> (paths: Option<Vec<String>>)
    ensures
        match json_document(payload@) {
            None => paths is None,
            Some(v) => match paths {
                Some(p) => event_paths(v) == Some(texts(p@)),
                None => event_paths(v) is None,
            },
        },
{
    match parse_json(payload) {
        Some(v) => fs_event_paths(&v),
        None => None,
    }
}

/// Whether a changed path, relative to the watched folder, matches the watch globs of a
/// task: the path, taken relative to the task's root, matches one of its globs. Paths
/// outside the task's root match nothing.
pub open spec fn path_hits_task(
    watch_root: Seq<char>,
    path: Seq<char>,
    key: TaskKey,
    task: TaskRuntime,
) -> bool {
    match stripped_path(joined_path(watch_root, path), key.root@) {
        Some(rel) => glob_set_matches(task.globset@, rel),
        None => false,
    }
}

/// Whether a change of some of the paths hits a task of the table under key `k`, looking
/// at the paths before `i`, and at path `i` the tasks before `j`.
pub open spec fn hit_before(
    watch_root: Seq<char>,
    paths: Seq<Seq<char>>,
    tasks: Seq<(TaskKey, TaskRuntime)>,
    k: (Seq<char>, Seq<char>),
    i: int,
    j: int,
) -> bool {
    exists|p: int, t: int|
        0 <= p < paths.len() && 0 <= t < tasks.len() && (p < i || (p == i && t < j))
            && tasks[t].0@ == k && #[trigger] path_hits_task(watch_root, paths[p], tasks[t].0, tasks[t].1)
}

/// Whether a change of some of the paths hits the task under key `k`.
pub open spec fn is_direct_key(
    watch_root: Seq<char>,
    paths: Seq<Seq<char>>,
    tasks: Seq<(TaskKey, TaskRuntime)>,
    k: (Seq<char>, Seq<char>),
) -> bool {
    hit_before(watch_root, paths, tasks, k, paths.len() as int, 0)
}

/// The tasks a change of the given paths hits directly, each once.
pub fn direct_tasks(
    watch_root: &str,
    paths: &Vec<String>,
    tasks: &Vec<(TaskKey, TaskRuntime)>,
) -> (direct: Vec<TaskKey>)
    ensures
        key_list_view(direct@).no_duplicates(),
        forall|k: (Seq<char>, Seq<char>)|
            key_list_view(direct@).contains(k) <==> is_direct_key(watch_root@, texts(paths@), tasks@, k),
{
    let ghost ps = texts(paths@);
    let mut direct: Vec<TaskKey> = Vec::new();
    let mut i: usize = 0;
    while i < paths.len()
        invariant
            i <= paths@.len(),
            ps == texts(paths@),
            key_list_view(direct@).no_duplicates(),
            forall|k: (Seq<char>, Seq<char>)|
                key_list_view(direct@).contains(k) <==> hit_before(watch_root@, ps, tasks@, k, i as int, 0),
        decreases paths.len() - i,
    {
        let full = path_join(watch_root, paths[i].as_str());
        let mut j: usize = 0;
        proof {
            assert forall|k: (Seq<char>, Seq<char>)|
                hit_before(watch_root@, ps, tasks@, k, i as int, 0) == #[trigger] hit_before(
                    watch_root@, ps, tasks@, k, i as int, 0) by {}
        }
        while j < tasks.len()
            invariant
                i < paths@.len(),
                j <= tasks@.len(),
                ps == texts(paths@),
                full@ == joined_path(watch_root@, ps[i as int]),
                key_list_view(direct@).no_duplicates(),
                forall|k: (Seq<char>, Seq<char>)|
                    key_list_view(direct@).contains(k) <==> hit_before(watch_root@, ps, tasks@, k, i as int, j as int),
            decreases tasks.len() - j,
        {
            let key = &tasks[j].0;
            let hit = match path_strip_prefix(full.as_str(), key.root.as_str()) {
                Some(rel) => tasks[j].1.globset.is_match(rel.as_str()),
                None => false,
            };
            assert(hit == path_hits_task(watch_root@, ps[i as int], tasks@[j as int].0, tasks@[j as int].1));
            let ghost before = key_list_view(direct@);
            if hit && !list_has_key(&direct, key) {
                direct.push(key.duplicate());
                proof {
                    assert(key_list_view(direct@) =~= before.push(key@));
                    crate::seqs::lemma_no_dup_push(before, key@);
                }
            }
            proof {
                assert forall|k: (Seq<char>, Seq<char>)|
                    key_list_view(direct@).contains(k) <==> hit_before(
                        watch_root@, ps, tasks@, k, i as int, j + 1) by {
                    crate::seqs::lemma_contains_push(before, key@, k);
                    if hit_before(watch_root@, ps, tasks@, k, i as int, j + 1) && !hit_before(
                        watch_root@, ps, tasks@, k, i as int, j as int) {
                        let (p, t) = choose|p: int, t: int|
                            0 <= p < ps.len() && 0 <= t < tasks@.len() && (p < i || (p == i && t
                                < j + 1)) && tasks@[t].0@ == k && #[trigger] path_hits_task(
                                watch_root@, ps[p], tasks@[t].0, tasks@[t].1);
                        assert(p == i && t == j);
                    }
                    if key_list_view(direct@).contains(k) && !before.contains(k) {
                        assert(k == key@);
                        assert(hit);
                        assert(tasks@[j as int].0@ == k);
                    }
                }
            }
            j = j + 1;
        }
        proof {
            assert forall|k: (Seq<char>, Seq<char>)|
                key_list_view(direct@).contains(k) <==> hit_before(
                    watch_root@, ps, tasks@, k, i + 1, 0) by {
                if hit_before(watch_root@, ps, tasks@, k, i + 1, 0) {
                    let (p, t) = choose|p: int, t: int|
                        0 <= p < ps.len() && 0 <= t < tasks@.len() && (p < i + 1 || (p == i + 1 && t
                            < 0)) && tasks@[t].0@ == k && #[trigger] path_hits_task(
                            watch_root@, ps[p], tasks@[t].0, tasks@[t].1);
                    assert(hit_before(watch_root@, ps, tasks@, k, i as int, j as int));
                }
                if hit_before(watch_root@, ps, tasks@, k, i as int, j as int) {
                    let (p, t) = choose|p: int, t: int|
                        0 <= p < ps.len() && 0 <= t < tasks@.len() && (p < i || (p == i && t
                            < j)) && tasks@[t].0@ == k && #[trigger] path_hits_task(
                            watch_root@, ps[p], tasks@[t].0, tasks@[t].1);
                    assert(hit_before(watch_root@, ps, tasks@, k, i + 1, 0));
                }
            }
        }
        i = i + 1;
    }
    direct
}

/// Every successor of a key of `s` is in `s`.
pub open spec fn successor_closed(
    tasks: Seq<(TaskKey, TaskRuntime)>,
    dependents: Seq<(TaskKey, Vec<DepEdge>)>,
    s: Seq<(Seq<char>, Seq<char>)>,
) -> bool {
    forall|x: (Seq<char>, Seq<char>), y: (Seq<char>, Seq<char>)|
        s.contains(x) && #[trigger] successors(tasks, dependents, x).contains(y) ==> s.contains(y)
}

/// `k` is reached from `start`, whatever was reached before.
pub open spec fn reaches_freely(
    tasks: Seq<(TaskKey, TaskRuntime)>,
    dependents: Seq<(TaskKey, Vec<DepEdge>)>,
    start: (Seq<char>, Seq<char>),
    k: (Seq<char>, Seq<char>),
) -> bool {
    reaches(tasks, dependents, Seq::empty(), start, k)
}

/// A path that avoids `seen` is a path.
proof fn lemma_path_unblocked(
    tasks: Seq<(TaskKey, TaskRuntime)>,
    dependents: Seq<(TaskKey, Vec<DepEdge>)>,
    seen: Seq<(Seq<char>, Seq<char>)>,
    start: (Seq<char>, Seq<char>),
    p: Seq<(Seq<char>, Seq<char>)>,
)
    requires
        is_path(tasks, dependents, seen, start, p),
    ensures
        is_path(tasks, dependents, Seq::empty(), start, p),
{
}

/// Along a path from `start`, every key either is reached from `start` avoiding a
/// successor-closed `s`, or lies in `s`.
proof fn lemma_path_prefix_blocked_or_in(
    tasks: Seq<(TaskKey, TaskRuntime)>,
    dependents: Seq<(TaskKey, Vec<DepEdge>)>,
    s: Seq<(Seq<char>, Seq<char>)>,
    start: (Seq<char>, Seq<char>),
    p: Seq<(Seq<char>, Seq<char>)>,
    i: int,
)
    requires
        successor_closed(tasks, dependents, s),
        is_path(tasks, dependents, Seq::empty(), start, p),
        0 <= i < p.len(),
    ensures
        s.contains(p[i]) || is_path(tasks, dependents, s, start, p.take(i + 1)),
    decreases i,
{
    let e: Seq<(Seq<char>, Seq<char>)> = Seq::empty();
    if i == 0 {
        let q = p.take(1);
        assert(q[0] == start);
        assert forall|j: int| 0 <= j < q.len() - 1 implies !s.contains(#[trigger] q[j])
            && successors(tasks, dependents, q[j]).contains(q[j + 1]) by {}
    } else {
        lemma_path_prefix_blocked_or_in(tasks, dependents, s, start, p, i - 1);
        assert(!e.contains(p[i - 1]) && successors(tasks, dependents, p[i - 1]).contains(p[i]));
        if s.contains(p[i - 1]) {
            assert(s.contains(p[i]));
        } else if !s.contains(p[i]) {
            let q0 = p.take(i);
            let q = p.take(i + 1);
            assert forall|j: int| 0 <= j < q.len() - 1 implies !s.contains(#[trigger] q[j])
                && successors(tasks, dependents, q[j]).contains(q[j + 1]) by {
                if j < i - 1 {
                    assert(q0[j] == q[j] && q0[j + 1] == q[j + 1]);
                } else {
                    assert(q[j] == p[i - 1] && q[j + 1] == p[i]);
                }
            }
        }
    }
}

/// Outside a successor-closed set `s`, what is reached from `start` avoiding `s` is what
/// is reached from `start` at all.
pub proof fn lemma_closed_set_blocks_nothing(
    tasks: Seq<(TaskKey, TaskRuntime)>,
    dependents: Seq<(TaskKey, Vec<DepEdge>)>,
    s: Seq<(Seq<char>, Seq<char>)>,
    start: (Seq<char>, Seq<char>),
    k: (Seq<char>, Seq<char>),
)
    requires
        successor_closed(tasks, dependents, s),
    ensures
        (s.contains(k) || reaches(tasks, dependents, s, start, k)) <==> (s.contains(k)
            || reaches_freely(tasks, dependents, start, k)),
{
    if reaches(tasks, dependents, s, start, k) {
        let p = choose|p: Seq<(Seq<char>, Seq<char>)>| #[trigger]
            is_path(tasks, dependents, s, start, p) && p.last() == k;
        lemma_path_unblocked(tasks, dependents, s, start, p);
        assert(is_path(tasks, dependents, Seq::empty(), start, p) && p.last() == k);
    }
    if reaches_freely(tasks, dependents, start, k) && !s.contains(k) {
        let p = choose|p: Seq<(Seq<char>, Seq<char>)>| #[trigger]
            is_path(tasks, dependents, Seq::empty(), start, p) && p.last() == k;
        lemma_path_prefix_blocked_or_in(tasks, dependents, s, start, p, p.len() - 1);
        assert(p.take(p.len() as int) =~= p);
        assert(is_path(tasks, dependents, s, start, p) && p.last() == k);
    }
}

/// Adding to a successor-closed set what is reached from a key avoiding it keeps it
/// successor-closed.
pub proof fn lemma_closure_stays_closed(
    tasks: Seq<(TaskKey, TaskRuntime)>,
    dependents: Seq<(TaskKey, Vec<DepEdge>)>,
    s: Seq<(Seq<char>, Seq<char>)>,
    s2: Seq<(Seq<char>, Seq<char>)>,
    start: (Seq<char>, Seq<char>),
)
    requires
        successor_closed(tasks, dependents, s),
        forall|k: (Seq<char>, Seq<char>)|
            s2.contains(k) <==> (s.contains(k) || reaches(tasks, dependents, s, start, k)),
    ensures
        successor_closed(tasks, dependents, s2),
{
    assert forall|x: (Seq<char>, Seq<char>), y: (Seq<char>, Seq<char>)|
        s2.contains(x) && #[trigger] successors(tasks, dependents, x).contains(y) implies s2.contains(
        y) by {
        if !s.contains(x) {
            let p = choose|p: Seq<(Seq<char>, Seq<char>)>| #[trigger]
                is_path(tasks, dependents, s, start, p) && p.last() == x;
            let q = p.push(y);
            assert forall|j: int| 0 <= j < q.len() - 1 implies !s.contains(#[trigger] q[j])
                && successors(tasks, dependents, q[j]).contains(q[j + 1]) by {
                if j < p.len() - 1 {
                    assert(q[j] == p[j] && q[j + 1] == p[j + 1]);
                } else {
                    assert(q[j] == x && q[j + 1] == y);
                }
            }
            assert(is_path(tasks, dependents, s, start, q) && q.last() == y);
        }
    }
}

/// What a file-system event leads to: the tasks it hits directly, the tasks their changes
/// reach, and the actions on those, in dependency order.
pub struct FsEventPlan {
    pub direct: Vec<TaskKey>,
    pub run_set: Vec<TaskKey>,
    pub actions: Vec<RunAction>,
}

/// Plans a file-system event that changed `paths`: the tasks whose globs match a changed
/// path are hit directly, and the plan is the one [`plan_from_direct`] makes for them.
/// No task hit gives an empty plan.
pub fn plan_fs_event(
    watch_root: &str,
    paths: &Vec<String>,
    tasks: &Vec<(TaskKey, TaskRuntime)>,
    dependents: &Vec<(TaskKey, Vec<DepEdge>)>,
    topo_order: &Vec<TaskKey>,
    last_run: &Vec<(TaskKey, u64)>,
) -> (plan: FsEventPlan)
    ensures
        key_list_view(plan.direct@).no_duplicates(),
        forall|k: (Seq<char>, Seq<char>)|
            key_list_view(plan.direct@).contains(k) <==> is_direct_key(watch_root@, texts(paths@), tasks@, k),
        key_list_view(plan.run_set@).no_duplicates(),
        forall|k: (Seq<char>, Seq<char>)|
            key_list_view(plan.run_set@).contains(k) <==> exists|d: int|
                0 <= d < plan.direct@.len() && reaches_freely(tasks@, dependents@, #[trigger] plan.direct@[d]@, k),
        same_actions(
            plan.actions@,
            planned_actions(
                tasks@,
                dependents@,
                last_run@,
                key_list_view(plan.run_set@),
                key_list_view(plan.direct@),
                topo_order@,
            ),
        ),
        forall|k: (Seq<char>, Seq<char>)|
            key_list_view(topo_order@).contains(k) && key_list_view(plan.run_set@).contains(k)
                && key_list_view(plan.direct@).contains(k) && crate::tasks::keyed::key_position(tasks@, k) >= 0
                && tasks@[crate::tasks::keyed::key_position(tasks@, k)].1.valid ==> exists|i: int|
                0 <= i < plan.actions@.len() && (#[trigger] plan.actions@[i]) is Start
                    && crate::tasks::scheduler::action_key(plan.actions@[i]) == k,
{
    let direct = direct_tasks(watch_root, paths, tasks);
    plan_from_direct(direct, tasks, dependents, topo_order, last_run)
}

/// Plans the runs that follow from the tasks in `direct` changing: the run set is every
/// task reached from one of them (its own dependencies, and its dependents along edges
/// that re-run, and so on); the actions are those [`plan_runs`] gives for that run set
/// and the tasks of `direct`.
pub fn plan_from_direct(
    direct: Vec<TaskKey>,
    tasks: &Vec<(TaskKey, TaskRuntime)>,
    dependents: &Vec<(TaskKey, Vec<DepEdge>)>,
    topo_order: &Vec<TaskKey>,
    last_run: &Vec<(TaskKey, u64)>,
) -> (plan: FsEventPlan)
    requires
        key_list_view(direct@).no_duplicates(),
    ensures
        plan.direct@ == direct@,
        key_list_view(plan.run_set@).no_duplicates(),
        forall|k: (Seq<char>, Seq<char>)|
            key_list_view(plan.run_set@).contains(k) <==> exists|d: int|
                0 <= d < plan.direct@.len() && reaches_freely(tasks@, dependents@, #[trigger] plan.direct@[d]@, k),
        same_actions(
            plan.actions@,
            planned_actions(
                tasks@,
                dependents@,
                last_run@,
                key_list_view(plan.run_set@),
                key_list_view(plan.direct@),
                topo_order@,
            ),
        ),
        forall|k: (Seq<char>, Seq<char>)|
            key_list_view(topo_order@).contains(k) && key_list_view(plan.run_set@).contains(k)
                && key_list_view(plan.direct@).contains(k) && crate::tasks::keyed::key_position(tasks@, k) >= 0
                && tasks@[crate::tasks::keyed::key_position(tasks@, k)].1.valid ==> exists|i: int|
                0 <= i < plan.actions@.len() && (#[trigger] plan.actions@[i]) is Start
                    && crate::tasks::scheduler::action_key(plan.actions@[i]) == k,
{
    let mut run_set: Vec<TaskKey> = Vec::new();
    let mut direct_map: Vec<TaskKey> = Vec::new();
    if direct.len() == 0 {
        proof {
            assert(planned_actions(tasks@, dependents@, last_run@, key_list_view(run_set@), key_list_view(direct@), topo_order@).len() == 0) by {
                lemma_planned_empty(tasks@, dependents@, last_run@, key_list_view(run_set@), key_list_view(direct@), topo_order@);
            }
        }
        return FsEventPlan { direct, run_set, actions: Vec::new() };
    }
    let mut i: usize = 0;
    while i < direct.len()
        invariant
            i <= direct@.len(),
            key_list_view(direct@).no_duplicates(),
            key_list_view(run_set@).no_duplicates(),
            key_list_view(direct_map@).no_duplicates(),
            successor_closed(tasks@, dependents@, key_list_view(run_set@)),
            forall|k: (Seq<char>, Seq<char>)|
                key_list_view(run_set@).contains(k) <==> exists|d: int|
                    0 <= d < i && reaches_freely(tasks@, dependents@, #[trigger] direct@[d]@, k),
            forall|k: (Seq<char>, Seq<char>)|
                key_list_view(direct_map@).contains(k) <==> exists|d: int| 0 <= d < i && #[trigger] direct@[d]@ == k,
        decreases direct.len() - i,
    {
        let ghost s = key_list_view(run_set@);
        let ghost dm = key_list_view(direct_map@);
        let start = &direct[i];
        collect_closure(start, tasks, dependents, &mut run_set, &mut direct_map);
        proof {
            lemma_closure_stays_closed(tasks@, dependents@, s, key_list_view(run_set@), start@);
            assert forall|k: (Seq<char>, Seq<char>)|
                key_list_view(run_set@).contains(k) <==> exists|d: int|
                    0 <= d < i + 1 && reaches_freely(tasks@, dependents@, #[trigger] direct@[d]@, k) by {
                lemma_closed_set_blocks_nothing(tasks@, dependents@, s, start@, k);
                if exists|d: int| 0 <= d < i + 1 && reaches_freely(tasks@, dependents@, #[trigger] direct@[d]@, k) {
                    let d = choose|d: int| 0 <= d < i + 1 && reaches_freely(tasks@, dependents@, #[trigger] direct@[d]@, k);
                    if d < i {
                        assert(s.contains(k));
                    }
                }
                if reaches_freely(tasks@, dependents@, start@, k) {
                    assert(reaches_freely(tasks@, dependents@, direct@[i as int]@, k));
                }
            }
        }
        let ghost dm2 = key_list_view(direct_map@);
        if !list_has_key(&direct_map, start) {
            direct_map.push(start.duplicate());
            proof {
                assert(key_list_view(direct_map@) =~= dm2.push(start@));
                crate::seqs::lemma_no_dup_push(dm2, start@);
            }
        }
        proof {
            assert forall|k: (Seq<char>, Seq<char>)|
                key_list_view(direct_map@).contains(k) <==> exists|d: int| 0 <= d < i + 1 && #[trigger] direct@[d]@ == k by {
                crate::seqs::lemma_contains_push(dm2, start@, k);
                if exists|d: int| 0 <= d < i + 1 && #[trigger] direct@[d]@ == k {
                    let d = choose|d: int| 0 <= d < i + 1 && #[trigger] direct@[d]@ == k;
                    if d < i {
                        assert(dm.contains(k));
                    }
                }
                if dm2.contains(k) && !dm.contains(k) {
                    assert(k == start@);
                }
                if k == start@ {
                    assert(direct@[i as int]@ == k);
                }
            }
        }
        i = i + 1;
    }
    proof {
        assert forall|k: (Seq<char>, Seq<char>)| key_list_view(direct_map@).contains(k) <==> key_list_view(direct@).contains(k) by {
            if key_list_view(direct@).contains(k) {
                let d = choose|d: int| 0 <= d < key_list_view(direct@).len() && key_list_view(direct@)[d] == k;
                assert(direct@[d]@ == k);
            }
            if key_list_view(direct_map@).contains(k) {
                let d = choose|d: int| 0 <= d < direct@.len() && #[trigger] direct@[d]@ == k;
                assert(key_list_view(direct@)[d] == k);
            }
        }
        lemma_planned_same_members(tasks@, dependents@, last_run@, key_list_view(run_set@), key_list_view(direct_map@), key_list_view(direct@), topo_order@);
    }
    let actions = plan_runs(topo_order, &run_set, &direct_map, tasks, dependents, last_run);
    FsEventPlan { direct, run_set, actions }
}

/// With nothing in the run set, nothing is planned.
proof fn lemma_planned_empty(
    tasks: Seq<(TaskKey, TaskRuntime)>,
    dependents: Seq<(TaskKey, Vec<DepEdge>)>,
    last_run: Seq<(TaskKey, u64)>,
    run_set: Seq<(Seq<char>, Seq<char>)>,
    direct: Seq<(Seq<char>, Seq<char>)>,
    order: Seq<TaskKey>,
)
    requires
        run_set.len() == 0,
    ensures
        planned_actions(tasks, dependents, last_run, run_set, direct, order).len() == 0,
    decreases order.len(),
{
    if order.len() > 0 {
        lemma_planned_empty(tasks, dependents, last_run, run_set, direct, order.drop_last());
    }
}

/// Plans depend on the directly hit keys only through which keys they hold.
proof fn lemma_planned_same_members(
    tasks: Seq<(TaskKey, TaskRuntime)>,
    dependents: Seq<(TaskKey, Vec<DepEdge>)>,
    last_run: Seq<(TaskKey, u64)>,
    run_set: Seq<(Seq<char>, Seq<char>)>,
    d1: Seq<(Seq<char>, Seq<char>)>,
    d2: Seq<(Seq<char>, Seq<char>)>,
    order: Seq<TaskKey>,
)
    requires
        forall|k: (Seq<char>, Seq<char>)| d1.contains(k) <==> d2.contains(k),
    ensures
        planned_actions(tasks, dependents, last_run, run_set, d1, order) == planned_actions(
            tasks,
            dependents,
            last_run,
            run_set,
            d2,
            order,
        ),
    decreases order.len(),
{
    if order.len() > 0 {
        lemma_planned_same_members(tasks, dependents, last_run, run_set, d1, d2, order.drop_last());
        assert(d1.contains(order.last()@) == d2.contains(order.last()@));
    }
}

} // verus!
