//! Scheduling decisions of the task runner: dependency order, the set of tasks a change
//! reaches, which tasks to start, stop and restart.
use vstd::prelude::*;
use crate::tasks::db::{OnReload, ReloadEvent, ResolvedDep, Task, TaskKey, TaskSelection};
use crate::text::str_eq;
use crate::tasks::graph::{
    deps_first, distinct_nodes, is_dependency_order, resolved_view, well_resolved,
    dependency_order, lemma_distinct_len,
};
use crate::tasks::keyed::{
    find_key, key_list_view, key_position, keys_of, lemma_key_position, lemma_key_position_unique,
    lemma_key_position_same_keys, unique_keys,
};
use crate::tasks::globs::WatchGlobs;
use crate::tasks::db::{TaskDb, unique_names};
use crate::tasks::fs_events::{FsEventPlan, plan_fs_event};
use crate::tasks::tables::{
    build_tables, db_entries, tables_match, versions_of, versions_view,
};

verus! {

/// A task as the scheduler keeps it: its definition, its compiled watch globs, its
/// dependencies, whether it may run, whether it is persistent, and its re-run hashes.
pub struct TaskRuntime {
    pub task: Task,
    pub globset: WatchGlobs,
    pub deps: Vec<ResolvedDep>,
    pub valid: bool,
    pub persistent: bool,
    pub rerun_hash: u64,
    pub effective_hash: u64,
}

/// An edge from a task to one of the tasks that depend on it.
#[derive(Clone, Debug)]
pub struct DepEdge {
    pub to: TaskKey,
    pub on_reload: OnReload,
    pub upstream_persistent: bool,
    pub downstream_persistent: bool,
}

/// The dependency targets of every task of a table, by position.
pub open spec fn dep_targets(tasks: Seq<(TaskKey, TaskRuntime)>) -> Seq<Seq<(Seq<char>, Seq<char>)>> {
    tasks.map_values(|e: (TaskKey, TaskRuntime)| e.1.deps@.map_values(|d: ResolvedDep| d.target@))
}

/// `order` lists every key of the table once.
pub open spec fn is_key_arrangement(
    order: Seq<(Seq<char>, Seq<char>)>,
    keys: Seq<(Seq<char>, Seq<char>)>,
) -> bool {
    &&& order.len() == keys.len()
    &&& order.no_duplicates()
    &&& forall|p: int| 0 <= p < order.len() ==> keys.contains(#[trigger] order[p])
}

/// Every dependency of every listed task is a task listed before it.
pub open spec fn key_deps_first(
    order: Seq<(Seq<char>, Seq<char>)>,
    tasks: Seq<(TaskKey, TaskRuntime)>,
) -> bool {
    forall|p: int, t: int|
        0 <= p < order.len() && 0 <= t < dep_targets(tasks)[key_position(tasks, order[p])].len()
            ==> order.take(p).contains(
            #[trigger] dep_targets(tasks)[key_position(tasks, order[p])][t],
        )
}

/// Some order lists every task once and each after all of its dependencies.
pub open spec fn has_key_dependency_order(tasks: Seq<(TaskKey, TaskRuntime)>) -> bool {
    exists|o: Seq<(Seq<char>, Seq<char>)>|
        is_key_arrangement(o, keys_of(tasks)) && key_deps_first(o, tasks)
}

/// The dependencies of each task, resolved to the positions of their targets in the table.
fn resolve_deps(tasks: &Vec<(TaskKey, TaskRuntime)>) -> (res: Vec<Vec<Option<usize>>>)
    ensures
        res@.len() == tasks@.len(),
        forall|i: int|
            0 <= i < tasks@.len() ==> (#[trigger] res@[i])@.len() == dep_targets(tasks@)[i].len(),
        forall|i: int, t: int|
            0 <= i < tasks@.len() && 0 <= t < res@[i]@.len() ==> #[trigger] res@[i]@[t] == if key_position(
                tasks@,
                dep_targets(tasks@)[i][t],
            ) >= 0 {
                Some(key_position(tasks@, dep_targets(tasks@)[i][t]) as usize)
            } else {
                None
            },
        well_resolved(resolved_view(&res)),
{
    let mut res: Vec<Vec<Option<usize>>> = Vec::new();
    let mut i: usize = 0;
    while i < tasks.len()
        invariant
            i <= tasks.len(),
            res@.len() == i,
            forall|u: int|
                0 <= u < i ==> (#[trigger] res@[u])@.len() == dep_targets(tasks@)[u].len(),
            forall|u: int, t: int|
                0 <= u < i && 0 <= t < res@[u]@.len() ==> #[trigger] res@[u]@[t] == if key_position(
                    tasks@,
                    dep_targets(tasks@)[u][t],
                ) >= 0 {
                    Some(key_position(tasks@, dep_targets(tasks@)[u][t]) as usize)
                } else {
                    None
                },
        decreases tasks.len() - i,
    {
        let deps = &tasks[i].1.deps;
        let mut row: Vec<Option<usize>> = Vec::new();
        let mut t: usize = 0;
        while t < deps.len()
            invariant
                t <= deps.len(),
                i < tasks.len(),
                deps == &tasks@[i as int].1.deps,
                row@.len() == t,
                forall|s: int|
                    0 <= s < t ==> #[trigger] row@[s] == if key_position(
                        tasks@,
                        dep_targets(tasks@)[i as int][s],
                    ) >= 0 {
                        Some(key_position(tasks@, dep_targets(tasks@)[i as int][s]) as usize)
                    } else {
                        None
                    },
            decreases deps.len() - t,
        {
            let found = find_key(tasks, &deps[t].target);
            proof {
                assert(dep_targets(tasks@)[i as int][t as int] == deps@[t as int].target@);
            }
            row.push(found);
            t = t + 1;
        }
        res.push(row);
        i = i + 1;
    }
    proof {
        let r = resolved_view(&res);
        assert forall|i: int, t: int|
            0 <= i < r.len() && 0 <= t < r[i].len() implies (#[trigger] r[i][t] matches Some(j) ==> j
            < r.len()) by {
            lemma_key_position(tasks@, dep_targets(tasks@)[i][t]);
        }
    }
    res
}

/// Orders the tasks so that every task comes after the tasks it depends on. When no such
/// order exists (a cycle, or a dependency on a task absent from the table), the tasks are
/// returned in table order.
pub fn topo_sort(tasks: &Vec<(TaskKey, TaskRuntime)>) -> (order: Vec<TaskKey>)
    requires
        unique_keys(tasks@),
    ensures
        is_key_arrangement(key_list_view(order@), keys_of(tasks@)),
        has_key_dependency_order(tasks@) ==> key_deps_first(key_list_view(order@), tasks@),
        !has_key_dependency_order(tasks@) ==> key_list_view(order@) == keys_of(tasks@),
{
    let res = resolve_deps(tasks);
    let idx = dependency_order(&res);
    let ghost r = resolved_view(&res);
    let ghost keys = keys_of(tasks@);
    if idx.len() == tasks.len() {
        let mut order: Vec<TaskKey> = Vec::new();
        let mut p: usize = 0;
        while p < idx.len()
            invariant
                p <= idx.len(),
                idx.len() == tasks.len(),
                distinct_nodes(idx@, tasks@.len() as nat),
                order@.len() == p,
                forall|q: int| 0 <= q < p ==> (#[trigger] order@[q])@ == tasks@[idx@[q] as int].0@,
            decreases idx.len() - p,
        {
            order.push(tasks[idx[p]].0.duplicate());
            p = p + 1;
        }
        proof {
            let ov = key_list_view(order@);
            assert forall|q: int| 0 <= q < ov.len() implies ov[q] == keys[idx@[q] as int] by {}
            assert forall|a: int, b: int| 0 <= a < ov.len() && 0 <= b < ov.len() && a != b implies ov[a]
                != ov[b] by {
                assert(idx@[a] != idx@[b]);
            }
            assert forall|q: int| 0 <= q < ov.len() implies keys.contains(#[trigger] ov[q]) by {
                assert(keys[idx@[q] as int] == ov[q]);
            }
            assert forall|q: int, t: int|
                0 <= q < ov.len() && 0 <= t < dep_targets(tasks@)[key_position(tasks@, ov[q])].len()
                implies ov.take(q).contains(
                #[trigger] dep_targets(tasks@)[key_position(tasks@, ov[q])][t],
            ) by {
                let i = idx@[q] as int;
                lemma_key_position(tasks@, ov[q]);
                lemma_key_position_unique(tasks@, i);
                assert(key_position(tasks@, ov[q]) == i);
                assert(r[i][t] is Some);
                let target = dep_targets(tasks@)[i][t];
                let j = r[i][t]->0;
                assert(res@[i]@[t] == r[i][t]);
                lemma_key_position(tasks@, target);
                assert(tasks@[j as int].0@ == target);
                assert(idx@.take(q).contains(j));
                let w = choose|w: int| 0 <= w < idx@.take(q).len() && idx@.take(q)[w] == j;
                assert(ov.take(q)[w] == ov[w]);
                assert(ov[w] == keys[j as int]);
            }
            assert(is_key_arrangement(ov, keys));
            assert(key_deps_first(ov, tasks@));
            assert(has_key_dependency_order(tasks@));
        }
        order
    } else {
        let mut order: Vec<TaskKey> = Vec::new();
        let mut p: usize = 0;
        while p < tasks.len()
            invariant
                p <= tasks.len(),
                order@.len() == p,
                forall|q: int| 0 <= q < p ==> (#[trigger] order@[q])@ == tasks@[q].0@,
            decreases tasks.len() - p,
        {
            order.push(tasks[p].0.duplicate());
            p = p + 1;
        }
        proof {
            let ov = key_list_view(order@);
            assert(ov =~= keys);
            assert forall|a: int, b: int| 0 <= a < ov.len() && 0 <= b < ov.len() && a != b implies ov[a]
                != ov[b] by {}
            assert forall|q: int| 0 <= q < ov.len() implies keys.contains(#[trigger] ov[q]) by {
                assert(keys[q] == ov[q]);
            }
            if has_key_dependency_order(tasks@) {
                let o = choose|o: Seq<(Seq<char>, Seq<char>)>|
                    is_key_arrangement(o, keys_of(tasks@)) && key_deps_first(o, tasks@);
                lemma_key_order_gives_index_order(tasks@, &res, o);
                let io = o.map_values(|k: (Seq<char>, Seq<char>)| key_position(tasks@, k) as usize);
                assert(is_dependency_order(io, r));
                lemma_distinct_len(idx@, res@.len() as nat);
                assert(idx.len() < res.len());
                assert(false);
            }
        }
        order
    }
}

/// Positions of the table, listed so that each task comes after all of its dependencies,
/// which are listed too; every task left out has a dependency that is absent from the
/// table or left out as well (a task on a dependency cycle, or one that hangs on such a
/// task or on a missing one).
pub open spec fn is_release_order(tasks: Seq<(TaskKey, TaskRuntime)>, o: Seq<usize>) -> bool {
    &&& distinct_nodes(o, tasks.len())
    &&& forall|p: int, t: int|
        0 <= p < o.len() && 0 <= t < dep_targets(tasks)[o[p] as int].len() ==> {
            &&& key_position(tasks, #[trigger] dep_targets(tasks)[o[p] as int][t]) >= 0
            &&& o.take(p).contains(key_position(tasks, dep_targets(tasks)[o[p] as int][t]) as usize)
        }
    &&& forall|v: usize|
        v < tasks.len() && !o.contains(v) ==> exists|t: int|
            0 <= t < dep_targets(tasks)[v as int].len() && (key_position(
                tasks,
                #[trigger] dep_targets(tasks)[v as int][t],
            ) < 0 || !o.contains(key_position(tasks, dep_targets(tasks)[v as int][t]) as usize))
}

/// Releases the tasks of the table in dependency order, as far as that goes: a task is
/// released once all of its dependencies are; what never is released is left out.
pub fn release_order(tasks: &Vec<(TaskKey, TaskRuntime)>) -> (o: Vec<usize>)
    requires
        unique_keys(tasks@),
    ensures
        is_release_order(tasks@, o@),
{
    let res = resolve_deps(tasks);
    let idx = dependency_order(&res);
    proof {
        let r = resolved_view(&res);
        let d = dep_targets(tasks@);
        assert forall|p: int, t: int|
            0 <= p < idx@.len() && 0 <= t < d[idx@[p] as int].len() implies {
            &&& key_position(tasks@, #[trigger] d[idx@[p] as int][t]) >= 0
            &&& idx@.take(p).contains(key_position(tasks@, d[idx@[p] as int][t]) as usize)
        } by {
            let i = idx@[p] as int;
            assert(res@[i]@ == r[i]);
            assert(r[i][t] is Some);
            assert(res@[i]@[t] == r[i][t]);
        }
        assert forall|v: usize| v < tasks@.len() && !idx@.contains(v) implies exists|t: int|
            0 <= t < d[v as int].len() && (key_position(tasks@, #[trigger] d[v as int][t]) < 0
                || !idx@.contains(key_position(tasks@, d[v as int][t]) as usize)) by {
            let t = choose|t: int|
                0 <= t < r[v as int].len() && (#[trigger] r[v as int][t] is None || !idx@.contains(
                    r[v as int][t]->0,
                ));
            assert(res@[v as int]@ == r[v as int]);
            assert(res@[v as int]@[t] == r[v as int][t]);
            assert(key_position(tasks@, d[v as int][t]) < 0 || !idx@.contains(
                key_position(tasks@, d[v as int][t]) as usize,
            ));
        }
    }
    idx
}

/// A dependency order of the tasks' keys gives a dependency order of their positions.
proof fn lemma_key_order_gives_index_order(
    tasks: Seq<(TaskKey, TaskRuntime)>,
    res: &Vec<Vec<Option<usize>>>,
    o: Seq<(Seq<char>, Seq<char>)>,
)
    requires
        unique_keys(tasks),
        tasks.len() <= usize::MAX,
        is_key_arrangement(o, keys_of(tasks)),
        key_deps_first(o, tasks),
        res@.len() == tasks.len(),
        forall|i: int|
            0 <= i < tasks.len() ==> (#[trigger] res@[i])@.len() == dep_targets(tasks)[i].len(),
        forall|i: int, t: int|
            0 <= i < tasks.len() && 0 <= t < res@[i]@.len() ==> #[trigger] res@[i]@[t] == if key_position(
                tasks,
                dep_targets(tasks)[i][t],
            ) >= 0 {
                Some(key_position(tasks, dep_targets(tasks)[i][t]) as usize)
            } else {
                None
            },
    ensures
        is_dependency_order(
            o.map_values(|k: (Seq<char>, Seq<char>)| key_position(tasks, k) as usize),
            resolved_view(res),
        ),
{
    let r = resolved_view(res);
    let keys = keys_of(tasks);
    let idx = o.map_values(|k: (Seq<char>, Seq<char>)| key_position(tasks, k) as usize);
    assert forall|p: int| 0 <= p < o.len() implies {
        &&& 0 <= key_position(tasks, o[p]) < tasks.len()
        &&& tasks[key_position(tasks, o[p])].0@ == o[p]
    } by {
        assert(keys.contains(o[p]));
        let k = choose|k: int| 0 <= k < keys.len() && keys[k] == o[p];
        lemma_key_position(tasks, o[p]);
        assert(tasks[k].0@ == o[p]);
    }
    assert forall|p: int| 0 <= p < idx.len() implies #[trigger] idx[p] < r.len() by {}
    assert forall|a: int, b: int|
        0 <= a < idx.len() && 0 <= b < idx.len() && a != b implies idx[a] != idx[b] by {
        assert(o[a] != o[b]);
        assert(0 <= key_position(tasks, o[a]) < tasks.len());
        assert(0 <= key_position(tasks, o[b]) < tasks.len());
        assert(tasks[key_position(tasks, o[a])].0@ == o[a]);
        assert(tasks[key_position(tasks, o[b])].0@ == o[b]);
        assert(idx[a] == key_position(tasks, o[a]) as usize);
        assert(idx[b] == key_position(tasks, o[b]) as usize);
    }
    assert forall|p: int, t: int|
        0 <= p < idx.len() && 0 <= t < r[idx[p] as int].len() implies {
        &&& #[trigger] r[idx[p] as int][t] is Some
        &&& idx.take(p).contains(r[idx[p] as int][t]->0)
    } by {
        let i = idx[p] as int;
        assert(0 <= key_position(tasks, o[p]) < tasks.len());
        assert(idx[p] == key_position(tasks, o[p]) as usize);
        assert(key_position(tasks, o[p]) == i);
        let target = dep_targets(tasks)[i][t];
        assert(o.take(p).contains(target));
        let w = choose|w: int| 0 <= w < o.take(p).len() && o.take(p)[w] == target;
        assert(o[w] == target);
        lemma_key_position(tasks, target);
        assert(res@[i]@[t] == r[i][t]);
        assert(idx.take(p)[w] == idx[w]);
    }
}

/// The tasks a change of `k` reaches directly: the tasks `k` depends on, then the
/// dependents of `k` along edges that re-run (neither an edge between two persistent
/// tasks nor one marked to ignore reloads).
pub open spec fn successors(
    tasks: Seq<(TaskKey, TaskRuntime)>,
    dependents: Seq<(TaskKey, Vec<DepEdge>)>,
    k: (Seq<char>, Seq<char>),
) -> Seq<(Seq<char>, Seq<char>)> {
    (if key_position(tasks, k) >= 0 {
        dep_targets(tasks)[key_position(tasks, k)]
    } else {
        Seq::empty()
    }) + (if key_position(dependents, k) >= 0 {
        followed_edges(dependents[key_position(dependents, k)].1@)
    } else {
        Seq::empty()
    })
}

/// Whether a change propagates along an edge.
pub open spec fn edge_followed(e: DepEdge) -> bool {
    !(e.upstream_persistent && e.downstream_persistent) && e.on_reload != OnReload::Ignore
}

/// The targets of the edges a change propagates along, in order.
pub open spec fn followed_edges(edges: Seq<DepEdge>) -> Seq<(Seq<char>, Seq<char>)>
    decreases edges.len(),
{
    if edges.len() == 0 {
        Seq::empty()
    } else if edge_followed(edges.last()) {
        followed_edges(edges.drop_last()).push(edges.last().to@)
    } else {
        followed_edges(edges.drop_last())
    }
}

/// `p` leads from `start` to its last key, each step to a successor, and no key before
/// the last is in `seen`.
pub open spec fn is_path(
    tasks: Seq<(TaskKey, TaskRuntime)>,
    dependents: Seq<(TaskKey, Vec<DepEdge>)>,
    seen: Seq<(Seq<char>, Seq<char>)>,
    start: (Seq<char>, Seq<char>),
    p: Seq<(Seq<char>, Seq<char>)>,
) -> bool {
    &&& p.len() >= 1
    &&& p[0] == start
    &&& forall|i: int|
        0 <= i < p.len() - 1 ==> !seen.contains(#[trigger] p[i]) && successors(
            tasks,
            dependents,
            p[i],
        ).contains(p[i + 1])
}

/// `k` is reached from `start` without passing through a key of `seen`.
pub open spec fn reaches(
    tasks: Seq<(TaskKey, TaskRuntime)>,
    dependents: Seq<(TaskKey, Vec<DepEdge>)>,
    seen: Seq<(Seq<char>, Seq<char>)>,
    start: (Seq<char>, Seq<char>),
    k: (Seq<char>, Seq<char>),
) -> bool {
    exists|p: Seq<(Seq<char>, Seq<char>)>| #[trigger]
        is_path(tasks, dependents, seen, start, p) && p.last() == k
}

/// All dependency targets of all tasks.
pub open spec fn all_dep_targets(tasks: Seq<(TaskKey, TaskRuntime)>) -> Set<(Seq<char>, Seq<char>)>
    decreases tasks.len(),
{
    if tasks.len() == 0 {
        Set::empty()
    } else {
        all_dep_targets(tasks.drop_last()).union(
            tasks.last().1.deps@.map_values(|d: ResolvedDep| d.target@).to_set(),
        )
    }
}

/// All targets of all dependent edges.
pub open spec fn all_edge_targets(dependents: Seq<(TaskKey, Vec<DepEdge>)>) -> Set<(Seq<char>, Seq<char>)>
    decreases dependents.len(),
{
    if dependents.len() == 0 {
        Set::empty()
    } else {
        all_edge_targets(dependents.drop_last()).union(
            dependents.last().1@.map_values(|e: DepEdge| e.to@).to_set(),
        )
    }
}

proof fn lemma_all_dep_targets(tasks: Seq<(TaskKey, TaskRuntime)>)
    ensures
        all_dep_targets(tasks).finite(),
        forall|i: int, t: int|
            0 <= i < tasks.len() && 0 <= t < dep_targets(tasks)[i].len() ==> all_dep_targets(
                tasks,
            ).contains(#[trigger] dep_targets(tasks)[i][t]),
    decreases tasks.len(),
{
    if tasks.len() > 0 {
        let front = tasks.drop_last();
        lemma_all_dep_targets(front);
        let last_targets = tasks.last().1.deps@.map_values(|d: ResolvedDep| d.target@);
        assert forall|i: int, t: int|
            0 <= i < tasks.len() && 0 <= t < dep_targets(tasks)[i].len() implies all_dep_targets(
            tasks,
        ).contains(#[trigger] dep_targets(tasks)[i][t]) by {
            if i < front.len() {
                assert(dep_targets(tasks)[i] == dep_targets(front)[i]);
            } else {
                assert(dep_targets(tasks)[i] == last_targets);
                assert(last_targets.contains(last_targets[t]));
            }
        }
    }
}

proof fn lemma_all_edge_targets(dependents: Seq<(TaskKey, Vec<DepEdge>)>)
    ensures
        all_edge_targets(dependents).finite(),
        forall|i: int, t: int|
            0 <= i < dependents.len() && 0 <= t < dependents[i].1@.len() ==> all_edge_targets(
                dependents,
            ).contains(#[trigger] dependents[i].1@[t].to@),
    decreases dependents.len(),
{
    if dependents.len() > 0 {
        let front = dependents.drop_last();
        lemma_all_edge_targets(front);
        let last_targets = dependents.last().1@.map_values(|e: DepEdge| e.to@);
        assert forall|i: int, t: int|
            0 <= i < dependents.len() && 0 <= t < dependents[i].1@.len() implies all_edge_targets(
            dependents,
        ).contains(#[trigger] dependents[i].1@[t].to@) by {
            if i < front.len() {
                assert(dependents[i] == front[i]);
            } else {
                assert(last_targets[t] == dependents[i].1@[t].to@);
                assert(last_targets.contains(last_targets[t]));
            }
        }
    }
}

proof fn lemma_followed_edges_in(edges: Seq<DepEdge>, x: (Seq<char>, Seq<char>))
    requires
        followed_edges(edges).contains(x),
    ensures
        exists|t: int| 0 <= t < edges.len() && #[trigger] edges[t].to@ == x,
    decreases edges.len(),
{
    let front = edges.drop_last();
    if followed_edges(front).contains(x) {
        lemma_followed_edges_in(front, x);
        let t = choose|t: int| 0 <= t < front.len() && #[trigger] front[t].to@ == x;
        assert(edges[t] == front[t]);
    } else {
        let f = followed_edges(edges);
        let q = choose|q: int| 0 <= q < f.len() && f[q] == x;
        if edge_followed(edges.last()) {
            if q < followed_edges(front).len() {
                assert(followed_edges(front)[q] == x);
            }
            assert(edges[edges.len() - 1].to@ == x);
        } else {
            assert(followed_edges(front)[q] == x);
        }
    }
}

/// The keys a closure search may ever meet.
pub open spec fn closure_universe(
    tasks: Seq<(TaskKey, TaskRuntime)>,
    dependents: Seq<(TaskKey, Vec<DepEdge>)>,
    start: (Seq<char>, Seq<char>),
) -> Set<(Seq<char>, Seq<char>)> {
    all_dep_targets(tasks).union(all_edge_targets(dependents)).insert(start)
}

proof fn lemma_successors_in_universe(
    tasks: Seq<(TaskKey, TaskRuntime)>,
    dependents: Seq<(TaskKey, Vec<DepEdge>)>,
    start: (Seq<char>, Seq<char>),
    k: (Seq<char>, Seq<char>),
)
    ensures
        closure_universe(tasks, dependents, start).finite(),
        forall|y: (Seq<char>, Seq<char>)|
            #[trigger] successors(tasks, dependents, k).contains(y) ==> closure_universe(
                tasks,
                dependents,
                start,
            ).contains(y),
{
    lemma_all_dep_targets(tasks);
    lemma_all_edge_targets(dependents);
    lemma_key_position(tasks, k);
    lemma_key_position(dependents, k);
    let a = if key_position(tasks, k) >= 0 {
        dep_targets(tasks)[key_position(tasks, k)]
    } else {
        Seq::empty()
    };
    let b = if key_position(dependents, k) >= 0 {
        followed_edges(dependents[key_position(dependents, k)].1@)
    } else {
        Seq::empty()
    };
    assert forall|y: (Seq<char>, Seq<char>)|
        #[trigger] successors(tasks, dependents, k).contains(y) implies closure_universe(
        tasks,
        dependents,
        start,
    ).contains(y) by {
        let s = successors(tasks, dependents, k);
        assert(s == a + b);
        let q = choose|q: int| 0 <= q < s.len() && s[q] == y;
        if q < a.len() {
            assert(a[q] == y);
            assert(dep_targets(tasks)[key_position(tasks, k)][q] == y);
        } else {
            assert(b[q - a.len()] == y);
            assert(b.contains(y));
            let edges = dependents[key_position(dependents, k)].1@;
            lemma_followed_edges_in(edges, y);
            let t = choose|t: int| 0 <= t < edges.len() && #[trigger] edges[t].to@ == y;
            assert(dependents[key_position(dependents, k)].1@[t].to@ == y);
        }
    }
}

/// Along a path whose keys before the last lie outside `seen`, a set that holds the
/// start and is closed under successors of its keys outside `seen` holds every key.
proof fn lemma_path_stays_in(
    tasks: Seq<(TaskKey, TaskRuntime)>,
    dependents: Seq<(TaskKey, Vec<DepEdge>)>,
    seen: Seq<(Seq<char>, Seq<char>)>,
    start: (Seq<char>, Seq<char>),
    p: Seq<(Seq<char>, Seq<char>)>,
    closed: Seq<(Seq<char>, Seq<char>)>,
    i: int,
)
    requires
        is_path(tasks, dependents, seen, start, p),
        closed.contains(start),
        forall|z: (Seq<char>, Seq<char>), y: (Seq<char>, Seq<char>)|
            closed.contains(z) && !seen.contains(z) && #[trigger] successors(
                tasks,
                dependents,
                z,
            ).contains(y) ==> #[trigger] closed.contains(y),
        0 <= i < p.len(),
    ensures
        closed.contains(p[i]),
    decreases i,
{
    if i > 0 {
        lemma_path_stays_in(tasks, dependents, seen, start, p, closed, i - 1);
        assert(!seen.contains(p[i - 1]));
        assert(successors(tasks, dependents, p[i - 1]).contains(p[i - 1 + 1]));
    }
}


/// The views of a list of keys, as a set.
pub open spec fn key_set(v: Seq<TaskKey>) -> Set<(Seq<char>, Seq<char>)> {
    key_list_view(v).to_set()
}

/// Pushes the successors of `key` onto the stack, in order.
fn push_successors(
    key: &TaskKey,
    tasks: &Vec<(TaskKey, TaskRuntime)>,
    dependents: &Vec<(TaskKey, Vec<DepEdge>)>,
    stack: &mut Vec<TaskKey>,
)
    ensures
        key_list_view(final(stack)@) == key_list_view(old(stack)@) + successors(
            tasks@,
            dependents@,
            key@,
        ),
{
    let ghost start_stack = key_list_view(stack@);
    let ghost dep_part: Seq<(Seq<char>, Seq<char>)> = if key_position(tasks@, key@) >= 0 {
        dep_targets(tasks@)[key_position(tasks@, key@)]
    } else {
        Seq::empty()
    };
    let ghost edge_part: Seq<(Seq<char>, Seq<char>)> = if key_position(dependents@, key@) >= 0 {
        followed_edges(dependents@[key_position(dependents@, key@)].1@)
    } else {
        Seq::empty()
    };
    proof {
        lemma_key_position(tasks@, key@);
        lemma_key_position(dependents@, key@);
    }
    match find_key(tasks, key) {
        Some(ti) => {
            let deps = &tasks[ti].1.deps;
            let mut t: usize = 0;
            while t < deps.len()
                invariant
                    t <= deps.len(),
                    ti < tasks.len(),
                    deps == &tasks@[ti as int].1.deps,
                    dep_part == dep_targets(tasks@)[ti as int],
                    key_list_view(stack@) == start_stack + dep_part.take(t as int),
                decreases deps.len() - t,
            {
                let ghost before = stack@;
                stack.push(deps[t].target.duplicate());
                proof {
                    assert(dep_part[t as int] == deps@[t as int].target@);
                    assert(key_list_view(stack@) =~= key_list_view(before).push(deps@[t as int].target@));
                    assert(dep_part.take(t + 1) =~= dep_part.take(t as int).push(dep_part[t as int]));
                    assert(key_list_view(stack@) =~= start_stack + dep_part.take(t + 1));
                }
                t = t + 1;
            }
            proof {
                assert(dep_part.take(deps.len() as int) =~= dep_part);
            }
        },
        None => {
            proof {
                assert(key_list_view(stack@) =~= start_stack + dep_part);
            }
        },
    }
    let ghost mid_stack = key_list_view(stack@);
    match find_key(dependents, key) {
        Some(di) => {
            let edges = &dependents[di].1;
            let mut e: usize = 0;
            while e < edges.len()
                invariant
                    e <= edges.len(),
                    di < dependents.len(),
                    edges == &dependents@[di as int].1,
                    edge_part == followed_edges(edges@),
                    key_list_view(stack@) == mid_stack + followed_edges(edges@.take(e as int)),
                decreases edges.len() - e,
            {
                proof {
                    assert(edges@.take(e + 1).drop_last() =~= edges@.take(e as int));
                }
                let ghost before = stack@;
                proof {
                    assert(edges@.take(e + 1).last() == edges@[e as int]);
                }
                if !(edges[e].upstream_persistent && edges[e].downstream_persistent)
                    && edges[e].on_reload != OnReload::Ignore {
                    stack.push(edges[e].to.duplicate());
                    proof {
                        assert(key_list_view(stack@) =~= key_list_view(before).push(edges@[e as int].to@));
                    }
                }
                proof {
                    assert(key_list_view(stack@) =~= mid_stack + followed_edges(edges@.take(e + 1)));
                }
                e = e + 1;
            }
            proof {
                assert(edges@.take(edges.len() as int) =~= edges@);
            }
        },
        None => {
            proof {
                assert(key_list_view(stack@) =~= mid_stack + edge_part);
            }
        },
    }
    assert(key_list_view(stack@) =~= start_stack + successors(tasks@, dependents@, key@));
}

/// The search state of [`collect_closure`] is sound and on its way to completeness.
pub open spec fn closure_state(
    tasks: Seq<(TaskKey, TaskRuntime)>,
    dependents: Seq<(TaskKey, Vec<DepEdge>)>,
    seen: Seq<(Seq<char>, Seq<char>)>,
    start: (Seq<char>, Seq<char>),
    run: Seq<(Seq<char>, Seq<char>)>,
    stack: Seq<(Seq<char>, Seq<char>)>,
) -> bool {
    &&& run.no_duplicates()
    &&& forall|x: (Seq<char>, Seq<char>)| seen.contains(x) ==> #[trigger] run.contains(x)
    &&& forall|x: (Seq<char>, Seq<char>)|
        #[trigger] run.contains(x) && !seen.contains(x) ==> reaches(tasks, dependents, seen, start, x)
    &&& forall|x: (Seq<char>, Seq<char>)|
        #[trigger] stack.contains(x) ==> reaches(tasks, dependents, seen, start, x)
    &&& forall|x: (Seq<char>, Seq<char>), y: (Seq<char>, Seq<char>)|
        run.contains(x) && !seen.contains(x) && #[trigger] successors(tasks, dependents, x).contains(
            y,
        ) ==> run.contains(y) || stack.contains(y)
    &&& run.contains(start) || stack.contains(start)
}

/// Every key the search holds lies in the universe.
pub open spec fn within(
    univ: Set<(Seq<char>, Seq<char>)>,
    s: Seq<(Seq<char>, Seq<char>)>,
) -> bool {
    forall|x: (Seq<char>, Seq<char>)| #[trigger] s.contains(x) ==> univ.contains(x)
}

/// Dropping a popped key that is already in the run set keeps the search state.
proof fn lemma_closure_skip(
    tasks: Seq<(TaskKey, TaskRuntime)>,
    dependents: Seq<(TaskKey, Vec<DepEdge>)>,
    seen: Seq<(Seq<char>, Seq<char>)>,
    start: (Seq<char>, Seq<char>),
    run: Seq<(Seq<char>, Seq<char>)>,
    stack: Seq<(Seq<char>, Seq<char>)>,
    key: (Seq<char>, Seq<char>),
)
    requires
        closure_state(tasks, dependents, seen, start, run, stack.push(key)),
        run.contains(key),
    ensures
        closure_state(tasks, dependents, seen, start, run, stack),
{
    assert forall|x: (Seq<char>, Seq<char>)| #[trigger] stack.contains(x) implies reaches(
        tasks,
        dependents,
        seen,
        start,
        x,
    ) by {
        crate::seqs::lemma_contains_push(stack, key, x);
    }
    assert forall|x: (Seq<char>, Seq<char>), y: (Seq<char>, Seq<char>)|
        run.contains(x) && !seen.contains(x) && #[trigger] successors(tasks, dependents, x).contains(
            y,
        ) implies run.contains(y) || stack.contains(y) by {
        crate::seqs::lemma_contains_push(stack, key, y);
    }
    crate::seqs::lemma_contains_push(stack, key, start);
}

/// Adding a popped key that is new to the run set, then pushing its successors, keeps the
/// search state.
proof fn lemma_closure_add(
    tasks: Seq<(TaskKey, TaskRuntime)>,
    dependents: Seq<(TaskKey, Vec<DepEdge>)>,
    seen: Seq<(Seq<char>, Seq<char>)>,
    start: (Seq<char>, Seq<char>),
    run: Seq<(Seq<char>, Seq<char>)>,
    stack: Seq<(Seq<char>, Seq<char>)>,
    key: (Seq<char>, Seq<char>),
)
    requires
        closure_state(tasks, dependents, seen, start, run, stack.push(key)),
        !run.contains(key),
    ensures
        !seen.contains(key),
        closure_state(
            tasks,
            dependents,
            seen,
            start,
            run.push(key),
            stack + successors(tasks, dependents, key),
        ),
{
    let run2 = run.push(key);
    let succ = successors(tasks, dependents, key);
    let stack2 = stack + succ;
    crate::seqs::lemma_contains_push(stack, key, key);
    assert(reaches(tasks, dependents, seen, start, key));
    let key_path = choose|p: Seq<(Seq<char>, Seq<char>)>|
        #[trigger] is_path(tasks, dependents, seen, start, p) && p.last() == key;
    crate::seqs::lemma_no_dup_push(run, key);
    assert forall|x: (Seq<char>, Seq<char>)| seen.contains(x) implies #[trigger] run2.contains(x) by {
        crate::seqs::lemma_contains_push(run, key, x);
    }
    assert forall|x: (Seq<char>, Seq<char>)|
        #[trigger] run2.contains(x) && !seen.contains(x) implies reaches(
        tasks,
        dependents,
        seen,
        start,
        x,
    ) by {
        crate::seqs::lemma_contains_push(run, key, x);
    }
    assert forall|y: (Seq<char>, Seq<char>)| #[trigger] succ.contains(y) implies reaches(
        tasks,
        dependents,
        seen,
        start,
        y,
    ) by {
        let p2 = key_path.push(y);
        assert forall|i: int| 0 <= i < p2.len() - 1 implies !seen.contains(#[trigger] p2[i])
            && successors(tasks, dependents, p2[i]).contains(p2[i + 1]) by {
            if i < key_path.len() - 1 {
                assert(p2[i] == key_path[i]);
                assert(p2[i + 1] == key_path[i + 1]);
            } else {
                assert(p2[i] == key);
                assert(p2[i + 1] == y);
            }
        }
        assert(is_path(tasks, dependents, seen, start, p2));
        assert(p2.last() == y);
    }
    assert forall|x: (Seq<char>, Seq<char>)| #[trigger] stack2.contains(x) implies reaches(
        tasks,
        dependents,
        seen,
        start,
        x,
    ) by {
        crate::seqs::lemma_contains_concat(stack, succ, x);
        crate::seqs::lemma_contains_push(stack, key, x);
    }
    assert forall|x: (Seq<char>, Seq<char>), y: (Seq<char>, Seq<char>)|
        run2.contains(x) && !seen.contains(x) && #[trigger] successors(tasks, dependents, x).contains(
            y,
        ) implies run2.contains(y) || stack2.contains(y) by {
        crate::seqs::lemma_contains_push(run, key, x);
        crate::seqs::lemma_contains_push(run, key, y);
        crate::seqs::lemma_contains_concat(stack, succ, y);
        crate::seqs::lemma_contains_push(stack, key, y);
    }
    crate::seqs::lemma_contains_push(run, key, start);
    crate::seqs::lemma_contains_concat(stack, succ, start);
    crate::seqs::lemma_contains_push(stack, key, start);
}

/// With the stack empty, the run set holds exactly what it held before and what the
/// search reaches.
proof fn lemma_closure_done(
    tasks: Seq<(TaskKey, TaskRuntime)>,
    dependents: Seq<(TaskKey, Vec<DepEdge>)>,
    seen: Seq<(Seq<char>, Seq<char>)>,
    start: (Seq<char>, Seq<char>),
    run: Seq<(Seq<char>, Seq<char>)>,
)
    requires
        closure_state(tasks, dependents, seen, start, run, Seq::empty()),
    ensures
        forall|k: (Seq<char>, Seq<char>)|
            run.contains(k) <==> (seen.contains(k) || reaches(tasks, dependents, seen, start, k)),
        (exists|x: (Seq<char>, Seq<char>)| #[trigger] run.contains(x) && !seen.contains(x))
            <==> !seen.contains(start),
{
    assert forall|k: (Seq<char>, Seq<char>)|
        run.contains(k) <==> (seen.contains(k) || reaches(tasks, dependents, seen, start, k)) by {
        if reaches(tasks, dependents, seen, start, k) {
            let p = choose|p: Seq<(Seq<char>, Seq<char>)>|
                #[trigger] is_path(tasks, dependents, seen, start, p) && p.last() == k;
            assert forall|z: (Seq<char>, Seq<char>), y: (Seq<char>, Seq<char>)|
                run.contains(z) && !seen.contains(z) && #[trigger] successors(
                    tasks,
                    dependents,
                    z,
                ).contains(y) implies #[trigger] run.contains(y) by {
                assert(!Seq::<(Seq<char>, Seq<char>)>::empty().contains(y));
            }
            assert(!Seq::<(Seq<char>, Seq<char>)>::empty().contains(start));
            lemma_path_stays_in(tasks, dependents, seen, start, p, run, p.len() - 1);
        }
    }
    if exists|x: (Seq<char>, Seq<char>)| #[trigger] run.contains(x) && !seen.contains(x) {
        let x = choose|x: (Seq<char>, Seq<char>)| #[trigger] run.contains(x) && !seen.contains(x);
        if seen.contains(start) {
            let p = choose|p: Seq<(Seq<char>, Seq<char>)>|
                #[trigger] is_path(tasks, dependents, seen, start, p) && p.last() == x;
            if p.len() > 1 {
                assert(!seen.contains(p[0]));
            }
        }
    }
    if !seen.contains(start) {
        assert(!Seq::<(Seq<char>, Seq<char>)>::empty().contains(start));
        assert(run.contains(start));
    }
}

/// Adds to `run_set` every task a change of `start` reaches: the tasks it depends on and,
/// along edges that re-run, the tasks depending on it, and so on from each task newly
/// added. Keys already in `run_set` are not searched from again. When `start` itself is
/// newly added, it is recorded in `direct`.
pub fn collect_closure(
    start: &TaskKey,
    tasks: &Vec<(TaskKey, TaskRuntime)>,
    dependents: &Vec<(TaskKey, Vec<DepEdge>)>,
    run_set: &mut Vec<TaskKey>,
    direct: &mut Vec<TaskKey>,
)
    requires
        key_list_view(old(run_set)@).no_duplicates(),
        key_list_view(old(direct)@).no_duplicates(),
    ensures
        key_list_view(final(run_set)@).no_duplicates(),
        key_list_view(final(direct)@).no_duplicates(),
        forall|k: (Seq<char>, Seq<char>)|
            key_list_view(final(run_set)@).contains(k) <==> (key_list_view(old(run_set)@).contains(k)
                || reaches(tasks@, dependents@, key_list_view(old(run_set)@), start@, k)),
        forall|k: (Seq<char>, Seq<char>)|
            key_list_view(final(direct)@).contains(k) <==> (key_list_view(old(direct)@).contains(k)
                || (k == start@ && !key_list_view(old(run_set)@).contains(start@))),
{
    let ghost seen = key_list_view(run_set@);
    let ghost d0 = key_list_view(direct@);
    let ghost univ = closure_universe(tasks@, dependents@, start@).union(seen.to_set());
    let mut stack: Vec<TaskKey> = Vec::new();
    stack.push(start.duplicate());
    proof {
        lemma_successors_in_universe(tasks@, dependents@, start@, start@);
        let p0 = seq![start@];
        assert(is_path(tasks@, dependents@, seen, start@, p0));
        assert(p0.last() == start@);
        assert(key_list_view(stack@) =~= seq![start@]);
        assert(key_list_view(stack@)[0] == start@);
        assert forall|x: (Seq<char>, Seq<char>)| #[trigger] key_list_view(stack@).contains(x)
            implies reaches(tasks@, dependents@, seen, start@, x) by {
            assert(x == start@);
        }
        assert forall|x: (Seq<char>, Seq<char>)| #[trigger] key_list_view(stack@).contains(x)
            implies univ.contains(x) by {
            assert(x == start@);
        }
        assert forall|x: (Seq<char>, Seq<char>)| #[trigger] key_list_view(run_set@).contains(x)
            implies univ.contains(x) by {
            assert(seen.to_set().contains(x));
        }
    }
    let ghost mut any_new = false;
    loop
        invariant
            univ == closure_universe(tasks@, dependents@, start@).union(seen.to_set()),
            univ.finite(),
            closure_state(tasks@, dependents@, seen, start@, key_list_view(run_set@), key_list_view(stack@)),
            within(univ, key_list_view(run_set@)),
            within(univ, key_list_view(stack@)),
            key_list_view(direct@).no_duplicates(),
            any_new <==> exists|x: (Seq<char>, Seq<char>)|
                #[trigger] key_list_view(run_set@).contains(x) && !seen.contains(x),
            forall|x: (Seq<char>, Seq<char>)|
                #[trigger] key_list_view(direct@).contains(x) <==> (d0.contains(x) || (x == start@
                    && any_new)),
        ensures
            key_list_view(run_set@).no_duplicates(),
            key_list_view(direct@).no_duplicates(),
            forall|k: (Seq<char>, Seq<char>)|
                key_list_view(run_set@).contains(k) <==> (seen.contains(k) || reaches(
                    tasks@,
                    dependents@,
                    seen,
                    start@,
                    k,
                )),
            forall|k: (Seq<char>, Seq<char>)|
                key_list_view(direct@).contains(k) <==> (d0.contains(k) || (k == start@
                    && !seen.contains(start@))),
        decreases univ.difference(key_set(run_set@)).len(), stack.len(),
    {
        let ghost stack_before = stack@;
        let ghost run_before = run_set@;
        match stack.pop() {
            None => {
                proof {
                    assert(key_list_view(stack@) =~= Seq::<(Seq<char>, Seq<char>)>::empty());
                    lemma_closure_done(tasks@, dependents@, seen, start@, key_list_view(run_set@));
                }
                break ;
            },
            Some(key) => {
                proof {
                    assert(key_list_view(stack_before) =~= key_list_view(stack@).push(key@));
                }
                if crate::tasks::keyed::list_has_key(run_set, &key) {
                    proof {
                        lemma_closure_skip(
                            tasks@,
                            dependents@,
                            seen,
                            start@,
                            key_list_view(run_set@),
                            key_list_view(stack@),
                            key@,
                        );
                        assert forall|x: (Seq<char>, Seq<char>)| #[trigger] key_list_view(stack@).contains(x)
                            implies univ.contains(x) by {
                            crate::seqs::lemma_contains_push(key_list_view(stack@), key@, x);
                        }
                    }
                    continue;
                }
                proof {
                    lemma_closure_add(
                        tasks@,
                        dependents@,
                        seen,
                        start@,
                        key_list_view(run_set@),
                        key_list_view(stack@),
                        key@,
                    );
                    crate::seqs::lemma_contains_push(key_list_view(stack@), key@, key@);
                    assert(univ.contains(key@));
                }
                let ghost stack_mid = stack@;
                run_set.push(key.duplicate());
                push_successors(&key, tasks, dependents, &mut stack);
                proof {
                    let rb = key_list_view(run_before);
                    assert(key_list_view(run_set@) =~= rb.push(key@));
                    assert(key_set(run_set@) =~= key_set(run_before).insert(key@)) by {
                        assert forall|x: (Seq<char>, Seq<char>)| key_set(run_set@).contains(x) <==> key_set(run_before).insert(key@).contains(x) by {
                            crate::seqs::lemma_contains_push(rb, key@, x);
                        }
                    }
                    assert(!key_set(run_before).contains(key@));
                    assert(univ.difference(key_set(run_set@)) =~= univ.difference(key_set(run_before)).remove(key@));
                    vstd::set_lib::lemma_set_subset_finite(univ, univ.difference(key_set(run_before)));
                    assert(univ.difference(key_set(run_before)).contains(key@));
                    lemma_successors_in_universe(tasks@, dependents@, start@, key@);
                    let sm = key_list_view(stack_mid);
                    let succ = successors(tasks@, dependents@, key@);
                    assert forall|x: (Seq<char>, Seq<char>)| #[trigger] key_list_view(stack@).contains(x)
                        implies univ.contains(x) by {
                        crate::seqs::lemma_contains_concat(sm, succ, x);
                        crate::seqs::lemma_contains_push(sm, key@, x);
                    }
                    assert forall|x: (Seq<char>, Seq<char>)| #[trigger] key_list_view(run_set@).contains(x)
                        implies univ.contains(x) by {
                        crate::seqs::lemma_contains_push(rb, key@, x);
                    }
                }
                let ghost direct_before = key_list_view(direct@);
                if !crate::tasks::keyed::list_has_key(direct, start) {
                    direct.push(start.duplicate());
                    proof {
                        assert(key_list_view(direct@) =~= direct_before.push(start@));
                        crate::seqs::lemma_no_dup_push(direct_before, start@);
                    }
                }
                proof {
                    any_new = true;
                    crate::seqs::lemma_contains_push(key_list_view(run_before), key@, key@);
                    assert(key_list_view(run_set@).contains(key@) && !seen.contains(key@));
                    assert forall|x: (Seq<char>, Seq<char>)|
                        #[trigger] key_list_view(direct@).contains(x) <==> (d0.contains(x) || (x
                            == start@ && any_new)) by {
                        crate::seqs::lemma_contains_push(direct_before, start@, x);
                    }
                }
            },
        }
    }
}

/// What the scheduler does with a task its run set reaches.
#[derive(Clone, Debug)]
pub enum RunAction {
    /// The task is marked invalid and is skipped (and reported).
    SkipInvalid(TaskKey),
    /// The task is started.
    Start(TaskKey),
}

/// The action for one key of the run set, if any: keys absent from the table are passed
/// over; invalid tasks are skipped; a task reached only through its dependencies is passed
/// over when its re-run hash is the one it last ran with, or when one of its own edges to
/// itself joins two persistent tasks; every other task is started.
pub open spec fn run_action_for(
    tasks: Seq<(TaskKey, TaskRuntime)>,
    dependents: Seq<(TaskKey, Vec<DepEdge>)>,
    last_run: Seq<(TaskKey, u64)>,
    direct: Seq<(Seq<char>, Seq<char>)>,
    key: TaskKey,
) -> Option<RunAction> {
    let tp = key_position(tasks, key@);
    if tp < 0 {
        None
    } else {
        let task = tasks[tp].1;
        let last: u64 = if key_position(last_run, key@) >= 0 {
            last_run[key_position(last_run, key@)].1
        } else {
            0
        };
        let is_direct = direct.contains(key@);
        if !task.valid {
            Some(RunAction::SkipInvalid(key))
        } else if !is_direct && last == task.rerun_hash {
            None
        } else if !is_direct && key_position(dependents, key@) >= 0 && self_edge_between_persistents(
            dependents[key_position(dependents, key@)].1@,
            key@,
        ) {
            None
        } else {
            Some(RunAction::Start(key))
        }
    }
}

/// Some edge of the list leads to `key` and joins two persistent tasks.
pub open spec fn self_edge_between_persistents(
    edges: Seq<DepEdge>,
    key: (Seq<char>, Seq<char>),
) -> bool {
    exists|e: int|
        0 <= e < edges.len() && (#[trigger] edges[e]).to@ == key && edges[e].upstream_persistent
            && edges[e].downstream_persistent
}

/// The key an action is about.
pub open spec fn action_key(a: RunAction) -> (Seq<char>, Seq<char>) {
    match a {
        RunAction::SkipInvalid(k) => k@,
        RunAction::Start(k) => k@,
    }
}

/// Whether two actions are the same action on the same key.
pub open spec fn same_action(a: RunAction, b: RunAction) -> bool {
    match (a, b) {
        (RunAction::SkipInvalid(x), RunAction::SkipInvalid(y)) => x@ == y@,
        (RunAction::Start(x), RunAction::Start(y)) => x@ == y@,
        _ => false,
    }
}

/// The actions for the keys of `order` that lie in the run set, in order.
pub open spec fn planned_actions(
    tasks: Seq<(TaskKey, TaskRuntime)>,
    dependents: Seq<(TaskKey, Vec<DepEdge>)>,
    last_run: Seq<(TaskKey, u64)>,
    run_set: Seq<(Seq<char>, Seq<char>)>,
    direct: Seq<(Seq<char>, Seq<char>)>,
    order: Seq<TaskKey>,
) -> Seq<RunAction>
    decreases order.len(),
{
    if order.len() == 0 {
        Seq::empty()
    } else {
        let rest = planned_actions(tasks, dependents, last_run, run_set, direct, order.drop_last());
        let k = order.last();
        if run_set.contains(k@) {
            match run_action_for(tasks, dependents, last_run, direct, k) {
                Some(a) => rest.push(a),
                None => rest,
            }
        } else {
            rest
        }
    }
}

/// Two lists of actions agree action by action.
pub open spec fn same_actions(a: Seq<RunAction>, b: Seq<RunAction>) -> bool {
    a.len() == b.len() && forall|i: int| 0 <= i < a.len() ==> same_action(#[trigger] a[i], b[i])
}

/// Whether some edge of the list leads to `key` and joins two persistent tasks.
fn has_self_edge_between_persistents(edges: &Vec<DepEdge>, key: &TaskKey) -> (b: bool)
    ensures
        b == self_edge_between_persistents(edges@, key@),
{
    let mut e: usize = 0;
    while e < edges.len()
        invariant
            e <= edges.len(),
            forall|q: int|
                0 <= q < e ==> !((#[trigger] edges@[q]).to@ == key@ && edges@[q].upstream_persistent
                    && edges@[q].downstream_persistent),
        decreases edges.len() - e,
    {
        if edges[e].to.same(key) && edges[e].upstream_persistent && edges[e].downstream_persistent {
            return true;
        }
        e = e + 1;
    }
    false
}

/// Decides the action for one key of the run set.
fn run_action(
    tasks: &Vec<(TaskKey, TaskRuntime)>,
    dependents: &Vec<(TaskKey, Vec<DepEdge>)>,
    last_run: &Vec<(TaskKey, u64)>,
    direct: &Vec<TaskKey>,
    key: &TaskKey,
) -> (a: Option<RunAction>)
    ensures
        match (a, run_action_for(tasks@, dependents@, last_run@, key_list_view(direct@), *key)) {
            (Some(x), Some(y)) => same_action(x, y),
            (None, None) => true,
            _ => false,
        },
{
    proof {
        lemma_key_position(tasks@, key@);
        lemma_key_position(last_run@, key@);
        lemma_key_position(dependents@, key@);
    }
    let tp = match find_key(tasks, key) {
        Some(tp) => tp,
        None => {
            return None;
        },
    };
    let task = &tasks[tp].1;
    let last = match find_key(last_run, key) {
        Some(lp) => last_run[lp].1,
        None => 0,
    };
    let is_direct = crate::tasks::keyed::list_has_key(direct, key);
    if !task.valid {
        return Some(RunAction::SkipInvalid(key.duplicate()));
    }
    if !is_direct && last == task.rerun_hash {
        return None;
    }
    if !is_direct {
        match find_key(dependents, key) {
            Some(dp) => {
                if has_self_edge_between_persistents(&dependents[dp].1, key) {
                    return None;
                }
            },
            None => {},
        }
    }
    Some(RunAction::Start(key.duplicate()))
}

/// Decides, in dependency order, what to do with each task of the run set: tasks reached
/// directly by a change are started; tasks reached through their dependencies are started
/// unless they already ran with their current re-run hash or sit on a persistent edge to
/// themselves; invalid tasks are skipped and reported.
pub fn plan_runs(
    topo_order: &Vec<TaskKey>,
    run_set: &Vec<TaskKey>,
    direct: &Vec<TaskKey>,
    tasks: &Vec<(TaskKey, TaskRuntime)>,
    dependents: &Vec<(TaskKey, Vec<DepEdge>)>,
    last_run: &Vec<(TaskKey, u64)>,
) -> (actions: Vec<RunAction>)
    ensures
        same_actions(
            actions@,
            planned_actions(
                tasks@,
                dependents@,
                last_run@,
                key_list_view(run_set@),
                key_list_view(direct@),
                topo_order@,
            ),
        ),
        forall|k: (Seq<char>, Seq<char>)|
            key_list_view(topo_order@).contains(k) && key_list_view(run_set@).contains(k)
                && key_list_view(direct@).contains(k) && key_position(tasks@, k) >= 0
                && tasks@[key_position(tasks@, k)].1.valid ==> exists|i: int|
                0 <= i < actions@.len() && (#[trigger] actions@[i]) is Start && action_key(actions@[i]) == k,
{
    let mut actions: Vec<RunAction> = Vec::new();
    let mut i: usize = 0;
    while i < topo_order.len()
        invariant
            i <= topo_order.len(),
            same_actions(
                actions@,
                planned_actions(
                    tasks@,
                    dependents@,
                    last_run@,
                    key_list_view(run_set@),
                    key_list_view(direct@),
                    topo_order@.take(i as int),
                ),
            ),
        decreases topo_order.len() - i,
    {
        let ghost prev = planned_actions(
            tasks@,
            dependents@,
            last_run@,
            key_list_view(run_set@),
            key_list_view(direct@),
            topo_order@.take(i as int),
        );
        proof {
            assert(topo_order@.take(i + 1).drop_last() =~= topo_order@.take(i as int));
            assert(topo_order@.take(i + 1).last() == topo_order@[i as int]);
        }
        if crate::tasks::keyed::list_has_key(run_set, &topo_order[i]) {
            match run_action(tasks, dependents, last_run, direct, &topo_order[i]) {
                Some(a) => {
                    actions.push(a);
                },
                None => {},
            }
        }
        i = i + 1;
    }
    assert(topo_order@.take(topo_order.len() as int) =~= topo_order@);
    proof {
        let planned = planned_actions(
            tasks@,
            dependents@,
            last_run@,
            key_list_view(run_set@),
            key_list_view(direct@),
            topo_order@,
        );
        assert forall|k: (Seq<char>, Seq<char>)|
            key_list_view(topo_order@).contains(k) && key_list_view(run_set@).contains(k)
                && key_list_view(direct@).contains(k) && key_position(tasks@, k) >= 0
                && tasks@[key_position(tasks@, k)].1.valid implies exists|i: int|
                0 <= i < actions@.len() && (#[trigger] actions@[i]) is Start && action_key(actions@[i]) == k by {
            lemma_direct_hits_start(
                tasks@,
                dependents@,
                last_run@,
                key_list_view(run_set@),
                key_list_view(direct@),
                topo_order@,
                k,
            );
            let i = choose|i: int| 0 <= i < planned.len() && (#[trigger] planned[i]) is Start && action_key(planned[i]) == k;
            assert(same_action(actions@[i], planned[i]));
        }
    }
    actions
}

/// What starting a task asks for.
#[derive(Clone, Copy, Debug, PartialEq, Eq, Structural)]
pub enum StartAction {
    /// The task is unknown: nothing to do.
    Nothing,
    /// A persistent run of a persistent task is going on: leave it.
    KeepRunning,
    /// Start the task.
    Spawn,
    /// Stop the current run, then start the task again.
    StopThenSpawn,
}

/// What the scheduler does on a reload announcement.
#[derive(Clone, Debug)]
pub enum ReloadAction {
    /// Nothing: the root is not tracked, or the version is not newer.
    Ignore,
    /// Report the failure message of a tracked root.
    Report(String),
    /// Rebuild the scheduling tables from the database.
    Rebuild,
}

/// The state the scheduler decides on: the selected tasks and roots, the scheduling tables
/// built from the database, the running tasks (with whether each run is persistent), the
/// versions of the roots last built from, and the re-run hash each task last ran with.
pub struct SchedulerState {
    selections: Vec<TaskSelection>,
    watch_root: String,
    tasks: Vec<(TaskKey, TaskRuntime)>,
    dependents: Vec<(TaskKey, Vec<DepEdge>)>,
    topo_order: Vec<TaskKey>,
    running: Vec<(TaskKey, bool)>,
    root_versions: Vec<(String, u64)>,
    roots: Vec<String>,
    last_run_rerun: Vec<(TaskKey, u64)>,
    failed_roots: Vec<String>,
}

/// Removes the item with key `key` from a keyed table, keeping the order of the others.
fn remove_key<T>(items: &mut Vec<(TaskKey, T)>, key: &TaskKey)
    requires
        unique_keys(old(items)@),
    ensures
        unique_keys(final(items)@),
        key_position(old(items)@, key@) == -1 ==> final(items)@ == old(items)@,
        key_position(old(items)@, key@) >= 0 ==> final(items)@ == old(items)@.remove(
            key_position(old(items)@, key@),
        ),
        key_position(final(items)@, key@) == -1,
{
    proof {
        lemma_key_position(items@, key@);
    }
    match find_key(items, key) {
        Some(p) => {
            let ghost before = items@;
            items.remove(p);
            proof {
                assert forall|a: int, b: int|
                    0 <= a < items@.len() && 0 <= b < items@.len() && a != b implies items@[a].0@
                    != items@[b].0@ by {
                    let a1 = if a < p { a } else { a + 1 };
                    let b1 = if b < p { b } else { b + 1 };
                    assert(items@[a] == before[a1]);
                    assert(items@[b] == before[b1]);
                }
                assert forall|k: int| 0 <= k < items@.len() implies #[trigger] items@[k].0@ != key@ by {
                    let k1 = if k < p { k } else { k + 1 };
                    assert(items@[k] == before[k1]);
                    assert(k1 != p);
                }
                lemma_key_position(items@, key@);
            }
        },
        None => {},
    }
}

/// Sets the value under `key` in a keyed table, adding the key at the end when absent.
fn insert_key<T>(items: &mut Vec<(TaskKey, T)>, key: TaskKey, value: T)
    requires
        unique_keys(old(items)@),
    ensures
        unique_keys(final(items)@),
        key_position(old(items)@, key@) >= 0 ==> final(items)@ == old(items)@.update(
            key_position(old(items)@, key@),
            (key, value),
        ),
        key_position(old(items)@, key@) == -1 ==> final(items)@ == old(items)@.push((key, value)),
{
    proof {
        lemma_key_position(items@, key@);
    }
    match find_key(items, &key) {
        Some(p) => {
            let ghost before = items@;
            items.set(p, (key, value));
            proof {
                assert forall|a: int, b: int|
                    0 <= a < items@.len() && 0 <= b < items@.len() && a != b implies items@[a].0@
                    != items@[b].0@ by {
                    if a != p && b != p {
                        assert(items@[a] == before[a] && items@[b] == before[b]);
                    } else if a == p {
                        assert(items@[b] == before[b]);
                        assert(before[p as int].0@ == items@[a].0@);
                    } else {
                        assert(items@[a] == before[a]);
                        assert(before[p as int].0@ == items@[b].0@);
                    }
                }
            }
        },
        None => {
            let ghost before = items@;
            items.push((key, value));
            proof {
                assert forall|a: int, b: int|
                    0 <= a < items@.len() && 0 <= b < items@.len() && a != b implies items@[a].0@
                    != items@[b].0@ by {
                    if a < before.len() && b < before.len() {
                        assert(items@[a] == before[a] && items@[b] == before[b]);
                    } else if a < before.len() {
                        assert(items@[a] == before[a]);
                    } else {
                        assert(items@[b] == before[b]);
                    }
                }
            }
        },
    }
}

impl SchedulerState {
    /// Keyed tables have distinct keys, root versions distinct roots.
    pub closed spec fn wf(&self) -> bool {
        &&& unique_keys(self.tasks@)
        &&& unique_keys(self.dependents@)
        &&& unique_keys(self.running@)
        &&& unique_keys(self.last_run_rerun@)
        &&& crate::tasks::db::unique_names(self.root_versions@)
    }

    /// The scheduling table of tasks.
    pub closed spec fn task_table(&self) -> Seq<(TaskKey, TaskRuntime)> {
        self.tasks@
    }

    /// The table of dependent edges, by upstream task.
    pub closed spec fn dependent_table(&self) -> Seq<(TaskKey, Vec<DepEdge>)> {
        self.dependents@
    }

    /// The dependency order of the tasks.
    pub closed spec fn order(&self) -> Seq<TaskKey> {
        self.topo_order@
    }

    /// The running tasks, each with whether its run is persistent.
    pub closed spec fn running_table(&self) -> Seq<(TaskKey, bool)> {
        self.running@
    }

    /// The re-run hash each task last started with.
    pub closed spec fn last_runs(&self) -> Seq<(TaskKey, u64)> {
        self.last_run_rerun@
    }

    /// The version of each root the tables were last built from.
    pub closed spec fn versions(&self) -> Seq<(String, u64)> {
        self.root_versions@
    }

    /// The roots of the selected tasks.
    pub closed spec fn tracked_roots(&self) -> Seq<Seq<char>> {
        self.roots@.map_values(|r: String| r@)
    }

    /// The directory watched for file changes.
    pub closed spec fn watched_root(&self) -> Seq<char> {
        self.watch_root@
    }

    /// The selected tasks, as they were given.
    pub closed spec fn selected(&self) -> Seq<TaskSelection> {
        self.selections@
    }

    /// The roots whose task file last failed to load.
    pub closed spec fn failed(&self) -> Seq<Seq<char>> {
        crate::tasks::db::strings_view(self.failed_roots@)
    }

    /// A scheduler for the selected tasks, with empty tables and nothing running.
    pub fn new(selections: Vec<TaskSelection>, watch_root: String) -> (st: SchedulerState)
        ensures
            st.wf(),
            st.tracked_roots() == selections@.map_values(|s: TaskSelection| s.dir@),
            st.watched_root() == watch_root@,
            st.task_table().len() == 0,
            st.dependent_table().len() == 0,
            st.order().len() == 0,
            st.running_table().len() == 0,
            st.last_runs().len() == 0,
            st.versions().len() == 0,
            st.selected() == selections@,
            st.failed().len() == 0,
    {
        let mut roots: Vec<String> = Vec::new();
        let mut i: usize = 0;
        while i < selections.len()
            invariant
                i <= selections.len(),
                roots@.len() == i,
                forall|k: int| 0 <= k < i ==> (#[trigger] roots@[k])@ == selections@[k].dir@,
            decreases selections.len() - i,
        {
            roots.push(selections[i].dir.clone());
            i = i + 1;
        }
        let st = SchedulerState {
            selections,
            watch_root,
            tasks: Vec::new(),
            dependents: Vec::new(),
            topo_order: Vec::new(),
            running: Vec::new(),
            root_versions: Vec::new(),
            roots,
            last_run_rerun: Vec::new(),
            failed_roots: Vec::new(),
        };
        assert(st.tracked_roots() =~= st.selections@.map_values(|s: TaskSelection| s.dir@));
        st
    }

    /// Whether a root belongs to a selected task.
    pub fn root_tracked(&self, root: &str) -> (b: bool)
        ensures
            b == self.tracked_roots().contains(root@),
    {
        let mut i: usize = 0;
        while i < self.roots.len()
            invariant
                i <= self.roots.len(),
                forall|k: int| 0 <= k < i ==> (#[trigger] self.roots@[k])@ != root@,
            decreases self.roots.len() - i,
        {
            if str_eq(self.roots[i].as_str(), root) {
                assert(self.tracked_roots()[i as int] == root@);
                return true;
            }
            i = i + 1;
        }
        proof {
            if self.tracked_roots().contains(root@) {
                let q = choose|q: int| 0 <= q < self.tracked_roots().len() && self.tracked_roots()[q] == root@;
                assert(self.roots@[q]@ == root@);
            }
        }
        false
    }

    /// Decides what to do on a reload announcement: a failure of a tracked root is
    /// reported; a reload of a tracked root to a version newer than the one the tables
    /// were built from (0 for a root never built) triggers a rebuild; anything else is
    /// ignored.
    pub fn reload_action(&self, event: &ReloadEvent) -> (a: ReloadAction)
        ensures
            match *event {
                ReloadEvent::ReloadFailed { root, message } => if self.tracked_roots().contains(
                    root@,
                ) {
                    a is Report && a->Report_0@ == message@
                } else {
                    a is Ignore
                },
                ReloadEvent::Reloaded { root, version, .. } => {
                    let prev: u64 = if crate::tasks::db::position_of(self.versions(), root@) >= 0 {
                        self.versions()[crate::tasks::db::position_of(self.versions(), root@)].1
                    } else {
                        0
                    };
                    if self.tracked_roots().contains(root@) && version > prev {
                        a is Rebuild
                    } else {
                        a is Ignore
                    }
                },
            },
    {
        match event {
            ReloadEvent::ReloadFailed { root, message } => {
                if self.root_tracked(root.as_str()) {
                    ReloadAction::Report(message.clone())
                } else {
                    ReloadAction::Ignore
                }
            },
            ReloadEvent::Reloaded { root, version, .. } => {
                if !self.root_tracked(root.as_str()) {
                    return ReloadAction::Ignore;
                }
                proof {
                    crate::tasks::db::lemma_position_of_props(self.root_versions@, root@);
                }
                let prev = match crate::tasks::db::find_named(&self.root_versions, root.as_str()) {
                    Some(p) => self.root_versions[p].1,
                    None => 0,
                };
                if *version <= prev {
                    ReloadAction::Ignore
                } else {
                    ReloadAction::Rebuild
                }
            },
        }
    }

    /// Decides how to start a task: an unknown task is left alone; a persistent run of a
    /// task that is still persistent is kept; a task with another run going on is stopped
    /// and started again; any other task is started.
    pub fn start_action(&self, key: &TaskKey) -> (a: StartAction)
        ensures
            a == if key_position(self.task_table(), key@) == -1 {
                StartAction::Nothing
            } else if key_position(self.running_table(), key@) >= 0 {
                if self.running_table()[key_position(self.running_table(), key@)].1
                    && self.task_table()[key_position(self.task_table(), key@)].1.persistent {
                    StartAction::KeepRunning
                } else {
                    StartAction::StopThenSpawn
                }
            } else {
                StartAction::Spawn
            },
    {
        proof {
            lemma_key_position(self.tasks@, key@);
            lemma_key_position(self.running@, key@);
        }
        let tp = match find_key(&self.tasks, key) {
            Some(tp) => tp,
            None => {
                return StartAction::Nothing;
            },
        };
        match find_key(&self.running, key) {
            Some(rp) => {
                if self.running[rp].1 && self.tasks[tp].1.persistent {
                    StartAction::KeepRunning
                } else {
                    StartAction::StopThenSpawn
                }
            },
            None => StartAction::Spawn,
        }
    }

    /// The shell command of a known task.
    pub fn command_of(&self, key: &TaskKey) -> (cmd: Option<String>)
        ensures
            key_position(self.task_table(), key@) == -1 ==> cmd is None,
            key_position(self.task_table(), key@) >= 0 ==> (cmd matches Some(c) && c@
                == self.task_table()[key_position(self.task_table(), key@)].1.task.cmd@),
    {
        proof {
            lemma_key_position(self.tasks@, key@);
        }
        match find_key(&self.tasks, key) {
            Some(tp) => Some(self.tasks[tp].1.task.cmd.clone()),
            None => None,
        }
    }

    /// Records that the run of a task was stopped.
    pub fn record_stopped(&mut self, key: &TaskKey)
        requires
            old(self).wf(),
        ensures
            final(self).wf(),
            key_position(final(self).running_table(), key@) == -1,
            key_position(old(self).running_table(), key@) == -1 ==> final(self).running_table()
                == old(self).running_table(),
            key_position(old(self).running_table(), key@) >= 0 ==> final(self).running_table()
                == old(self).running_table().remove(key_position(old(self).running_table(), key@)),
            final(self).task_table() == old(self).task_table(),
            final(self).dependent_table() == old(self).dependent_table(),
            final(self).order() == old(self).order(),
            final(self).last_runs() == old(self).last_runs(),
            final(self).versions() == old(self).versions(),
            final(self).tracked_roots() == old(self).tracked_roots(),
            final(self).watched_root() == old(self).watched_root(),
    {
        remove_key(&mut self.running, key);
    }

    /// Records that a known task was started: it runs (persistently when the task is
    /// persistent) and last ran with its current re-run hash. Unknown tasks are ignored.
    pub fn record_started(&mut self, key: &TaskKey)
        requires
            old(self).wf(),
        ensures
            final(self).wf(),
            final(self).task_table() == old(self).task_table(),
            final(self).dependent_table() == old(self).dependent_table(),
            final(self).order() == old(self).order(),
            final(self).versions() == old(self).versions(),
            final(self).tracked_roots() == old(self).tracked_roots(),
            final(self).watched_root() == old(self).watched_root(),
            key_position(old(self).task_table(), key@) == -1 ==> {
                &&& final(self).running_table() == old(self).running_table()
                &&& final(self).last_runs() == old(self).last_runs()
            },
            key_position(old(self).task_table(), key@) >= 0 ==> {
                let t = old(self).task_table()[key_position(old(self).task_table(), key@)].1;
                &&& key_position(final(self).running_table(), key@) >= 0
                &&& final(self).running_table()[key_position(final(self).running_table(), key@)].1
                    == t.persistent
                &&& key_position(final(self).last_runs(), key@) >= 0
                &&& final(self).last_runs()[key_position(final(self).last_runs(), key@)].1
                    == t.rerun_hash
                &&& forall|k: (Seq<char>, Seq<char>)|
                    k != key@ ==> key_position(final(self).running_table(), k) == key_position(
                        old(self).running_table(),
                        k,
                    ) && (key_position(old(self).running_table(), k) >= 0 ==> final(self).running_table()[key_position(old(self).running_table(), k)]
                        == old(self).running_table()[key_position(old(self).running_table(), k)])
            },
    {
        proof {
            lemma_key_position(self.tasks@, key@);
        }
        match find_key(&self.tasks, key) {
            Some(tp) => {
                let persistent = self.tasks[tp].1.persistent;
                let rerun = self.tasks[tp].1.rerun_hash;
                let ghost before = self.running@;
                let ghost before_lr = self.last_run_rerun@;
                insert_key(&mut self.running, key.duplicate(), persistent);
                insert_key(&mut self.last_run_rerun, key.duplicate(), rerun);
                proof {
                    lemma_key_position(self.running@, key@);
                    lemma_key_position(self.last_run_rerun@, key@);
                    lemma_key_position(before, key@);
                    if key_position(before, key@) >= 0 {
                        lemma_key_position_unique(self.running@, key_position(before, key@));
                    } else {
                        lemma_key_position_unique(self.running@, before.len() as int);
                    }
                    let lr = self.last_run_rerun@;
                    lemma_key_position(before_lr, key@);
                    if key_position(before_lr, key@) >= 0 {
                        lemma_key_position_unique(lr, key_position(before_lr, key@));
                    } else {
                        lemma_key_position_unique(lr, before_lr.len() as int);
                    }
                    assert forall|k: (Seq<char>, Seq<char>)| k != key@ implies key_position(self.running@, k) == key_position(before, k)
                        && (key_position(before, k) >= 0 ==> self.running@[key_position(before, k)] == before[key_position(before, k)]) by {
                        lemma_key_position(before, k);
                        if key_position(before, key@) >= 0 {
                            lemma_key_position_same_keys(self.running@, before, k);
                        } else {
                            lemma_key_position(self.running@, k);
                            if key_position(before, k) >= 0 {
                                lemma_key_position_unique(self.running@, key_position(before, k));
                                assert(self.running@[key_position(before, k)] == before[key_position(before, k)]);
                            } else {
                                assert forall|q: int| 0 <= q < self.running@.len() implies #[trigger] self.running@[q].0@ != k by {
                                    if q < before.len() {
                                        assert(self.running@[q] == before[q]);
                                    }
                                }
                            }
                        }
                    }
                }
            },
            None => {},
        }
    }

    /// Takes the runs that exited out of the running table; returns, in the order of the
    /// table, the keys of those whose run was persistent, which are to be restarted.
    pub fn take_exited(&mut self, exited: &Vec<TaskKey>) -> (restart: Vec<TaskKey>)
        requires
            old(self).wf(),
        ensures
            final(self).wf(),
            final(self).running_table() == old(self).running_table().filter(
                |e: (TaskKey, bool)| !key_list_view(exited@).contains(e.0@),
            ),
            key_list_view(restart@) == exited_persistent(old(self).running_table(), key_list_view(exited@)),
            forall|k: (Seq<char>, Seq<char>)|
                #[trigger] key_list_view(restart@).contains(k) <==> (key_list_view(exited@).contains(k)
                    && exists|j: int|
                    0 <= j < old(self).running_table().len() && (#[trigger] old(self).running_table()[j]).0@ == k
                        && old(self).running_table()[j].1),
            final(self).task_table() == old(self).task_table(),
            final(self).dependent_table() == old(self).dependent_table(),
            final(self).order() == old(self).order(),
            final(self).last_runs() == old(self).last_runs(),
            final(self).versions() == old(self).versions(),
            final(self).tracked_roots() == old(self).tracked_roots(),
            final(self).watched_root() == old(self).watched_root(),
    {
        let ghost ex = key_list_view(exited@);
        let ghost pred = |e: (TaskKey, bool)| !ex.contains(e.0@);
        let mut kept: Vec<(TaskKey, bool)> = Vec::new();
        let mut restart: Vec<TaskKey> = Vec::new();
        let mut i: usize = 0;
        while i < self.running.len()
            invariant
                i <= self.running.len(),
                ex == key_list_view(exited@),
                pred == (|e: (TaskKey, bool)| !ex.contains(e.0@)),
                kept@ == self.running@.take(i as int).filter(pred),
                key_list_view(restart@) == exited_persistent(self.running@.take(i as int), ex),
            decreases self.running.len() - i,
        {
            proof {
                self.running@.take(i as int).lemma_filter_push(self.running@[i as int], pred);
                assert(self.running@.take(i + 1) =~= self.running@.take(i as int).push(self.running@[i as int]));
                assert(self.running@.take(i + 1).drop_last() =~= self.running@.take(i as int));
            }
            let gone = crate::tasks::keyed::list_has_key(exited, &self.running[i].0);
            if gone {
                if self.running[i].1 {
                    restart.push(self.running[i].0.duplicate());
                    proof {
                        assert(key_list_view(restart@) =~= exited_persistent(self.running@.take(i as int), ex).push(self.running@[i as int].0@));
                    }
                }
                assert(!pred(self.running@[i as int]));
            } else {
                let entry = (self.running[i].0.duplicate(), self.running[i].1);
                assert(entry == self.running@[i as int]);
                assert(pred(self.running@[i as int]));
                kept.push(entry);
            }
            i = i + 1;
        }
        proof {
            assert(self.running@.take(self.running@.len() as int) =~= self.running@);
            lemma_filter_keeps_unique_keys(self.running@, pred);
            assert forall|k: (Seq<char>, Seq<char>)|
                #[trigger] key_list_view(restart@).contains(k) <==> (ex.contains(k) && exists|j: int|
                    0 <= j < self.running@.len() && (#[trigger] self.running@[j]).0@ == k && self.running@[j].1) by {
                lemma_exited_persistent_members(self.running@, ex, k);
            }
        }
        self.running = kept;
        restart
    }
}

/// Filtering a keyed table keeps its keys distinct.
proof fn lemma_filter_keeps_unique_keys<T>(items: Seq<(TaskKey, T)>, pred: spec_fn((TaskKey, T)) -> bool)
    requires
        unique_keys(items),
    ensures
        unique_keys(items.filter(pred)),
    decreases items.len(),
{
    reveal(Seq::filter);
    if items.len() > 0 {
        let front = items.drop_last();
        assert(unique_keys(front)) by {
            assert forall|a: int, b: int|
                0 <= a < front.len() && 0 <= b < front.len() && a != b implies front[a].0@
                != front[b].0@ by {
                assert(front[a] == items[a] && front[b] == items[b]);
            }
        }
        lemma_filter_keeps_unique_keys(front, pred);
        if pred(items.last()) {
            let f = front.filter(pred);
            assert forall|a: int| 0 <= a < f.len() implies #[trigger] f[a].0@ != items.last().0@ by {
                assert(f.contains(f[a]));
                front.lemma_filter_contains_rev(pred, f[a]);
                let j = choose|j: int| 0 <= j < front.len() && front[j] == f[a];
                assert(front[j] == items[j]);
                assert(items.last() == items[items.len() - 1]);
            }
            let g = f.push(items.last());
            assert forall|a: int, b: int|
                0 <= a < g.len() && 0 <= b < g.len() && a != b implies g[a].0@ != g[b].0@ by {
                if a < f.len() && b < f.len() {
                    assert(g[a] == f[a] && g[b] == f[b]);
                } else if a < f.len() {
                    assert(g[a] == f[a]);
                } else {
                    assert(g[b] == f[b]);
                }
            }
        }
    }
}

/// Keys, in order, of the persistent runs whose key is among the exited ones.
pub open spec fn exited_persistent(
    running: Seq<(TaskKey, bool)>,
    exited: Seq<(Seq<char>, Seq<char>)>,
) -> Seq<(Seq<char>, Seq<char>)>
    decreases running.len(),
{
    if running.len() == 0 {
        Seq::empty()
    } else if exited.contains(running.last().0@) && running.last().1 {
        exited_persistent(running.drop_last(), exited).push(running.last().0@)
    } else {
        exited_persistent(running.drop_last(), exited)
    }
}

/// Whether a key is in a task table.
pub open spec fn in_table(tasks: Seq<(TaskKey, TaskRuntime)>, k: (Seq<char>, Seq<char>)) -> bool {
    key_position(tasks, k) >= 0
}

/// Keys, in order, of the runs whose task is not in the table.
pub open spec fn runs_outside(
    running: Seq<(TaskKey, bool)>,
    tasks: Seq<(TaskKey, TaskRuntime)>,
) -> Seq<(Seq<char>, Seq<char>)>
    decreases running.len(),
{
    if running.len() == 0 {
        Seq::empty()
    } else if in_table(tasks, running.last().0@) {
        runs_outside(running.drop_last(), tasks)
    } else {
        runs_outside(running.drop_last(), tasks).push(running.last().0@)
    }
}

/// Keys, in table order, of the persistent tasks.
pub open spec fn persistent_keys(tasks: Seq<(TaskKey, TaskRuntime)>) -> Seq<(Seq<char>, Seq<char>)>
    decreases tasks.len(),
{
    if tasks.len() == 0 {
        Seq::empty()
    } else if tasks.last().1.persistent {
        persistent_keys(tasks.drop_last()).push(tasks.last().0@)
    } else {
        persistent_keys(tasks.drop_last())
    }
}

/// What a rebuild leaves to the caller: the runs to stop, whose tasks left the table; the
/// persistent tasks to start; and the tasks whose watch globs did not compile, with why.
pub struct RebuildOutcome {
    pub to_stop: Vec<TaskKey>,
    pub to_start: Vec<TaskKey>,
    pub invalid: Vec<(TaskKey, String)>,
}

/// The keys of the persistent tasks of a table, in order.
fn persistent_task_keys(tasks: &Vec<(TaskKey, TaskRuntime)>) -> (keys: Vec<TaskKey>)
    ensures
        key_list_view(keys@) == persistent_keys(tasks@),
{
    let mut keys: Vec<TaskKey> = Vec::new();
    let mut i: usize = 0;
    while i < tasks.len()
        invariant
            i <= tasks@.len(),
            key_list_view(keys@) == persistent_keys(tasks@.take(i as int)),
        decreases tasks.len() - i,
    {
        proof {
            assert(tasks@.take(i + 1).drop_last() =~= tasks@.take(i as int));
            assert(tasks@.take(i + 1).last() == tasks@[i as int]);
        }
        if tasks[i].1.persistent {
            let ghost kb = keys@;
            keys.push(tasks[i].0.duplicate());
            assert(key_list_view(keys@) =~= key_list_view(kb).push(tasks@[i as int].0@));
        }
        i = i + 1;
    }
    assert(tasks@.take(tasks@.len() as int) =~= tasks@);
    keys
}

impl SchedulerState {
    /// Rebuilds the scheduling tables from the database (see [`build_tables`]) and the
    /// dependency order from them; drops the runs whose tasks left the table, returning
    /// their keys to stop; returns the persistent tasks to start, and the tasks whose
    /// globs did not compile.
    pub fn rebuild(&mut self, db: &TaskDb) -> (out: RebuildOutcome)
        requires
            old(self).wf(),
            db.wf(),
        ensures
            final(self).wf(),
            tables_match(
                final(self).task_table(),
                final(self).dependent_table(),
                out.invalid@,
                db_entries(db.states()),
            ),
            is_key_arrangement(key_list_view(final(self).order()), keys_of(final(self).task_table())),
            has_key_dependency_order(final(self).task_table()) ==> key_deps_first(
                key_list_view(final(self).order()),
                final(self).task_table(),
            ),
            !has_key_dependency_order(final(self).task_table()) ==> key_list_view(final(self).order())
                == keys_of(final(self).task_table()),
            versions_view(final(self).versions()) == versions_of(db.states()),
            final(self).running_table() == old(self).running_table().filter(
                |e: (TaskKey, bool)| in_table(final(self).task_table(), e.0@),
            ),
            key_list_view(out.to_stop@) == runs_outside(old(self).running_table(), final(self).task_table()),
            key_list_view(out.to_start@) == persistent_keys(final(self).task_table()),
            final(self).last_runs() == old(self).last_runs(),
            final(self).tracked_roots() == old(self).tracked_roots(),
            final(self).watched_root() == old(self).watched_root(),
            final(self).selected() == old(self).selected(),
            final(self).failed() == old(self).failed(),
    {
        let t = build_tables(db);
        let order = topo_sort(&t.tasks);
        let ghost tk = t.tasks@;
        let ghost pred = |e: (TaskKey, bool)| in_table(tk, e.0@);
        let mut kept: Vec<(TaskKey, bool)> = Vec::new();
        let mut to_stop: Vec<TaskKey> = Vec::new();
        let mut i: usize = 0;
        while i < self.running.len()
            invariant
                i <= self.running.len(),
                tk == t.tasks@,
                pred == (|e: (TaskKey, bool)| in_table(tk, e.0@)),
                kept@ == self.running@.take(i as int).filter(pred),
                key_list_view(to_stop@) == runs_outside(self.running@.take(i as int), tk),
            decreases self.running.len() - i,
        {
            proof {
                self.running@.take(i as int).lemma_filter_push(self.running@[i as int], pred);
                assert(self.running@.take(i + 1) =~= self.running@.take(i as int).push(self.running@[i as int]));
                assert(self.running@.take(i + 1).drop_last() =~= self.running@.take(i as int));
                lemma_key_position(tk, self.running@[i as int].0@);
            }
            let inside = match find_key(&t.tasks, &self.running[i].0) {
                Some(_) => true,
                None => false,
            };
            if inside {
                let entry = (self.running[i].0.duplicate(), self.running[i].1);
                assert(entry == self.running@[i as int]);
                kept.push(entry);
            } else {
                let ghost sb = to_stop@;
                to_stop.push(self.running[i].0.duplicate());
                assert(key_list_view(to_stop@) =~= key_list_view(sb).push(self.running@[i as int].0@));
            }
            i = i + 1;
        }
        proof {
            assert(self.running@.take(self.running@.len() as int) =~= self.running@);
            lemma_filter_keeps_unique_keys(self.running@, pred);
            db.lemma_wf_unique();
            let vs = t.root_versions@;
            assert forall|a: int, b: int|
                0 <= a < vs.len() && 0 <= b < vs.len() && a != b implies vs[a].0@ != vs[b].0@ by {
                let st = db.states();
                assert(versions_view(vs).len() == vs.len());
                assert(versions_of(st).len() == st.len());
                assert(versions_view(vs)[a] == versions_of(st)[a]);
                assert(versions_view(vs)[b] == versions_of(st)[b]);
                assert(versions_view(vs)[a].0 == vs[a].0@);
                assert(versions_of(st)[a].0 == st[a].0@);
                assert(versions_view(vs)[b].0 == vs[b].0@);
                assert(versions_of(st)[b].0 == st[b].0@);
                assert(st[a].0@ != st[b].0@);
            }
        }
        let to_start = persistent_task_keys(&t.tasks);
        self.running = kept;
        self.tasks = t.tasks;
        self.dependents = t.dependents;
        self.topo_order = order;
        self.root_versions = t.root_versions;
        RebuildOutcome { to_stop, to_start, invalid: t.invalid }
    }

    /// Plans a file-system event that changed `paths`, relative to the watched folder,
    /// from the current tables (see [`plan_fs_event`]); a task whose root last failed to
    /// load is skipped rather than started.
    pub fn plan_fs_event(&self, paths: &Vec<String>) -> (plan: FsEventPlan)
        ensures
            key_list_view(plan.direct@).no_duplicates(),
            forall|k: (Seq<char>, Seq<char>)|
                key_list_view(plan.direct@).contains(k) <==> crate::tasks::fs_events::is_direct_key(
                    self.watched_root(),
                    crate::json::texts(paths@),
                    self.task_table(),
                    k,
                ),
            key_list_view(plan.run_set@).no_duplicates(),
            forall|k: (Seq<char>, Seq<char>)|
                key_list_view(plan.run_set@).contains(k) <==> exists|d: int|
                    0 <= d < plan.direct@.len() && crate::tasks::fs_events::reaches_freely(
                        self.task_table(),
                        self.dependent_table(),
                        #[trigger] plan.direct@[d]@,
                        k,
                    ),
            same_actions(
                plan.actions@,
                blocked_actions(
                    planned_actions(
                        self.task_table(),
                        self.dependent_table(),
                        self.last_runs(),
                        key_list_view(plan.run_set@),
                        key_list_view(plan.direct@),
                        self.order(),
                    ),
                    self.failed(),
                ),
            ),
            forall|k: (Seq<char>, Seq<char>)|
                key_list_view(self.order()).contains(k) && key_list_view(plan.run_set@).contains(k)
                    && key_list_view(plan.direct@).contains(k) && key_position(self.task_table(), k) >= 0
                    && self.task_table()[key_position(self.task_table(), k)].1.valid && !self.failed().contains(
                    k.0,
                ) ==> exists|i: int|
                    0 <= i < plan.actions@.len() && (#[trigger] plan.actions@[i]) is Start && action_key(
                        plan.actions@[i],
                    ) == k,
    {
        let plan = plan_fs_event(
            self.watch_root.as_str(),
            paths,
            &self.tasks,
            &self.dependents,
            &self.topo_order,
            &self.last_run_rerun,
        );
        let ghost expected = planned_actions(
            self.tasks@,
            self.dependents@,
            self.last_run_rerun@,
            key_list_view(plan.run_set@),
            key_list_view(plan.direct@),
            self.topo_order@,
        );
        let actions = block_failed_roots(&plan.actions, &self.failed_roots, Ghost(expected));
        let ghost d0 = plan.direct@;
        let ghost r0 = plan.run_set@;
        let out = FsEventPlan { direct: plan.direct, run_set: plan.run_set, actions };
        assert(out.direct@ == d0 && out.run_set@ == r0);
        proof {
            let fv = crate::tasks::db::strings_view(self.failed_roots@);
            assert forall|k: (Seq<char>, Seq<char>)|
                key_list_view(self.topo_order@).contains(k) && key_list_view(r0).contains(k)
                    && key_list_view(d0).contains(k) && key_position(self.tasks@, k) >= 0
                    && self.tasks@[key_position(self.tasks@, k)].1.valid && !fv.contains(k.0) implies exists|i: int|
                    0 <= i < out.actions@.len() && (#[trigger] out.actions@[i]) is Start && action_key(
                        out.actions@[i],
                    ) == k by {
                lemma_direct_hits_start(
                    self.tasks@,
                    self.dependents@,
                    self.last_run_rerun@,
                    key_list_view(r0),
                    key_list_view(d0),
                    self.topo_order@,
                    k,
                );
                let i = choose|i: int| 0 <= i < expected.len() && (#[trigger] expected[i]) is Start && action_key(expected[i]) == k;
                let b = blocked_actions(expected, fv);
                assert(b[i] == expected[i]);
                assert(same_action(out.actions@[i], b[i]));
            }
        }
        out
    }

    /// Plans the first runs once the tables are built: every selected task found in the
    /// table counts as changed, so it runs, and so do the tasks it depends on, each after
    /// its dependencies (the plan [`plan_from_direct`] makes); a task whose root last
    /// failed to load is skipped rather than started.
    pub fn plan_startup(&self) -> (plan: FsEventPlan)
        ensures
            key_list_view(plan.direct@).no_duplicates(),
            forall|k: (Seq<char>, Seq<char>)|
                key_list_view(plan.direct@).contains(k) <==> (in_table(self.task_table(), k) && exists|i: int|
                    0 <= i < self.selected().len() && (#[trigger] self.selected()[i]).dir@ == k.0
                        && self.selected()[i].name@ == k.1),
            key_list_view(plan.run_set@).no_duplicates(),
            forall|k: (Seq<char>, Seq<char>)|
                key_list_view(plan.run_set@).contains(k) <==> exists|d: int|
                    0 <= d < plan.direct@.len() && crate::tasks::fs_events::reaches_freely(
                        self.task_table(),
                        self.dependent_table(),
                        #[trigger] plan.direct@[d]@,
                        k,
                    ),
            same_actions(
                plan.actions@,
                blocked_actions(
                    planned_actions(
                        self.task_table(),
                        self.dependent_table(),
                        self.last_runs(),
                        key_list_view(plan.run_set@),
                        key_list_view(plan.direct@),
                        self.order(),
                    ),
                    self.failed(),
                ),
            ),
            forall|k: (Seq<char>, Seq<char>)|
                key_list_view(self.order()).contains(k) && key_list_view(plan.run_set@).contains(k)
                    && key_list_view(plan.direct@).contains(k) && key_position(self.task_table(), k) >= 0
                    && self.task_table()[key_position(self.task_table(), k)].1.valid && !self.failed().contains(
                    k.0,
                ) ==> exists|i: int|
                    0 <= i < plan.actions@.len() && (#[trigger] plan.actions@[i]) is Start && action_key(
                        plan.actions@[i],
                    ) == k,
    {
        let mut direct: Vec<TaskKey> = Vec::new();
        let mut i: usize = 0;
        while i < self.selections.len()
            invariant
                i <= self.selections@.len(),
                key_list_view(direct@).no_duplicates(),
                forall|k: (Seq<char>, Seq<char>)|
                    key_list_view(direct@).contains(k) <==> (in_table(self.tasks@, k) && exists|j: int|
                        0 <= j < i && (#[trigger] self.selections@[j]).dir@ == k.0
                            && self.selections@[j].name@ == k.1),
            decreases self.selections.len() - i,
        {
            let key = TaskKey { root: self.selections[i].dir.clone(), name: self.selections[i].name.clone() };
            proof {
                lemma_key_position(self.tasks@, key@);
            }
            let ghost before = key_list_view(direct@);
            let known = match find_key(&self.tasks, &key) {
                Some(_) => true,
                None => false,
            };
            if known && !crate::tasks::keyed::list_has_key(&direct, &key) {
                direct.push(key);
                proof {
                    assert(key_list_view(direct@) =~= before.push(direct@.last()@));
                    crate::seqs::lemma_no_dup_push(before, direct@.last()@);
                }
            }
            proof {
                assert forall|k: (Seq<char>, Seq<char>)|
                    key_list_view(direct@).contains(k) <==> (in_table(self.tasks@, k) && exists|j: int|
                        0 <= j < i + 1 && (#[trigger] self.selections@[j]).dir@ == k.0
                            && self.selections@[j].name@ == k.1) by {
                    crate::seqs::lemma_contains_push(before, key@, k);
                    if in_table(self.tasks@, k) && exists|j: int|
                        0 <= j < i + 1 && (#[trigger] self.selections@[j]).dir@ == k.0
                            && self.selections@[j].name@ == k.1 {
                        let j = choose|j: int|
                            0 <= j < i + 1 && (#[trigger] self.selections@[j]).dir@ == k.0
                                && self.selections@[j].name@ == k.1;
                        if j == i {
                            assert(k == key@);
                        }
                    }
                    if key_list_view(direct@).contains(k) && !before.contains(k) {
                        assert(k == key@);
                        assert(self.selections@[i as int].dir@ == k.0);
                    }
                }
            }
            i = i + 1;
        }
        assert forall|k: (Seq<char>, Seq<char>)|
            key_list_view(direct@).contains(k) <==> (in_table(self.task_table(), k) && exists|i: int|
                0 <= i < self.selected().len() && (#[trigger] self.selected()[i]).dir@ == k.0
                    && self.selected()[i].name@ == k.1) by {
            if key_list_view(direct@).contains(k) {
                let j = choose|j: int|
                    0 <= j < self.selections@.len() && (#[trigger] self.selections@[j]).dir@ == k.0
                        && self.selections@[j].name@ == k.1;
                assert(self.selected()[j] == self.selections@[j]);
            }
            if in_table(self.task_table(), k) && exists|i: int|
                0 <= i < self.selected().len() && (#[trigger] self.selected()[i]).dir@ == k.0
                    && self.selected()[i].name@ == k.1 {
                let j = choose|j: int|
                    0 <= j < self.selected().len() && (#[trigger] self.selected()[j]).dir@ == k.0
                        && self.selected()[j].name@ == k.1;
                assert(self.selected()[j] == self.selections@[j]);
            }
        }
        let plan = crate::tasks::fs_events::plan_from_direct(
            direct,
            &self.tasks,
            &self.dependents,
            &self.topo_order,
            &self.last_run_rerun,
        );
        let ghost expected = planned_actions(
            self.tasks@,
            self.dependents@,
            self.last_run_rerun@,
            key_list_view(plan.run_set@),
            key_list_view(plan.direct@),
            self.topo_order@,
        );
        let actions = block_failed_roots(&plan.actions, &self.failed_roots, Ghost(expected));
        let ghost d0 = plan.direct@;
        let ghost r0 = plan.run_set@;
        let out = FsEventPlan { direct: plan.direct, run_set: plan.run_set, actions };
        assert(out.direct@ == d0 && out.run_set@ == r0);
        proof {
            let fv = crate::tasks::db::strings_view(self.failed_roots@);
            assert forall|k: (Seq<char>, Seq<char>)|
                key_list_view(self.topo_order@).contains(k) && key_list_view(r0).contains(k)
                    && key_list_view(d0).contains(k) && key_position(self.tasks@, k) >= 0
                    && self.tasks@[key_position(self.tasks@, k)].1.valid && !fv.contains(k.0) implies exists|i: int|
                    0 <= i < out.actions@.len() && (#[trigger] out.actions@[i]) is Start && action_key(
                        out.actions@[i],
                    ) == k by {
                lemma_direct_hits_start(
                    self.tasks@,
                    self.dependents@,
                    self.last_run_rerun@,
                    key_list_view(r0),
                    key_list_view(d0),
                    self.topo_order@,
                    k,
                );
                let i = choose|i: int| 0 <= i < expected.len() && (#[trigger] expected[i]) is Start && action_key(expected[i]) == k;
                let b = blocked_actions(expected, fv);
                assert(b[i] == expected[i]);
                assert(same_action(out.actions@[i], b[i]));
            }
        }
        out
    }

    /// Whether a root's task file last failed to load.
    pub fn root_failed(&self, root: &str) -> (b: bool)
        ensures
            b == self.failed().contains(root@),
    {
        strings_contain(&self.failed_roots, root)
    }

    /// Whether a task is in the table and persistent.
    pub fn persistent_task(&self, key: &TaskKey) -> (b: bool)
        ensures
            b == crate::tasks::tables::persistent_in(self.task_table(), key@),
    {
        proof {
            lemma_key_position(self.tasks@, key@);
        }
        match find_key(&self.tasks, key) {
            Some(p) => self.tasks[p].1.persistent,
            None => false,
        }
    }

    /// Whether a task must be skipped because one of the tasks it depends on is among
    /// `failed`: the task is in the table and one of its dependency targets is listed.
    pub fn upstream_failed(&self, key: &TaskKey, failed: &Vec<TaskKey>) -> (b: bool)
        ensures
            b == upstream_failed_in(self.task_table(), key@, key_list_view(failed@)),
    {
        proof {
            lemma_key_position(self.tasks@, key@);
        }
        let p = match find_key(&self.tasks, key) {
            Some(p) => p,
            None => {
                return false;
            },
        };
        let deps = &self.tasks[p].1.deps;
        let mut t: usize = 0;
        while t < deps.len()
            invariant
                t <= deps@.len(),
                0 <= key_position(self.tasks@, key@) < self.tasks@.len(),
                deps@ == self.tasks@[key_position(self.tasks@, key@)].1.deps@,
                forall|q: int| 0 <= q < t ==> !key_list_view(failed@).contains(#[trigger] deps@[q].target@),
            decreases deps.len() - t,
        {
            if crate::tasks::keyed::list_has_key(failed, &deps[t].target) {
                assert(self.tasks@[key_position(self.tasks@, key@)].1.deps@[t as int].target@ == deps@[t as int].target@);
                assert(key_list_view(failed@).contains(
                    self.task_table()[key_position(self.task_table(), key@)].1.deps@[t as int].target@,
                ));
                return true;
            }
            t = t + 1;
        }
        false
    }

    /// One step of performing a plan, given the tasks that failed so far in it. Before an
    /// action is performed (`outcome` is `None`): an invalid task is reported and counts as
    /// failed; a task with a failed dependency is skipped and counts as failed; a
    /// persistent task is started and left running; any other task is started and waited
    /// for. Once the run of the action's task is over (`outcome` is `Some(ok)`, where a
    /// task that could not be started counts as not ok), the task counts as failed unless
    /// the run succeeded.
    pub fn run_step(&self, failed: &Vec<TaskKey>, action: &RunAction, outcome: Option<bool>) -> (next: (
        RunDecision,
        Vec<TaskKey>,
    ))
        ensures
            outcome is None && action is SkipInvalid ==> next.0 == RunDecision::Report && key_list_view(
                next.1@,
            ) == key_list_view(failed@).push(action_key(*action)),
            outcome is None && action is Start && upstream_failed_in(
                self.task_table(),
                action_key(*action),
                key_list_view(failed@),
            ) ==> next.0 == RunDecision::SkipUpstreamFailed && key_list_view(next.1@) == key_list_view(
                failed@,
            ).push(action_key(*action)),
            outcome is None && action is Start && !upstream_failed_in(
                self.task_table(),
                action_key(*action),
                key_list_view(failed@),
            ) ==> next.0 == (if crate::tasks::tables::persistent_in(self.task_table(), action_key(*action)) {
                RunDecision::Start
            } else {
                RunDecision::StartAndWait
            }) && key_list_view(next.1@) == key_list_view(failed@),
            outcome matches Some(ok) ==> next.0 == RunDecision::Done && key_list_view(next.1@) == (if ok {
                key_list_view(failed@)
            } else {
                key_list_view(failed@).push(action_key(*action))
            }),
    {
        let key = match action {
            RunAction::SkipInvalid(k) => k,
            RunAction::Start(k) => k,
        };
        let mut next: Vec<TaskKey> = Vec::new();
        let mut i: usize = 0;
        while i < failed.len()
            invariant
                i <= failed@.len(),
                key_list_view(next@) == key_list_view(failed@.take(i as int)),
            decreases failed.len() - i,
        {
            let ghost before = next@;
            next.push(failed[i].duplicate());
            proof {
                assert(failed@.take(i + 1) =~= failed@.take(i as int).push(failed@[i as int]));
                assert(key_list_view(next@) =~= key_list_view(before).push(failed@[i as int]@));
                assert(key_list_view(failed@.take(i + 1)) =~= key_list_view(failed@.take(i as int)).push(
                    failed@[i as int]@,
                ));
            }
            i = i + 1;
        }
        proof {
            assert(failed@.take(failed@.len() as int) =~= failed@);
        }
        let ghost kept = next@;
        let decision = match outcome {
            Some(ok) => {
                if !ok {
                    next.push(key.duplicate());
                }
                RunDecision::Done
            },
            None => match action {
                RunAction::SkipInvalid(_) => {
                    next.push(key.duplicate());
                    RunDecision::Report
                },
                RunAction::Start(_) => {
                    if self.upstream_failed(key, failed) {
                        next.push(key.duplicate());
                        RunDecision::SkipUpstreamFailed
                    } else if self.persistent_task(key) {
                        RunDecision::Start
                    } else {
                        RunDecision::StartAndWait
                    }
                },
            },
        };
        proof {
            if next@.len() > kept.len() {
                assert(key_list_view(next@) =~= key_list_view(kept).push(key@));
            }
        }
        (decision, next)
    }

    /// Notes the outcome of a reload: a failure of a tracked root marks the root as failed,
    /// so that its tasks are skipped; a successful reload of a root clears the mark; any
    /// other announcement changes nothing. Nothing else changes.
    pub fn note_reload(&mut self, event: &ReloadEvent)
        requires
            old(self).wf(),
        ensures
            final(self).wf(),
            final(self).task_table() == old(self).task_table(),
            final(self).dependent_table() == old(self).dependent_table(),
            final(self).order() == old(self).order(),
            final(self).running_table() == old(self).running_table(),
            final(self).last_runs() == old(self).last_runs(),
            final(self).versions() == old(self).versions(),
            final(self).tracked_roots() == old(self).tracked_roots(),
            final(self).watched_root() == old(self).watched_root(),
            final(self).selected() == old(self).selected(),
            match *event {
                ReloadEvent::ReloadFailed { root, .. } => if old(self).tracked_roots().contains(root@) {
                    forall|r: Seq<char>|
                        #[trigger] final(self).failed().contains(r) <==> (old(self).failed().contains(r) || r
                            == root@)
                } else {
                    final(self).failed() == old(self).failed()
                },
                ReloadEvent::Reloaded { root, .. } => forall|r: Seq<char>|
                    #[trigger] final(self).failed().contains(r) <==> (old(self).failed().contains(r) && r
                        != root@),
            },
    {
        match event {
            ReloadEvent::ReloadFailed { root, .. } => {
                let watched = self.root_tracked(root.as_str());
                let known = strings_contain(&self.failed_roots, root.as_str());
                if watched && !known {
                    let ghost before = self.failed();
                    self.failed_roots.push(root.clone());
                    proof {
                        assert(self.failed() =~= before.push(root@));
                        assert forall|r: Seq<char>|
                            #[trigger] self.failed().contains(r) <==> (before.contains(r) || r == root@) by {
                            crate::seqs::lemma_contains_push(before, root@, r);
                        }
                    }
                } else if watched {
                    assert forall|r: Seq<char>|
                        #[trigger] self.failed().contains(r) <==> (self.failed().contains(r) || r == root@) by {
                        if r == root@ {
                            assert(self.failed().contains(root@));
                        }
                    }
                }
            },
            ReloadEvent::Reloaded { root, .. } => {
                let ghost before = self.failed();
                let mut kept: Vec<String> = Vec::new();
                let mut i: usize = 0;
                while i < self.failed_roots.len()
                    invariant
                        i <= self.failed_roots@.len(),
                        before == crate::tasks::db::strings_view(self.failed_roots@),
                        forall|r: Seq<char>|
                            #[trigger] crate::tasks::db::strings_view(kept@).contains(r) <==> (before.take(
                                i as int,
                            ).contains(r) && r != root@),
                    decreases self.failed_roots.len() - i,
                {
                    let ghost kb = crate::tasks::db::strings_view(kept@);
                    let ghost item = self.failed_roots@[i as int]@;
                    proof {
                        assert(before.take(i + 1) =~= before.take(i as int).push(item));
                    }
                    if !str_eq(self.failed_roots[i].as_str(), root.as_str()) {
                        kept.push(self.failed_roots[i].clone());
                        proof {
                            assert(crate::tasks::db::strings_view(kept@) =~= kb.push(item));
                        }
                    }
                    proof {
                        assert forall|r: Seq<char>|
                            #[trigger] crate::tasks::db::strings_view(kept@).contains(r) <==> (before.take(
                                i + 1,
                            ).contains(r) && r != root@) by {
                            crate::seqs::lemma_contains_push(before.take(i as int), item, r);
                            crate::seqs::lemma_contains_push(kb, item, r);
                        }
                    }
                    i = i + 1;
                }
                proof {
                    assert(before.take(before.len() as int) =~= before);
                }
                self.failed_roots = kept;
            },
        }
    }
}

/// A task must be skipped because one of the tasks it depends on is among `failed`: the
/// task is in the table and one of its dependency targets is listed.
pub open spec fn upstream_failed_in(
    tasks: Seq<(TaskKey, TaskRuntime)>,
    key: (Seq<char>, Seq<char>),
    failed: Seq<(Seq<char>, Seq<char>)>,
) -> bool {
    key_position(tasks, key) >= 0 && exists|t: int|
        0 <= t < tasks[key_position(tasks, key)].1.deps@.len() && failed.contains(
            #[trigger] tasks[key_position(tasks, key)].1.deps@[t].target@,
        )
}

/// What performing one step of a plan comes to.
#[derive(Clone, Copy, Debug, PartialEq, Eq, Structural)]
pub enum RunDecision {
    /// Report the task as invalid; it is not run.
    Report,
    /// Skip the task: one of its dependencies failed.
    SkipUpstreamFailed,
    /// Start the task and go on without waiting (a persistent task).
    Start,
    /// Start the task and wait for its run to end, then report the outcome.
    StartAndWait,
    /// Nothing more to do for the task.
    Done,
}

/// The task an action is about.
pub open spec fn action_task(a: RunAction) -> TaskKey {
    match a {
        RunAction::SkipInvalid(k) => k,
        RunAction::Start(k) => k,
    }
}

/// The actions with each one about a task of a `failed` root turned into a skip.
pub open spec fn blocked_actions(actions: Seq<RunAction>, failed: Seq<Seq<char>>) -> Seq<RunAction> {
    actions.map_values(
        |a: RunAction|
            if failed.contains(action_key(a).0) {
                RunAction::SkipInvalid(action_task(a))
            } else {
                a
            },
    )
}

/// No task of a root whose task file last failed to load is started: every action that
/// starts a task, in actions blocked by the failed roots, is about a task of another root.
pub proof fn lemma_failed_roots_start_nothing(actions: Seq<RunAction>, failed: Seq<Seq<char>>, i: int)
    requires
        0 <= i < actions.len(),
        blocked_actions(actions, failed)[i] is Start,
    ensures
        !failed.contains(action_key(blocked_actions(actions, failed)[i]).0),
{
}

/// A task on a dependency cycle is never released: when each task of a cycle of positions
/// depends on the next one, and the last on the first, no release order lists any of them.
#[verifier::spinoff_prover]
pub proof fn lemma_cycle_not_released(
    tasks: Seq<(TaskKey, TaskRuntime)>,
    o: Seq<usize>,
    cycle: Seq<int>,
    k: int,
)
    requires
        unique_keys(tasks),
        is_release_order(tasks, o),
        tasks.len() <= usize::MAX,
        cycle.len() > 0,
        forall|j: int| 0 <= j < cycle.len() ==> 0 <= #[trigger] cycle[j] < tasks.len(),
        forall|j: int|
            0 <= j < cycle.len() ==> dep_targets(tasks)[#[trigger] cycle[j]].contains(
                tasks[cycle[next_in_cycle(j, cycle.len() as int)]].0@,
            ),
        0 <= k < cycle.len(),
    ensures
        !o.contains(cycle[k] as usize),
{
    if o.contains(cycle[k] as usize) {
        // Walking the cycle from a listed task, every step goes to a listed task strictly
        // earlier in the order; after a full turn the first task would precede itself.
        let p0 = choose|p: int| 0 <= p < o.len() && o[p] == cycle[k] as usize;
        assert forall|j: int| 0 <= j < cycle.len() implies key_position(tasks, tasks[#[trigger] cycle[j]].0@)
            == cycle[j] by {
            lemma_key_position_unique(tasks, cycle[j]);
        }
        assert forall|q: int, t: int|
            0 <= q < o.len() && 0 <= t < dep_targets(tasks)[o[q] as int].len() implies o.take(q).contains(
                key_position(tasks, #[trigger] dep_targets(tasks)[o[q] as int][t]) as usize,
            ) by {}
        lemma_cycle_walk(tasks, o, cycle, k, p0, p0 + 1);
    }
}

/// The position after `j` in a cycle of `n` positions.
pub open spec fn next_in_cycle(j: int, n: int) -> int {
    if j + 1 < n {
        j + 1
    } else {
        0
    }
}

/// One step along a cycle from a task listed at `p` reaches a task listed strictly earlier.
#[verifier::spinoff_prover]
proof fn lemma_cycle_step(
    tasks: Seq<(TaskKey, TaskRuntime)>,
    o: Seq<usize>,
    cycle: Seq<int>,
    k: int,
    p: int,
) -> (p2: int)
    requires
        forall|q: int, t: int|
            0 <= q < o.len() && 0 <= t < dep_targets(tasks)[o[q] as int].len() ==> o.take(q).contains(
                key_position(tasks, #[trigger] dep_targets(tasks)[o[q] as int][t]) as usize,
            ),
        cycle.len() > 0,
        tasks.len() <= usize::MAX,
        forall|j: int| 0 <= j < cycle.len() ==> 0 <= #[trigger] cycle[j] < tasks.len(),
        forall|j: int|
            0 <= j < cycle.len() ==> key_position(tasks, tasks[#[trigger] cycle[j]].0@) == cycle[j],
        forall|j: int|
            0 <= j < cycle.len() ==> dep_targets(tasks)[#[trigger] cycle[j]].contains(
                tasks[cycle[next_in_cycle(j, cycle.len() as int)]].0@,
            ),
        0 <= k < cycle.len(),
        0 <= p < o.len(),
        o[p] == cycle[k] as usize,
    ensures
        0 <= p2 < p,
        o[p2] == cycle[next_in_cycle(k, cycle.len() as int)] as usize,
{
    let n = cycle.len() as int;
    let k2 = next_in_cycle(k, n);
    let next = cycle[k2];
    let ts = dep_targets(tasks)[cycle[k]];
    assert(ts.contains(tasks[next].0@));
    let t = choose|t: int| 0 <= t < ts.len() && ts[t] == tasks[next].0@;
    assert(o[p] as int == cycle[k]);
    assert(dep_targets(tasks)[o[p] as int][t] == tasks[next].0@);
    assert(key_position(tasks, tasks[next].0@) == next);
    assert(o.take(p).contains(next as usize));
    let p2 = choose|p2: int| 0 <= p2 < o.take(p).len() && o.take(p)[p2] == next as usize;
    assert(o[p2] == next as usize);
    p2
}

/// Any number of steps can be walked along a cycle from a task listed at `p`, each step
/// reaching a task listed strictly earlier; so no more than `p` steps can be walked.
#[verifier::spinoff_prover]
proof fn lemma_cycle_walk(
    tasks: Seq<(TaskKey, TaskRuntime)>,
    o: Seq<usize>,
    cycle: Seq<int>,
    k: int,
    p: int,
    steps: int,
)
    requires
        forall|q: int, t: int|
            0 <= q < o.len() && 0 <= t < dep_targets(tasks)[o[q] as int].len() ==> o.take(q).contains(
                key_position(tasks, #[trigger] dep_targets(tasks)[o[q] as int][t]) as usize,
            ),
        cycle.len() > 0,
        tasks.len() <= usize::MAX,
        forall|j: int| 0 <= j < cycle.len() ==> 0 <= #[trigger] cycle[j] < tasks.len(),
        forall|j: int|
            0 <= j < cycle.len() ==> key_position(tasks, tasks[#[trigger] cycle[j]].0@) == cycle[j],
        forall|j: int|
            0 <= j < cycle.len() ==> dep_targets(tasks)[#[trigger] cycle[j]].contains(
                tasks[cycle[next_in_cycle(j, cycle.len() as int)]].0@,
            ),
        0 <= k < cycle.len(),
        0 <= p < o.len(),
        o[p] == cycle[k] as usize,
        0 <= steps,
    ensures
        steps <= p,
    decreases steps,
{
    if steps > 0 {
        let p2 = lemma_cycle_step(tasks, o, cycle, k, p);
        lemma_cycle_walk(tasks, o, cycle, next_in_cycle(k, cycle.len() as int), p2, steps - 1);
    }
}

/// Whether a list of strings holds `s`.
fn strings_contain(list: &Vec<String>, s: &str) -> (b: bool)
    ensures
        b == crate::tasks::db::strings_view(list@).contains(s@),
{
    let mut i: usize = 0;
    while i < list.len()
        invariant
            i <= list@.len(),
            forall|q: int| 0 <= q < i ==> (#[trigger] list@[q])@ != s@,
        decreases list.len() - i,
    {
        if str_eq(list[i].as_str(), s) {
            assert(crate::tasks::db::strings_view(list@)[i as int] == s@);
            return true;
        }
        i = i + 1;
    }
    proof {
        if crate::tasks::db::strings_view(list@).contains(s@) {
            let lv = crate::tasks::db::strings_view(list@);
            let q = choose|q: int| 0 <= q < lv.len() && #[trigger] lv[q] == s@;
            assert(list@[q]@ == s@);
        }
    }
    false
}

/// Copies the actions of a plan, turning each one about a task of a failed root into a skip.
fn block_failed_roots(actions: &Vec<RunAction>, failed: &Vec<String>, Ghost(expected): Ghost<Seq<RunAction>>) -> (out: Vec<
    RunAction,
>)
    requires
        same_actions(actions@, expected),
    ensures
        same_actions(out@, blocked_actions(expected, crate::tasks::db::strings_view(failed@))),
{
    let ghost fv = crate::tasks::db::strings_view(failed@);
    let mut out: Vec<RunAction> = Vec::new();
    let mut i: usize = 0;
    while i < actions.len()
        invariant
            i <= actions@.len(),
            same_actions(actions@, expected),
            fv == crate::tasks::db::strings_view(failed@),
            out@.len() == i,
            forall|q: int| 0 <= q < i ==> same_action(#[trigger] out@[q], blocked_actions(expected, fv)[q]),
        decreases actions.len() - i,
    {
        let key = match &actions[i] {
            RunAction::SkipInvalid(k) => k,
            RunAction::Start(k) => k,
        };
        assert(same_action(actions@[i as int], expected[i as int]));
        assert(key@ == action_key(expected[i as int]));
        let a = if strings_contain(failed, key.root.as_str()) {
            RunAction::SkipInvalid(key.duplicate())
        } else {
            match &actions[i] {
                RunAction::SkipInvalid(k) => RunAction::SkipInvalid(k.duplicate()),
                RunAction::Start(k) => RunAction::Start(k.duplicate()),
            }
        };
        out.push(a);
        i = i + 1;
    }
    out
}

/// A change always re-runs the tasks it hits directly: every valid task of the table that
/// the order lists, that lies in the run set and that the change hits directly is started
/// by the plan, whatever the table of last runs holds.
pub proof fn lemma_direct_hits_start(
    tasks: Seq<(TaskKey, TaskRuntime)>,
    dependents: Seq<(TaskKey, Vec<DepEdge>)>,
    last_run: Seq<(TaskKey, u64)>,
    run_set: Seq<(Seq<char>, Seq<char>)>,
    direct: Seq<(Seq<char>, Seq<char>)>,
    order: Seq<TaskKey>,
    k: (Seq<char>, Seq<char>),
)
    requires
        key_list_view(order).contains(k),
        run_set.contains(k),
        direct.contains(k),
        key_position(tasks, k) >= 0,
        tasks[key_position(tasks, k)].1.valid,
    ensures
        exists|i: int|
            0 <= i < planned_actions(tasks, dependents, last_run, run_set, direct, order).len()
                && (#[trigger] planned_actions(tasks, dependents, last_run, run_set, direct, order)[i]) is Start
                && action_key(planned_actions(tasks, dependents, last_run, run_set, direct, order)[i]) == k,
    decreases order.len(),
{
    let a = planned_actions(tasks, dependents, last_run, run_set, direct, order);
    let front = order.drop_last();
    let af = planned_actions(tasks, dependents, last_run, run_set, direct, front);
    let last = order.last();
    assert(key_list_view(front) =~= key_list_view(order).drop_last());
    if last@ == k {
        assert(run_action_for(tasks, dependents, last_run, direct, last) == Some(RunAction::Start(last)));
        assert(a == af.push(RunAction::Start(last)));
        assert(a[af.len() as int] == RunAction::Start(last));
    } else {
        let q = choose|q: int| 0 <= q < key_list_view(order).len() && key_list_view(order)[q] == k;
        assert(q < order.len() - 1);
        assert(key_list_view(front)[q] == k);
        lemma_direct_hits_start(tasks, dependents, last_run, run_set, direct, front, k);
        let i = choose|i: int|
            0 <= i < af.len() && (#[trigger] af[i]) is Start && action_key(af[i]) == k;
        assert(a[i] == af[i]);
    }
}

/// Only persistent runs are restarted after they exit: a key is among those to restart
/// exactly when it is among the exited keys and names a persistent run of the table.
pub proof fn lemma_exited_persistent_members(
    running: Seq<(TaskKey, bool)>,
    exited: Seq<(Seq<char>, Seq<char>)>,
    k: (Seq<char>, Seq<char>),
)
    ensures
        exited_persistent(running, exited).contains(k) <==> (exited.contains(k) && exists|j: int|
            0 <= j < running.len() && (#[trigger] running[j]).0@ == k && running[j].1),
    decreases running.len(),
{
    if running.len() > 0 {
        let front = running.drop_last();
        let r = exited_persistent(front, exited);
        lemma_exited_persistent_members(front, exited, k);
        crate::seqs::lemma_contains_push(r, running.last().0@, k);
        if exists|j: int| 0 <= j < front.len() && (#[trigger] front[j]).0@ == k && front[j].1 {
            let j = choose|j: int| 0 <= j < front.len() && (#[trigger] front[j]).0@ == k && front[j].1;
            assert(running[j] == front[j]);
        }
        if exists|j: int| 0 <= j < running.len() && (#[trigger] running[j]).0@ == k && running[j].1 {
            let j = choose|j: int| 0 <= j < running.len() && (#[trigger] running[j]).0@ == k && running[j].1;
            if j < front.len() {
                assert(front[j] == running[j]);
            } else {
                assert(running[j] == running.last());
            }
        }
        if exited.contains(running.last().0@) && running.last().1 {
            assert(running[running.len() - 1] == running.last());
        }
    }
}

/// Every action of a plan is about a key of the order it was planned from.
proof fn lemma_planned_keys_in_order(
    tasks: Seq<(TaskKey, TaskRuntime)>,
    dependents: Seq<(TaskKey, Vec<DepEdge>)>,
    last_run: Seq<(TaskKey, u64)>,
    run_set: Seq<(Seq<char>, Seq<char>)>,
    direct: Seq<(Seq<char>, Seq<char>)>,
    order: Seq<TaskKey>,
    i: int,
)
    requires
        0 <= i < planned_actions(tasks, dependents, last_run, run_set, direct, order).len(),
    ensures
        key_list_view(order).contains(
            action_key(planned_actions(tasks, dependents, last_run, run_set, direct, order)[i]),
        ),
        key_position(
            tasks,
            action_key(planned_actions(tasks, dependents, last_run, run_set, direct, order)[i]),
        ) >= 0,
    decreases order.len(),
{
    let front = order.drop_last();
    let a = planned_actions(tasks, dependents, last_run, run_set, direct, order);
    let af = planned_actions(tasks, dependents, last_run, run_set, direct, front);
    let k = order.last();
    assert(key_list_view(front) =~= key_list_view(order).drop_last());
    if i < af.len() {
        assert(a[i] == af[i]);
        lemma_planned_keys_in_order(tasks, dependents, last_run, run_set, direct, front, i);
        let q = choose|q: int| 0 <= q < key_list_view(front).len() && key_list_view(front)[q] == action_key(af[i]);
        assert(key_list_view(order)[q] == action_key(a[i]));
    } else {
        assert(key_list_view(order)[order.len() - 1] == k@);
        lemma_key_position(tasks, k@);
    }
}

/// Tasks run after the tasks they depend on: when the order a plan follows puts every
/// dependency first, the action on a task comes after the action on each task it depends
/// on.
pub proof fn lemma_plan_runs_dependencies_first(
    tasks: Seq<(TaskKey, TaskRuntime)>,
    dependents: Seq<(TaskKey, Vec<DepEdge>)>,
    last_run: Seq<(TaskKey, u64)>,
    run_set: Seq<(Seq<char>, Seq<char>)>,
    direct: Seq<(Seq<char>, Seq<char>)>,
    order: Seq<TaskKey>,
    i: int,
    j: int,
)
    requires
        key_list_view(order).no_duplicates(),
        key_deps_first(key_list_view(order), tasks),
        0 <= i < planned_actions(tasks, dependents, last_run, run_set, direct, order).len(),
        0 <= j < planned_actions(tasks, dependents, last_run, run_set, direct, order).len(),
        dep_targets(tasks)[key_position(
            tasks,
            action_key(planned_actions(tasks, dependents, last_run, run_set, direct, order)[j]),
        )].contains(action_key(planned_actions(tasks, dependents, last_run, run_set, direct, order)[i])),
    ensures
        i < j,
    decreases order.len(),
{
    let ov = key_list_view(order);
    let front = order.drop_last();
    let fv = key_list_view(front);
    assert(fv =~= ov.drop_last());
    let a = planned_actions(tasks, dependents, last_run, run_set, direct, order);
    let af = planned_actions(tasks, dependents, last_run, run_set, direct, front);
    let n = order.len() - 1;
    assert(key_deps_first(fv, tasks)) by {
        assert forall|p: int, t: int|
            0 <= p < fv.len() && 0 <= t < dep_targets(tasks)[key_position(tasks, fv[p])].len()
                implies fv.take(p).contains(#[trigger] dep_targets(tasks)[key_position(tasks, fv[p])][t]) by {
            assert(fv[p] == ov[p]);
            assert(fv.take(p) =~= ov.take(p));
        }
    }
    assert(fv.no_duplicates()) by {
        assert forall|x: int, y: int| 0 <= x < fv.len() && 0 <= y < fv.len() && x != y implies fv[x] != fv[y] by {
            assert(fv[x] == ov[x] && fv[y] == ov[y]);
        }
    }
    let xk = action_key(a[j]);
    let yk = action_key(a[i]);
    let deps = dep_targets(tasks)[key_position(tasks, xk)];
    let t = choose|t: int| 0 <= t < deps.len() && deps[t] == yk;
    lemma_planned_keys_in_order(tasks, dependents, last_run, run_set, direct, order, j);
    let p = choose|p: int| 0 <= p < ov.len() && ov[p] == xk;
    assert(ov.take(p).contains(dep_targets(tasks)[key_position(tasks, ov[p])][t]));
    let q = choose|q: int| 0 <= q < ov.take(p).len() && ov.take(p)[q] == yk;
    assert(ov[q] == yk);
    if a.len() == af.len() {
        assert forall|r: int| 0 <= r < a.len() implies a[r] == af[r] by {}
        lemma_plan_runs_dependencies_first(tasks, dependents, last_run, run_set, direct, front, i, j);
    } else {
        assert(a.drop_last() =~= af);
        assert(action_key(a[a.len() - 1]) == ov[n]);
        if i < af.len() && j < af.len() {
            assert(a[i] == af[i] && a[j] == af[j]);
            lemma_plan_runs_dependencies_first(tasks, dependents, last_run, run_set, direct, front, i, j);
        } else if j == af.len() {
            assert(p == n);
            if i == j {
                assert(q < n);
                assert(ov[q] == ov[n]);
            }
        } else {
            assert(i == af.len());
            assert(j < af.len());
            assert(a[j] == af[j]);
            lemma_planned_keys_in_order(tasks, dependents, last_run, run_set, direct, front, j);
            let p2 = choose|p2: int| 0 <= p2 < fv.len() && fv[p2] == xk;
            assert(ov[p2] == xk);
            assert(p2 == p);
            assert(yk == ov[n]);
            assert(q < p && p < n);
        }
    }
}

} // verus!
