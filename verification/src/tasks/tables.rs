//! The scheduling tables built from the task database: the tasks whose watch globs
//! compile, the dependent edges of each task, the version of each root, and the tasks
//! whose globs did not compile.
use vstd::prelude::*;
use crate::tasks::db::{
    EntryView, OnReload, ResolvedDep, RootState, Task, TaskDb, TaskEntry, TaskKey, deps_view,
    entries_view, names_of, position_of, lemma_position_of_props, unique_names,
};
use crate::tasks::globs::{build_globset, globs_compile};
use crate::tasks::keyed::{
    find_key, key_position, keys_of, lemma_key_position, lemma_key_position_same_keys, unique_keys,
};
use crate::tasks::scheduler::{dep_targets, is_release_order, release_order, DepEdge, TaskRuntime};

verus! {

/// The entries of one root, each under its key (the root and the task's name).
pub open spec fn root_entries(st: (String, RootState)) -> Seq<((Seq<char>, Seq<char>), EntryView)> {
    st.1.tasks@.map_values(|e: (String, TaskEntry)| ((st.0@, e.0@), e.1@))
}

/// Every entry of the database under its key: the roots in order, and in each root its
/// tasks in order.
pub open spec fn db_entries(states: Seq<(String, RootState)>) -> Seq<((Seq<char>, Seq<char>), EntryView)>
    decreases states.len(),
{
    if states.len() == 0 {
        Seq::empty()
    } else {
        db_entries(states.drop_last()) + root_entries(states.last())
    }
}

/// The keys of a list of keyed entries.
pub open spec fn entry_keys(es: Seq<((Seq<char>, Seq<char>), EntryView)>) -> Seq<(Seq<char>, Seq<char>)> {
    es.map_values(|e: ((Seq<char>, Seq<char>), EntryView)| e.0)
}

/// Whether the watch globs of an entry compile.
pub open spec fn entry_compiles(e: ((Seq<char>, Seq<char>), EntryView)) -> bool {
    globs_compile(e.1.task.watch)
}

/// The entries whose watch globs compile, in order.
pub open spec fn kept_entries(es: Seq<((Seq<char>, Seq<char>), EntryView)>) -> Seq<((Seq<char>, Seq<char>), EntryView)>
    decreases es.len(),
{
    if es.len() == 0 {
        Seq::empty()
    } else if entry_compiles(es.last()) {
        kept_entries(es.drop_last()).push(es.last())
    } else {
        kept_entries(es.drop_last())
    }
}

/// The keys of the entries whose watch globs do not compile, in order.
pub open spec fn failed_keys(es: Seq<((Seq<char>, Seq<char>), EntryView)>) -> Seq<(Seq<char>, Seq<char>)>
    decreases es.len(),
{
    if es.len() == 0 {
        Seq::empty()
    } else if entry_compiles(es.last()) {
        failed_keys(es.drop_last())
    } else {
        failed_keys(es.drop_last()).push(es.last().0)
    }
}

/// `u` if present, else `d`.
pub open spec fn or_else(u: Option<u64>, d: u64) -> u64 {
    match u {
        Some(x) => x,
        None => d,
    }
}

/// A scheduled task made from a database entry: same definition, globs compiled from its
/// watch patterns, same dependencies and validity, persistent as the task says, and the
/// re-run hashes of the entry, the definition hash standing in for a missing one.
pub open spec fn runtime_from_entry(rt: TaskRuntime, e: EntryView) -> bool {
    &&& rt.task@ == e.task
    &&& rt.globset@ == e.task.watch
    &&& deps_view(rt.deps@) == e.deps
    &&& rt.valid == e.valid
    &&& rt.persistent == e.task.persistent
    &&& rt.rerun_hash == or_else(e.rerun_hash, e.hash)
    &&& rt.effective_hash == or_else(e.effective_hash, e.hash)
}

/// A dependent edge: the task it leads to, its re-run policy, and whether that task is
/// persistent.
pub open spec fn edge_view(e: DepEdge) -> ((Seq<char>, Seq<char>), OnReload, bool) {
    (e.to@, e.on_reload, e.downstream_persistent)
}

/// The edges an entry adds: for each of its dependencies, under the dependency's target,
/// an edge back to the entry's task.
pub open spec fn entry_edges(e: ((Seq<char>, Seq<char>), EntryView)) -> Seq<((Seq<char>, Seq<char>), ((Seq<char>, Seq<char>), OnReload, bool))> {
    e.1.deps.map_values(
        |d: ((Seq<char>, Seq<char>), OnReload)| (d.0, (e.0, d.1, e.1.task.persistent)),
    )
}

/// The edges, under their upstream keys, of the entries whose globs compile, in order.
pub open spec fn all_edges(es: Seq<((Seq<char>, Seq<char>), EntryView)>) -> Seq<((Seq<char>, Seq<char>), ((Seq<char>, Seq<char>), OnReload, bool))>
    decreases es.len(),
{
    if es.len() == 0 {
        Seq::empty()
    } else if entry_compiles(es.last()) {
        all_edges(es.drop_last()) + entry_edges(es.last())
    } else {
        all_edges(es.drop_last())
    }
}

/// The edges under upstream key `k`, in order.
pub open spec fn edges_from(
    edges: Seq<((Seq<char>, Seq<char>), ((Seq<char>, Seq<char>), OnReload, bool))>,
    k: (Seq<char>, Seq<char>),
) -> Seq<((Seq<char>, Seq<char>), OnReload, bool)>
    decreases edges.len(),
{
    if edges.len() == 0 {
        Seq::empty()
    } else if edges.last().0 == k {
        edges_from(edges.drop_last(), k).push(edges.last().1)
    } else {
        edges_from(edges.drop_last(), k)
    }
}

/// Whether the task under `k` is in the table and persistent.
pub open spec fn persistent_in(tasks: Seq<(TaskKey, TaskRuntime)>, k: (Seq<char>, Seq<char>)) -> bool {
    key_position(tasks, k) >= 0 && tasks[key_position(tasks, k)].1.persistent
}

/// The tables the scheduler works from.
pub struct Tables {
    pub tasks: Vec<(TaskKey, TaskRuntime)>,
    pub dependents: Vec<(TaskKey, Vec<DepEdge>)>,
    pub root_versions: Vec<(String, u64)>,
    pub invalid: Vec<(TaskKey, String)>,
}

/// Whether each dependency of a scheduled task leads to a task of the table, and none of
/// a non-persistent task that re-runs on reloads leads to a persistent one.
pub open spec fn deps_admissible(tasks: Seq<(TaskKey, TaskRuntime)>, rt: TaskRuntime) -> bool {
    forall|t: int|
        0 <= t < rt.deps@.len() ==> {
            &&& key_position(tasks, (#[trigger] rt.deps@[t]).target@) >= 0
            &&& !rt.persistent && rt.deps@[t].on_reload == OnReload::Rerun ==> !persistent_in(
                tasks,
                rt.deps@[t].target@,
            )
        }
}

/// A task of the table made from a database entry as [`runtime_from_entry`] says, its
/// validity aside.
pub open spec fn scheduled_from_entry(rt: TaskRuntime, e: EntryView) -> bool {
    &&& rt.task@ == e.task
    &&& rt.globset@ == e.task.watch
    &&& deps_view(rt.deps@) == e.deps
    &&& rt.persistent == e.task.persistent
    &&& rt.rerun_hash == or_else(e.rerun_hash, e.hash)
    &&& rt.effective_hash == or_else(e.effective_hash, e.hash)
}

/// The tables match a list of keyed entries: the task table holds, in order, the entries
/// whose globs compile, each marked invalid when a dependency is missing from the table or
/// leads from a non-persistent task to a persistent one on an edge that re-runs, or when some release order of
/// the table leaves it out (it sits on a dependency cycle or hangs on one); the dependents table holds, under each key that some edge leaves,
/// those edges in order, each marked with whether its upstream task is persistent; the
/// invalid list names, in order, the entries whose globs do not compile.
pub open spec fn tables_match(
    tasks: Seq<(TaskKey, TaskRuntime)>,
    dependents: Seq<(TaskKey, Vec<DepEdge>)>,
    invalid: Seq<(TaskKey, String)>,
    es: Seq<((Seq<char>, Seq<char>), EntryView)>,
) -> bool {
    let kept = kept_entries(es);
    let edges = all_edges(es);
    &&& unique_keys(tasks)
    &&& tasks.len() == kept.len()
    &&& forall|q: int|
        0 <= q < kept.len() ==> #[trigger] tasks[q].0@ == kept[q].0 && scheduled_from_entry(
            tasks[q].1,
            kept[q].1,
        )
    &&& exists|o: Seq<usize>|
        is_release_order(tasks, o) && forall|q: int|
            0 <= q < kept.len() ==> #[trigger] tasks[q].1.valid == (kept[q].1.valid && deps_admissible(
                tasks,
                tasks[q].1,
            ) && o.contains(q as usize))
    &&& edge_lists_match(dependents, edges)
    &&& forall|p: int, e: int|
        0 <= p < dependents.len() && 0 <= e < dependents[p].1@.len() ==> (#[trigger] dependents[p].1@[e]).upstream_persistent
            == persistent_in(tasks, dependents[p].0@)
    &&& invalid.map_values(|v: (TaskKey, String)| v.0@) == failed_keys(es)
}

/// Each table row of dependents holds, under its key, the edges of `edges` that leave it.
pub open spec fn edge_lists_match(
    deps: Seq<(TaskKey, Vec<DepEdge>)>,
    edges: Seq<((Seq<char>, Seq<char>), ((Seq<char>, Seq<char>), OnReload, bool))>,
) -> bool {
    &&& unique_keys(deps)
    &&& forall|k: (Seq<char>, Seq<char>)|
        #[trigger] key_position(deps, k) >= 0 <==> edges_from(edges, k).len() > 0
    &&& forall|p: int|
        0 <= p < deps.len() ==> (#[trigger] deps[p]).1@.map_values(|e: DepEdge| edge_view(e))
            == edges_from(edges, deps[p].0@)
}

/// Adds an edge under `target`, making a row for it when it has none.
fn add_edge(
    deps: &mut Vec<(TaskKey, Vec<DepEdge>)>,
    target: TaskKey,
    edge: DepEdge,
    Ghost(edges): Ghost<Seq<((Seq<char>, Seq<char>), ((Seq<char>, Seq<char>), OnReload, bool))>>,
)
    requires
        edge_lists_match(old(deps)@, edges),
    ensures
        edge_lists_match(final(deps)@, edges.push((target@, edge_view(edge)))),
{
    let ghost e2 = edges.push((target@, edge_view(edge)));
    proof {
        lemma_key_position(deps@, target@);
        assert(e2.drop_last() =~= edges);
    }
    let ghost before = deps@;
    match find_key(deps, &target) {
        Some(p) => {
            let (key, mut row) = deps.remove(p);
            let ghost row0 = row@;
            row.push(edge);
            deps.insert(p, (key, row));
            proof {
                assert(deps@ =~= before.update(p as int, (key, row)));
                assert(row@.map_values(|e: DepEdge| edge_view(e)) =~= row0.map_values(
                    |e: DepEdge| edge_view(e),
                ).push(edge_view(edge)));
                assert forall|a: int, b: int|
                    0 <= a < deps@.len() && 0 <= b < deps@.len() && a != b implies deps@[a].0@
                    != deps@[b].0@ by {
                    if a != p {
                        assert(deps@[a] == before[a]);
                    }
                    if b != p {
                        assert(deps@[b] == before[b]);
                    }
                }
                assert forall|k: (Seq<char>, Seq<char>)|
                    #[trigger] key_position(deps@, k) >= 0 <==> edges_from(e2, k).len() > 0 by {
                    crate::tasks::keyed::lemma_key_position_same_keys(deps@, before, k);
                    assert forall|q: int| 0 <= q < deps@.len() implies (#[trigger] deps@[q]).0@ == before[q].0@ by {
                        if q != p {
                            assert(deps@[q] == before[q]);
                        }
                    }
                    crate::tasks::keyed::lemma_key_position_same_keys(deps@, before, k);
                }
                assert forall|q: int| 0 <= q < deps@.len() implies (#[trigger] deps@[q]).1@.map_values(
                    |e: DepEdge| edge_view(e),
                ) == edges_from(e2, deps@[q].0@) by {
                    if q != p {
                        assert(deps@[q] == before[q]);
                        assert(before[q].0@ != target@);
                    }
                }
            }
        },
        None => {
            let mut row: Vec<DepEdge> = Vec::new();
            row.push(edge);
            deps.push((target, row));
            proof {
                assert(edges_from(edges, target@).len() == 0);
                assert(row@.map_values(|e: DepEdge| edge_view(e)) =~= edges_from(edges, target@).push(
                    edge_view(edge),
                ));
                assert forall|a: int, b: int|
                    0 <= a < deps@.len() && 0 <= b < deps@.len() && a != b implies deps@[a].0@
                    != deps@[b].0@ by {
                    if a < before.len() {
                        assert(deps@[a] == before[a]);
                    }
                    if b < before.len() {
                        assert(deps@[b] == before[b]);
                    }
                }
                assert forall|k: (Seq<char>, Seq<char>)|
                    #[trigger] key_position(deps@, k) >= 0 <==> edges_from(e2, k).len() > 0 by {
                    lemma_key_position(deps@, k);
                    lemma_key_position(before, k);
                    if key_position(before, k) >= 0 {
                        assert(deps@[key_position(before, k)] == before[key_position(before, k)]);
                    }
                    if key_position(deps@, k) >= 0 && key_position(before, k) < 0 && k != target@ {
                        let q = key_position(deps@, k);
                        if q < before.len() {
                            assert(deps@[q] == before[q]);
                        }
                    }
                    if k == target@ {
                        assert(deps@[before.len() as int].0@ == k);
                    }
                }
                assert forall|q: int| 0 <= q < deps@.len() implies (#[trigger] deps@[q]).1@.map_values(
                    |e: DepEdge| edge_view(e),
                ) == edges_from(e2, deps@[q].0@) by {
                    if q < before.len() {
                        assert(deps@[q] == before[q]);
                        assert(before[q].0@ != target@);
                    }
                }
            }
        },
    }
}

/// Marks each edge with whether the task it leaves is persistent in `tasks`.
fn mark_upstream(
    deps: &Vec<(TaskKey, Vec<DepEdge>)>,
    tasks: &Vec<(TaskKey, TaskRuntime)>,
    Ghost(edges): Ghost<Seq<((Seq<char>, Seq<char>), ((Seq<char>, Seq<char>), OnReload, bool))>>,
) -> (out: Vec<(TaskKey, Vec<DepEdge>)>)
    requires
        edge_lists_match(deps@, edges),
    ensures
        edge_lists_match(out@, edges),
        forall|p: int, e: int|
            0 <= p < out@.len() && 0 <= e < out@[p].1@.len() ==> (#[trigger] out@[p].1@[e]).upstream_persistent
                == persistent_in(tasks@, out@[p].0@),
{
    let mut out: Vec<(TaskKey, Vec<DepEdge>)> = Vec::new();
    let mut p: usize = 0;
    while p < deps.len()
        invariant
            p <= deps@.len(),
            edge_lists_match(deps@, edges),
            out@.len() == p,
            forall|q: int| 0 <= q < p ==> (#[trigger] out@[q]).0@ == deps@[q].0@,
            forall|q: int| 0 <= q < p ==> (#[trigger] out@[q]).1@.map_values(|e: DepEdge| edge_view(e))
                == deps@[q].1@.map_values(|e: DepEdge| edge_view(e)),
            forall|q: int, e: int|
                0 <= q < p && 0 <= e < out@[q].1@.len() ==> (#[trigger] out@[q].1@[e]).upstream_persistent
                    == persistent_in(tasks@, out@[q].0@),
        decreases deps.len() - p,
    {
        let key = deps[p].0.duplicate();
        proof {
            lemma_key_position(tasks@, key@);
        }
        let up = match find_key(tasks, &key) {
            Some(tp) => tasks[tp].1.persistent,
            None => false,
        };
        let src = &deps[p].1;
        let mut row: Vec<DepEdge> = Vec::new();
        let mut e: usize = 0;
        while e < src.len()
            invariant
                e <= src@.len(),
                row@.len() == e,
                forall|x: int| 0 <= x < e ==> edge_view(#[trigger] row@[x]) == edge_view(src@[x]),
                forall|x: int| 0 <= x < e ==> (#[trigger] row@[x]).upstream_persistent == up,
            decreases src.len() - e,
        {
            let ed = &src[e];
            row.push(DepEdge {
                to: ed.to.duplicate(),
                on_reload: ed.on_reload,
                upstream_persistent: up,
                downstream_persistent: ed.downstream_persistent,
            });
            e = e + 1;
        }
        let ghost before = out@;
        assert(row@.map_values(|e: DepEdge| edge_view(e)) =~= src@.map_values(|e: DepEdge| edge_view(e)));
        out.push((key, row));
        proof {
            assert forall|q: int, x: int|
                0 <= q < p + 1 && 0 <= x < out@[q].1@.len() implies (#[trigger] out@[q].1@[x]).upstream_persistent
                    == persistent_in(tasks@, out@[q].0@) by {
                if q < p {
                    assert(out@[q] == before[q]);
                }
            }
        }
        p = p + 1;
    }
    proof {
        assert forall|k: (Seq<char>, Seq<char>)| #[trigger] key_position(out@, k) == key_position(deps@, k) by {
            crate::tasks::keyed::lemma_key_position_same_keys(out@, deps@, k);
        }
        assert forall|a: int, b: int|
            0 <= a < out@.len() && 0 <= b < out@.len() && a != b implies out@[a].0@ != out@[b].0@ by {
            assert(out@[a].0@ == deps@[a].0@ && out@[b].0@ == deps@[b].0@);
        }
    }
    out
}

/// The keys of every entry of the database name a root of it.
proof fn lemma_db_entry_roots(states: Seq<(String, RootState)>, x: int)
    requires
        0 <= x < db_entries(states).len(),
    ensures
        position_of(states, db_entries(states)[x].0.0) >= 0,
    decreases states.len(),
{
    let front = states.drop_last();
    let fe = db_entries(front);
    lemma_position_of_props(states, db_entries(states)[x].0.0);
    if x < fe.len() {
        lemma_db_entry_roots(front, x);
        lemma_position_of_props(front, fe[x].0.0);
        assert(db_entries(states)[x] == fe[x]);
        assert(states[position_of(front, fe[x].0.0)] == front[position_of(front, fe[x].0.0)]);
    } else {
        assert(db_entries(states)[x] == root_entries(states.last())[x - fe.len()]);
        assert(states[states.len() - 1].0@ == db_entries(states)[x].0.0);
    }
}

/// In a database whose roots are distinct and whose roots hold distinctly named tasks,
/// every key occurs once.
proof fn lemma_db_keys_unique(states: Seq<(String, RootState)>)
    requires
        unique_names(states),
        forall|k: int| 0 <= k < states.len() ==> unique_names((#[trigger] states[k]).1.tasks@),
    ensures
        entry_keys(db_entries(states)).no_duplicates(),
    decreases states.len(),
{
    if states.len() > 0 {
        let front = states.drop_last();
        assert forall|a: int, b: int| 0 <= a < front.len() && 0 <= b < front.len() && a != b implies front[a].0@ != front[b].0@ by {
            assert(front[a] == states[a] && front[b] == states[b]);
        }
        assert forall|k: int| 0 <= k < front.len() implies unique_names((#[trigger] front[k]).1.tasks@) by {
            assert(front[k] == states[k]);
        }
        lemma_db_keys_unique(front);
        let fe = db_entries(front);
        let re = root_entries(states.last());
        let all = db_entries(states);
        assert(all == fe + re);
        let ks = entry_keys(all);
        assert forall|a: int, b: int| 0 <= a < ks.len() && 0 <= b < ks.len() && a != b implies ks[a] != ks[b] by {
            if a < fe.len() && b < fe.len() {
                assert(ks[a] == entry_keys(fe)[a] && ks[b] == entry_keys(fe)[b]);
            } else if a >= fe.len() && b >= fe.len() {
                let ta = states.last().1.tasks@;
                assert(ks[a] == (states.last().0@, ta[a - fe.len()].0@));
                assert(ks[b] == (states.last().0@, ta[b - fe.len()].0@));
                assert(states.last() == states[states.len() - 1]);
            } else {
                let (x, y) = if a < fe.len() { (a, b) } else { (b, a) };
                lemma_db_entry_roots(front, x);
                let r = position_of(front, fe[x].0.0);
                lemma_position_of_props(front, fe[x].0.0);
                assert(front[r] == states[r]);
                assert(ks[y].0 == states[states.len() - 1].0@);
                assert(ks[x] == fe[x].0);
            }
        }
    }
}

/// The entries of the first roots come first among the entries of the database.
proof fn lemma_db_entries_prefix(states: Seq<(String, RootState)>, i: int)
    requires
        0 <= i <= states.len(),
    ensures
        db_entries(states.take(i)).len() <= db_entries(states).len(),
        db_entries(states).take(db_entries(states.take(i)).len() as int) == db_entries(states.take(i)),
    decreases states.len(),
{
    if i == states.len() {
        assert(states.take(i) =~= states);
    } else {
        let front = states.drop_last();
        lemma_db_entries_prefix(front, i);
        assert(front.take(i) =~= states.take(i));
        assert(db_entries(states) == db_entries(front) + root_entries(states.last()));
        assert(db_entries(states).take(db_entries(states.take(i)).len() as int) =~= db_entries(front).take(
            db_entries(front.take(i)).len() as int,
        ));
    }
}

/// The kept entries are among the entries.
proof fn lemma_kept_among(es: Seq<((Seq<char>, Seq<char>), EntryView)>, k: (Seq<char>, Seq<char>))
    requires
        entry_keys(kept_entries(es)).contains(k),
    ensures
        entry_keys(es).contains(k),
    decreases es.len(),
{
    if es.len() > 0 {
        let front = es.drop_last();
        if entry_compiles(es.last()) && k == es.last().0 {
            assert(entry_keys(es)[es.len() - 1] == k);
        } else {
            if entry_compiles(es.last()) {
                let kf = entry_keys(kept_entries(front));
                assert(entry_keys(kept_entries(es)) =~= kf.push(es.last().0));
                crate::seqs::lemma_contains_push(kf, es.last().0, k);
            } else {
                assert(entry_keys(kept_entries(es)) =~= entry_keys(kept_entries(front)));
            }
            lemma_kept_among(front, k);
            let q = choose|q: int| 0 <= q < entry_keys(front).len() && entry_keys(front)[q] == k;
            assert(entry_keys(es)[q] == k);
        }
    }
}

/// The tables built so far hold the entries `es`, upstream marks aside.
pub open spec fn built_from(
    tasks: Seq<(TaskKey, TaskRuntime)>,
    deps: Seq<(TaskKey, Vec<DepEdge>)>,
    invalid: Seq<(TaskKey, String)>,
    es: Seq<((Seq<char>, Seq<char>), EntryView)>,
) -> bool {
    let kept = kept_entries(es);
    &&& unique_keys(tasks)
    &&& keys_of(tasks) == entry_keys(kept)
    &&& tasks.len() == kept.len()
    &&& forall|q: int|
        0 <= q < kept.len() ==> #[trigger] tasks[q].0@ == kept[q].0 && runtime_from_entry(tasks[q].1, kept[q].1)
    &&& edge_lists_match(deps, all_edges(es))
    &&& invalid.map_values(|v: (TaskKey, String)| v.0@) == failed_keys(es)
}

/// Adds one database entry to the tables being built.
fn add_entry(
    tasks: &mut Vec<(TaskKey, TaskRuntime)>,
    deps: &mut Vec<(TaskKey, Vec<DepEdge>)>,
    invalid: &mut Vec<(TaskKey, String)>,
    key: TaskKey,
    entry: &TaskEntry,
    Ghost(es): Ghost<Seq<((Seq<char>, Seq<char>), EntryView)>>,
)
    requires
        built_from(old(tasks)@, old(deps)@, old(invalid)@, es),
        !entry_keys(es).contains(key@),
    ensures
        built_from(final(tasks)@, final(deps)@, final(invalid)@, es.push((key@, entry@))),
{
    let ghost cur = (key@, entry@);
    let ghost es2 = es.push(cur);
    proof {
        assert(es2.drop_last() =~= es);
        assert(es2.last() == cur);
    }
    match build_globset(&entry.task.watch) {
        Ok(globset) => {
            let rerun_hash = match entry.rerun_hash {
                Some(h) => h,
                None => entry.hash,
            };
            let effective_hash = match entry.effective_hash {
                Some(h) => h,
                None => entry.hash,
            };
            let persistent = entry.task.persistent;
            let rt = TaskRuntime {
                task: entry.task.duplicate(),
                globset,
                deps: crate::tasks::db::copy_deps(&entry.deps),
                valid: entry.valid,
                persistent,
                rerun_hash,
                effective_hash,
            };
            assert(runtime_from_entry(rt, entry@));
            assert(entry_compiles(cur));
            let ghost base = all_edges(es);
            let ghost ee = entry_edges(cur);
            let ghost tk0 = tasks@;
            let ghost iv0 = invalid@;
            let mut d: usize = 0;
            assert(base + ee.take(0) =~= base);
            while d < entry.deps.len()
                invariant
                    d <= entry.deps@.len(),
                    ee == entry_edges(cur),
                    cur == (key@, entry@),
                    persistent == entry.task.persistent,
                    ee.len() == entry.deps@.len(),
                    edge_lists_match(deps@, base + ee.take(d as int)),
                    tasks@ == tk0,
                    invalid@ == iv0,
                decreases entry.deps.len() - d,
            {
                let dep = &entry.deps[d];
                let edge = DepEdge {
                    to: key.duplicate(),
                    on_reload: dep.on_reload,
                    upstream_persistent: false,
                    downstream_persistent: persistent,
                };
                proof {
                    assert(ee[d as int] == (dep.target@, edge_view(edge)));
                    assert((base + ee.take(d as int)).push((dep.target@, edge_view(edge))) =~= base
                        + ee.take(d + 1));
                }
                add_edge(deps, dep.target.duplicate(), edge, Ghost(base + ee.take(d as int)));
                d = d + 1;
            }
            proof {
                assert(ee.take(ee.len() as int) =~= ee);
                assert(all_edges(es2) == base + ee);
            }
            let ghost tk = tasks@;
            tasks.push((key, rt));
            proof {
                let kept2 = kept_entries(es2);
                assert(kept2 == kept_entries(es).push(cur));
                assert(keys_of(tasks@) =~= keys_of(tk).push(key@));
                assert(entry_keys(kept2) =~= entry_keys(kept_entries(es)).push(key@));
                if keys_of(tk).contains(key@) {
                    lemma_kept_among(es, key@);
                }
                assert forall|a: int, b: int|
                    0 <= a < tasks@.len() && 0 <= b < tasks@.len() && a != b implies tasks@[a].0@
                    != tasks@[b].0@ by {
                    if a < tk.len() && b < tk.len() {
                        assert(tasks@[a] == tk[a] && tasks@[b] == tk[b]);
                    } else if a < tk.len() {
                        assert(keys_of(tk)[a] == tasks@[a].0@);
                    } else if b < tk.len() {
                        assert(keys_of(tk)[b] == tasks@[b].0@);
                    }
                }
                assert forall|q: int| 0 <= q < kept2.len() implies #[trigger] tasks@[q].0@ == kept2[q].0
                    && runtime_from_entry(tasks@[q].1, kept2[q].1) by {
                    if q < tk.len() {
                        assert(tasks@[q] == tk[q]);
                    }
                }
                assert(failed_keys(es2) == failed_keys(es));
            }
        },
        Err(e) => {
            assert(!entry_compiles(cur));
            let ghost iv = invalid@;
            invalid.push((key, e.message));
            proof {
                assert(kept_entries(es2) == kept_entries(es));
                assert(all_edges(es2) == all_edges(es));
                assert(invalid@.map_values(|v: (TaskKey, String)| v.0@) =~= iv.map_values(
                    |v: (TaskKey, String)| v.0@,
                ).push(cur.0));
            }
        },
    }
}

/// The versions of the roots of a database, in order.
pub open spec fn versions_of(states: Seq<(String, RootState)>) -> Seq<(Seq<char>, u64)> {
    states.map_values(|s: (String, RootState)| (s.0@, s.1.version))
}

/// The texts of a list of root versions.
pub open spec fn versions_view(v: Seq<(String, u64)>) -> Seq<(Seq<char>, u64)> {
    v.map_values(|r: (String, u64)| (r.0@, r.1))
}

/// Whether the dependencies of the task at position `q` are admissible in the table.
fn admissible(tasks: &Vec<(TaskKey, TaskRuntime)>, q: usize) -> (b: bool)
    requires
        q < tasks@.len(),
    ensures
        b == deps_admissible(tasks@, tasks@[q as int].1),
{
    let rt = &tasks[q].1;
    let mut t: usize = 0;
    while t < rt.deps.len()
        invariant
            q < tasks@.len(),
            *rt == tasks@[q as int].1,
            t <= rt.deps@.len(),
            forall|s: int|
                0 <= s < t ==> {
                    &&& key_position(tasks@, (#[trigger] rt.deps@[s]).target@) >= 0
                    &&& !rt.persistent && rt.deps@[s].on_reload == OnReload::Rerun ==> !persistent_in(
                        tasks@,
                        rt.deps@[s].target@,
                    )
                },
        decreases rt.deps.len() - t,
    {
        proof {
            lemma_key_position(tasks@, rt.deps@[t as int].target@);
        }
        match find_key(tasks, &rt.deps[t].target) {
            None => {
                return false;
            },
            Some(p) => {
                let reruns = match rt.deps[t].on_reload {
                    OnReload::Rerun => true,
                    OnReload::Ignore => false,
                };
                if !rt.persistent && reruns && tasks[p].1.persistent {
                    return false;
                }
            },
        }
        t = t + 1;
    }
    true
}

/// Whether the dependencies of each task of the table are admissible in it.
fn admissible_flags(tasks: &Vec<(TaskKey, TaskRuntime)>) -> (flags: Vec<bool>)
    ensures
        flags@.len() == tasks@.len(),
        forall|r: int| 0 <= r < tasks@.len() ==> flags@[r] == deps_admissible(tasks@, (#[trigger] tasks@[r]).1),
{
    let mut flags: Vec<bool> = Vec::new();
    let mut q: usize = 0;
    while q < tasks.len()
        invariant
            q <= tasks@.len(),
            flags@.len() == q,
            forall|r: int| 0 <= r < q ==> flags@[r] == deps_admissible(tasks@, (#[trigger] tasks@[r]).1),
        decreases tasks.len() - q,
    {
        flags.push(admissible(tasks, q));
        q = q + 1;
    }
    flags
}

/// Whether each of the first `n` positions is listed in `o`.
fn listed_flags(n: usize, o: &Vec<usize>) -> (flags: Vec<bool>)
    ensures
        flags@.len() == n,
        forall|r: int| 0 <= r < n ==> #[trigger] flags@[r] == o@.contains(r as usize),
{
    let mut flags: Vec<bool> = Vec::new();
    let mut q: usize = 0;
    while q < n
        invariant
            q <= n,
            flags@.len() == q,
            forall|r: int| 0 <= r < q ==> #[trigger] flags@[r] == o@.contains(r as usize),
        decreases n - q,
    {
        let mut found = false;
        let mut k: usize = 0;
        while k < o.len()
            invariant
                k <= o@.len(),
                found == o@.take(k as int).contains(q),
            decreases o.len() - k,
        {
            proof {
                assert(o@.take(k + 1) =~= o@.take(k as int).push(o@[k as int]));
                crate::seqs::lemma_contains_push(o@.take(k as int), o@[k as int], q);
            }
            if o[k] == q {
                found = true;
            }
            k = k + 1;
        }
        proof {
            assert(o@.take(o@.len() as int) =~= o@);
        }
        flags.push(found);
        q = q + 1;
    }
    flags
}

/// Marks invalid each task of the table whose flag is off; nothing else changes.
fn restrict_valid(tasks: Vec<(TaskKey, TaskRuntime)>, flags: &Vec<bool>) -> (out: Vec<(TaskKey, TaskRuntime)>)
    requires
        flags@.len() == tasks@.len(),
    ensures
        out@.len() == tasks@.len(),
        forall|q: int|
            0 <= q < tasks@.len() ==> {
                &&& (#[trigger] out@[q]).0 == tasks@[q].0
                &&& out@[q].1.task == tasks@[q].1.task
                &&& out@[q].1.globset == tasks@[q].1.globset
                &&& out@[q].1.deps == tasks@[q].1.deps
                &&& out@[q].1.persistent == tasks@[q].1.persistent
                &&& out@[q].1.rerun_hash == tasks@[q].1.rerun_hash
                &&& out@[q].1.effective_hash == tasks@[q].1.effective_hash
                &&& out@[q].1.valid == (tasks@[q].1.valid && flags@[q])
            },
{
    let ghost before = tasks@;
    let mut tasks = tasks;
    let mut i: usize = 0;
    while i < tasks.len()
        invariant
            tasks@.len() == before.len(),
            i <= before.len(),
            flags@.len() == before.len(),
            forall|r: int| i <= r < before.len() ==> #[trigger] tasks@[r] == before[r],
            forall|r: int|
                0 <= r < i ==> {
                    &&& (#[trigger] tasks@[r]).0 == before[r].0
                    &&& tasks@[r].1.task == before[r].1.task
                    &&& tasks@[r].1.globset == before[r].1.globset
                    &&& tasks@[r].1.deps == before[r].1.deps
                    &&& tasks@[r].1.persistent == before[r].1.persistent
                    &&& tasks@[r].1.rerun_hash == before[r].1.rerun_hash
                    &&& tasks@[r].1.effective_hash == before[r].1.effective_hash
                    &&& tasks@[r].1.valid == (before[r].1.valid && flags@[r])
                },
        decreases before.len() - i,
    {
        let ghost cur = tasks@;
        let (key, rt) = tasks.remove(i);
        let TaskRuntime { task, globset, deps, valid, persistent, rerun_hash, effective_hash } = rt;
        let ok = flags[i];
        tasks.insert(i, (key, TaskRuntime { task, globset, deps, valid: valid && ok, persistent, rerun_hash, effective_hash }));
        proof {
            assert forall|r: int| 0 <= r < before.len() && r != i implies #[trigger] tasks@[r] == cur[r] by {}
        }
        i = i + 1;
    }
    tasks
}

/// Two tables with the same keys and dependencies at each position release the same
/// tasks.
proof fn lemma_release_same_tables(
    a: Seq<(TaskKey, TaskRuntime)>,
    b: Seq<(TaskKey, TaskRuntime)>,
    o: Seq<usize>,
)
    requires
        a.len() == b.len(),
        forall|k: int| 0 <= k < a.len() ==> (#[trigger] a[k]).0@ == b[k].0@ && a[k].1.deps == b[k].1.deps,
    ensures
        is_release_order(a, o) == is_release_order(b, o),
{
    assert(dep_targets(a) =~= dep_targets(b)) by {
        assert forall|k: int| 0 <= k < a.len() implies dep_targets(a)[k] == dep_targets(b)[k] by {
            assert(a[k].1.deps == b[k].1.deps);
        }
    }
    assert forall|key: (Seq<char>, Seq<char>)| #[trigger] key_position(a, key) == key_position(b, key) by {
        lemma_key_position_same_keys(a, b, key);
    }
}

/// Two tables with the same keys and persistence at each position admit the same
/// dependencies.
proof fn lemma_admissible_same_tables(
    a: Seq<(TaskKey, TaskRuntime)>,
    b: Seq<(TaskKey, TaskRuntime)>,
    rt: TaskRuntime,
)
    requires
        a.len() == b.len(),
        forall|k: int| 0 <= k < a.len() ==> (#[trigger] a[k]).0@ == b[k].0@ && a[k].1.persistent == b[k].1.persistent,
    ensures
        deps_admissible(a, rt) == deps_admissible(b, rt),
{
    assert forall|t: int| 0 <= t < rt.deps@.len() implies key_position(a, (#[trigger] rt.deps@[t]).target@)
        == key_position(b, rt.deps@[t].target@) && persistent_in(a, rt.deps@[t].target@) == persistent_in(
        b,
        rt.deps@[t].target@,
    ) by {
        lemma_key_position_same_keys(a, b, rt.deps@[t].target@);
        lemma_key_position(a, rt.deps@[t].target@);
    }
}

/// Builds the scheduling tables from the database: every task of every root, in root
/// order and then in name order, goes into the task table when its watch globs compile
/// and into the invalid list otherwise; a task of the table whose dependencies are not
/// admissible in it is marked invalid; the dependencies of the tasks in the table become
/// edges under the task each depends on; and each root's version is recorded.
pub fn build_tables(db: &TaskDb) -> (t: Tables)
    requires
        db.wf(),
    ensures
        tables_match(t.tasks@, t.dependents@, t.invalid@, db_entries(db.states())),
        versions_view(t.root_versions@) == versions_of(db.states()),
{
    let ghost states = db.states();
    proof {
        db.lemma_wf_unique();
        lemma_db_keys_unique(states);
    }
    let roots = db.roots();
    let mut tasks: Vec<(TaskKey, TaskRuntime)> = Vec::new();
    let mut deps: Vec<(TaskKey, Vec<DepEdge>)> = Vec::new();
    let mut invalid: Vec<(TaskKey, String)> = Vec::new();
    let mut versions: Vec<(String, u64)> = Vec::new();
    let mut i: usize = 0;
    proof {
        assert(states.take(0) =~= Seq::<(String, RootState)>::empty());
        assert(versions_view(versions@) =~= versions_of(states.take(0)));
        let e0 = db_entries(states.take(0));
        assert(e0 =~= Seq::empty());
        assert(kept_entries(e0) =~= Seq::empty());
        assert(all_edges(e0) =~= Seq::empty());
        assert(failed_keys(e0) =~= Seq::empty());
        assert(keys_of(tasks@) =~= entry_keys(kept_entries(e0)));
        assert(invalid@.map_values(|v: (TaskKey, String)| v.0@) =~= failed_keys(e0));
        assert forall|k: (Seq<char>, Seq<char>)|
            #[trigger] key_position(deps@, k) >= 0 <==> edges_from(all_edges(e0), k).len() > 0 by {
            assert(edges_from(all_edges(e0), k) =~= Seq::empty());
        }
        assert(crate::tasks::db::strings_view(roots@).len() == roots@.len());
    }
    while i < roots.len()
        invariant
            states == db.states(),
            unique_names(states),
            entry_keys(db_entries(states)).no_duplicates(),
            crate::tasks::db::strings_view(roots@) == names_of(states),
            i <= roots@.len(),
            built_from(tasks@, deps@, invalid@, db_entries(states.take(i as int))),
            versions_view(versions@) == versions_of(states.take(i as int)),
        decreases roots.len() - i,
    {
        let root = &roots[i];
        proof {
            assert(crate::tasks::db::strings_view(roots@).len() == roots@.len());
            assert(names_of(states).len() == states.len());
            assert(crate::tasks::db::strings_view(roots@)[i as int] == root@);
            assert(names_of(states)[i as int] == states[i as int].0@);
            assert(root@ == states[i as int].0@);
            crate::tasks::db::lemma_position_of_unique(states, i as int);
        }
        let snap = match db.snapshot(root.as_str()) {
            Some(s) => s,
            None => {
                proof {
                    assert(false);
                }
                return Tables { tasks, dependents: deps, root_versions: versions, invalid };
            },
        };
        let ghost st = states[i as int];
        let ghost done = db_entries(states.take(i as int));
        let ghost re = root_entries(st);
        proof {
            assert(states.take(i + 1).drop_last() =~= states.take(i as int));
            assert(db_entries(states.take(i + 1)) == done + re);
            lemma_db_entries_prefix(states, i + 1);
            assert(done + re.take(0) =~= done);
        }
        let ghost vb = versions@;
        let root_copy = root.clone();
        assert(snap.version == st.1.version);
        versions.push((root_copy, snap.version));
        proof {
            assert(states.take(i + 1) =~= states.take(i as int).push(st));
            assert(versions_of(states.take(i + 1)) =~= versions_of(states.take(i as int)).push((st.0@, st.1.version)));
            assert(versions_view(versions@) =~= versions_view(vb).push((root@, snap.version)));
            assert(versions_view(versions@) =~= versions_of(states.take(i + 1)));
        }
        let mut j: usize = 0;
        while j < snap.tasks.len()
            invariant
                states == db.states(),
                st == states[i as int],
                re == root_entries(st),
                done == db_entries(states.take(i as int)),
                db_entries(states.take(i + 1)) == done + re,
                db_entries(states.take(i + 1)).len() <= db_entries(states).len(),
                db_entries(states).take(db_entries(states.take(i + 1)).len() as int) == db_entries(
                    states.take(i + 1),
                ),
                entry_keys(db_entries(states)).no_duplicates(),
                root@ == st.0@,
                crate::tasks::db::entries_view(snap.tasks@) == crate::tasks::db::entries_view(st.1.tasks@),
                j <= snap.tasks@.len(),
                built_from(tasks@, deps@, invalid@, done + re.take(j as int)),
            decreases snap.tasks.len() - j,
        {
            let name = &snap.tasks[j].0;
            let entry = &snap.tasks[j].1;
            let key = TaskKey { root: root.clone(), name: name.clone() };
            let ghost es = done + re.take(j as int);
            proof {
                let ev1 = crate::tasks::db::entries_view(snap.tasks@);
                let ev2 = crate::tasks::db::entries_view(st.1.tasks@);
                assert(ev1.len() == snap.tasks@.len() && ev2.len() == st.1.tasks@.len());
                assert(ev1[j as int] == (name@, entry@));
                assert(ev2[j as int] == (st.1.tasks@[j as int].0@, st.1.tasks@[j as int].1@));
                assert(re[j as int] == ((st.0@, st.1.tasks@[j as int].0@), st.1.tasks@[j as int].1@));
                assert(re[j as int] == (key@, entry@));
                assert(es.push((key@, entry@)) =~= done + re.take(j + 1));
                let full = db_entries(states);
                let n = es.len() as int;
                assert(full.take(n + 1) =~= (done + re).take(n + 1));
                assert((done + re).take(n + 1) =~= es.push((key@, entry@)));
                assert(full.len() >= n + 1);
                if entry_keys(es).contains(key@) {
                    let q = choose|q: int| 0 <= q < entry_keys(es).len() && entry_keys(es)[q] == key@;
                    assert(full[q] == full.take(n + 1)[q]);
                    assert(full.take(n + 1)[q] == es[q]);
                    assert(entry_keys(full)[q] == entry_keys(es)[q]);
                    assert(full[n] == full.take(n + 1)[n]);
                    assert(entry_keys(full)[n] == key@);
                }
            }
            add_entry(&mut tasks, &mut deps, &mut invalid, key, entry, Ghost(es));
            j = j + 1;
        }
        proof {
            assert(crate::tasks::db::entries_view(snap.tasks@).len() == snap.tasks@.len());
            assert(crate::tasks::db::entries_view(st.1.tasks@).len() == st.1.tasks@.len());
            assert(re.len() == snap.tasks@.len());
            assert(re.take(j as int) =~= re);
        }
        i = i + 1;
    }
    proof {
        assert(crate::tasks::db::strings_view(roots@).len() == roots@.len());
        assert(names_of(states).len() == states.len());
        assert(states.take(roots@.len() as int) =~= states);
    }
    let ghost es = db_entries(states);
    let ghost plain = tasks@;
    let flags = admissible_flags(&tasks);
    let tasks = restrict_valid(tasks, &flags);
    let ghost middle = tasks@;
    proof {
        assert forall|a: int, b: int|
            0 <= a < tasks@.len() && 0 <= b < tasks@.len() && a != b implies tasks@[a].0@ != tasks@[b].0@ by {
            assert(tasks@[a].0 == plain[a].0 && tasks@[b].0 == plain[b].0);
        }
    }
    let order = release_order(&tasks);
    let released = listed_flags(tasks.len(), &order);
    let tasks = restrict_valid(tasks, &released);
    proof {
        let kept = kept_entries(es);
        assert forall|k: int| 0 <= k < plain.len() implies (#[trigger] plain[k]).0@ == tasks@[k].0@
            && plain[k].1.persistent == tasks@[k].1.persistent by {
            assert(middle[k].0 == plain[k].0);
            assert(tasks@[k].0 == middle[k].0);
        }
        assert forall|k: int| 0 <= k < middle.len() implies (#[trigger] middle[k]).0@ == tasks@[k].0@
            && middle[k].1.deps == tasks@[k].1.deps by {
            assert(tasks@[k].0 == middle[k].0);
        }
        lemma_release_same_tables(middle, tasks@, order@);
        assert forall|q: int| 0 <= q < kept.len() implies #[trigger] tasks@[q].0@ == kept[q].0
            && scheduled_from_entry(tasks@[q].1, kept[q].1) by {
            assert(plain[q].0@ == kept[q].0);
            assert(runtime_from_entry(plain[q].1, kept[q].1));
            assert(tasks@[q].1.deps == plain[q].1.deps);
        }
        assert forall|q: int| 0 <= q < kept.len() implies #[trigger] tasks@[q].1.valid == (kept[q].1.valid
            && deps_admissible(tasks@, tasks@[q].1) && order@.contains(q as usize)) by {
            assert(runtime_from_entry(plain[q].1, kept[q].1));
            lemma_admissible_same_tables(plain, tasks@, plain[q].1);
            assert(tasks@[q].1.deps == plain[q].1.deps);
            assert(tasks@[q].1.persistent == plain[q].1.persistent);
        }
        assert forall|a: int, b: int|
            0 <= a < tasks@.len() && 0 <= b < tasks@.len() && a != b implies tasks@[a].0@ != tasks@[b].0@ by {
            assert(tasks@[a].0 == plain[a].0 && tasks@[b].0 == plain[b].0);
        }
    }
    let dependents = mark_upstream(&deps, &tasks, Ghost(all_edges(es)));
    Tables { tasks, dependents, root_versions: versions, invalid }
}

} // verus!
