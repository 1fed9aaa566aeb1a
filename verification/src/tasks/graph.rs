//! Dependency graphs over node indices: topological ordering by repeated removal of
//! nodes whose dependencies are all placed (Kahn's method).
use vstd::prelude::*;
use std::collections::VecDeque;

verus! {

/// The dependencies of every node, each resolved to the index of its target node or to
/// `None` when the target is not a node of the graph.
pub open spec fn resolved_view(res: &Vec<Vec<Option<usize>>>) -> Seq<Seq<Option<usize>>> {
    Seq::new(res@.len(), |i: int| res@[i]@)
}

/// Every resolved dependency names a node of the graph.
pub open spec fn well_resolved(r: Seq<Seq<Option<usize>>>) -> bool {
    forall|i: int, t: int|
        0 <= i < r.len() && 0 <= t < r[i].len() ==> (#[trigger] r[i][t] matches Some(j) ==> j
            < r.len())
}

/// Number of dependencies in `deps` that are not resolved to a node already in `done`.
pub open spec fn pending(deps: Seq<Option<usize>>, done: Seq<usize>) -> nat
    decreases deps.len(),
{
    if deps.len() == 0 {
        0
    } else {
        pending(deps.drop_last(), done) + match deps.last() {
            Some(j) => if done.contains(j) {
                0nat
            } else {
                1nat
            },
            None => 1nat,
        }
    }
}

/// Number of dependencies in `deps` resolved to node `j`.
pub open spec fn count_to(deps: Seq<Option<usize>>, j: usize) -> nat
    decreases deps.len(),
{
    if deps.len() == 0 {
        0
    } else {
        count_to(deps.drop_last(), j) + if deps.last() == Some(j) {
            1nat
        } else {
            0nat
        }
    }
}

/// Number of occurrences of `u` in `s`.
pub open spec fn occ(s: Seq<usize>, u: usize) -> nat
    decreases s.len(),
{
    if s.len() == 0 {
        0
    } else {
        occ(s.drop_last(), u) + if s.last() == u {
            1nat
        } else {
            0nat
        }
    }
}

/// `order` lists distinct nodes of a graph with `n` nodes.
pub open spec fn distinct_nodes(order: Seq<usize>, n: nat) -> bool {
    &&& order.no_duplicates()
    &&& forall|p: int| 0 <= p < order.len() ==> #[trigger] order[p] < n
}

/// Every dependency of every listed node is resolved to a node listed before it.
pub open spec fn deps_first(order: Seq<usize>, r: Seq<Seq<Option<usize>>>) -> bool {
    forall|p: int, t: int|
        0 <= p < order.len() && 0 <= t < r[order[p] as int].len() ==> {
            &&& #[trigger] r[order[p] as int][t] is Some
            &&& order.take(p).contains(r[order[p] as int][t]->0)
        }
}

/// `order` lists every node of the graph exactly once, each after all of its dependencies.
pub open spec fn is_dependency_order(order: Seq<usize>, r: Seq<Seq<Option<usize>>>) -> bool {
    &&& order.len() == r.len()
    &&& distinct_nodes(order, r.len())
    &&& deps_first(order, r)
}

proof fn lemma_pending_push(deps: Seq<Option<usize>>, done: Seq<usize>, j: usize)
    requires
        !done.contains(j),
    ensures
        pending(deps, done.push(j)) + count_to(deps, j) == pending(deps, done),
    decreases deps.len(),
{
    if deps.len() > 0 {
        lemma_pending_push(deps.drop_last(), done, j);
        assert forall|x: usize| done.push(j).contains(x) <==> (done.contains(x) || x == j) by {
            if done.push(j).contains(x) {
                let k = choose|k: int| 0 <= k < done.push(j).len() && done.push(j)[k] == x;
                if k < done.len() {
                    assert(done[k] == x);
                }
            }
            if done.contains(x) {
                let k = choose|k: int| 0 <= k < done.len() && done[k] == x;
                assert(done.push(j)[k] == x);
            }
            if x == j {
                assert(done.push(j)[done.len() as int] == x);
            }
        }
    }
}

/// Every node left out of `order` has a dependency that is unresolved or left out too.
pub open spec fn rest_blocked(order: Seq<usize>, r: Seq<Seq<Option<usize>>>) -> bool {
    forall|v: usize|
        v < r.len() && !order.contains(v) ==> exists|t: int|
            0 <= t < r[v as int].len() && (#[trigger] r[v as int][t] is None || !order.contains(
                r[v as int][t]->0,
            ))
}

proof fn lemma_pending_zero(deps: Seq<Option<usize>>, done: Seq<usize>, t: int)
    requires
        pending(deps, done) == 0,
        0 <= t < deps.len(),
    ensures
        deps[t] is Some,
        done.contains(deps[t]->0),
    decreases deps.len(),
{
    if t < deps.len() - 1 {
        lemma_pending_zero(deps.drop_last(), done, t);
    }
}

proof fn lemma_pending_positive(deps: Seq<Option<usize>>, done: Seq<usize>) -> (t: int)
    requires
        pending(deps, done) > 0,
    ensures
        0 <= t < deps.len(),
        deps[t] is None || !done.contains(deps[t]->0),
    decreases deps.len(),
{
    if pending(deps.drop_last(), done) > 0 {
        lemma_pending_positive(deps.drop_last(), done)
    } else {
        (deps.len() - 1) as int
    }
}

proof fn lemma_count_le_pending(deps: Seq<Option<usize>>, done: Seq<usize>, j: usize)
    requires
        !done.contains(j),
    ensures
        count_to(deps, j) <= pending(deps, done),
    decreases deps.len(),
{
    if deps.len() > 0 {
        lemma_count_le_pending(deps.drop_last(), done, j);
    }
}

proof fn lemma_pending_bound(deps: Seq<Option<usize>>, done: Seq<usize>)
    ensures
        pending(deps, done) <= deps.len(),
    decreases deps.len(),
{
    if deps.len() > 0 {
        lemma_pending_bound(deps.drop_last(), done);
    }
}

proof fn lemma_pending_empty(deps: Seq<Option<usize>>)
    ensures
        pending(deps, Seq::empty()) == deps.len(),
    decreases deps.len(),
{
    if deps.len() > 0 {
        lemma_pending_empty(deps.drop_last());
    }
}

proof fn lemma_count_take_step(deps: Seq<Option<usize>>, t: int, j: usize)
    requires
        0 <= t < deps.len(),
    ensures
        count_to(deps.take(t + 1), j) == count_to(deps.take(t), j) + if deps[t] == Some(j) {
            1nat
        } else {
            0nat
        },
{
    assert(deps.take(t + 1).drop_last() =~= deps.take(t));
}

proof fn lemma_occ_push(s: Seq<usize>, x: usize, u: usize)
    ensures
        occ(s.push(x), u) == occ(s, u) + if x == u {
            1nat
        } else {
            0nat
        },
{
    assert(s.push(x).drop_last() =~= s);
}

proof fn lemma_occ_take_step(s: Seq<usize>, k: int, u: usize)
    requires
        0 <= k < s.len(),
    ensures
        occ(s.take(k + 1), u) == occ(s.take(k), u) + if s[k] == u {
            1nat
        } else {
            0nat
        },
{
    assert(s.take(k + 1).drop_last() =~= s.take(k));
}

proof fn lemma_occ_take_le(s: Seq<usize>, k: int, u: usize)
    requires
        0 <= k <= s.len(),
    ensures
        occ(s.take(k), u) <= occ(s, u),
    decreases s.len() - k,
{
    if k < s.len() {
        lemma_occ_take_step(s, k, u);
        lemma_occ_take_le(s, k + 1, u);
    } else {
        assert(s.take(k) =~= s);
    }
}

pub proof fn lemma_distinct_len(s: Seq<usize>, n: nat)
    requires
        distinct_nodes(s, n),
    ensures
        s.len() <= n,
    decreases n,
{
    if n == 0 {
        if s.len() > 0 {
            assert(s[0] < 0);
        }
    } else {
        let m = (n - 1) as usize;
        if s.contains(m) {
            let k = choose|k: int| 0 <= k < s.len() && s[k] == m;
            let s2 = s.remove(k);
            assert forall|p: int| 0 <= p < s2.len() implies #[trigger] s2[p] < (n - 1) as nat by {
                if p < k {
                    assert(s2[p] == s[p]);
                } else {
                    assert(s2[p] == s[p + 1]);
                }
            }
            assert(s2.no_duplicates()) by {
                assert forall|a: int, b: int|
                    0 <= a < s2.len() && 0 <= b < s2.len() && a != b implies s2[a] != s2[b] by {
                    let a1 = if a < k {
                        a
                    } else {
                        a + 1
                    };
                    let b1 = if b < k {
                        b
                    } else {
                        b + 1
                    };
                    assert(s2[a] == s[a1]);
                    assert(s2[b] == s[b1]);
                }
            }
            lemma_distinct_len(s2, (n - 1) as nat);
        } else {
            assert forall|p: int| 0 <= p < s.len() implies #[trigger] s[p] < (n - 1) as nat by {
                if s[p] == m {
                    assert(s.contains(m));
                }
            }
            lemma_distinct_len(s, (n - 1) as nat);
        }
    }
}

/// The first position in `order` holding a node that `done` lacks, if there is one.
proof fn lemma_first_missing(order: Seq<usize>, done: Seq<usize>, u: usize) -> (p: int)
    requires
        order.contains(u),
        !done.contains(u),
    ensures
        0 <= p < order.len(),
        !done.contains(order[p]),
        forall|q: int| 0 <= q < p ==> done.contains(#[trigger] order[q]),
    decreases order.len(),
{
    let last = order.last();
    let front = order.drop_last();
    if front.contains(u) {
        let p = lemma_first_missing(front, done, u);
        assert(order[p] == front[p]);
        assert forall|q: int| 0 <= q < p implies done.contains(#[trigger] order[q]) by {
            assert(order[q] == front[q]);
        }
        p
    } else {
        if exists|q: int| 0 <= q < front.len() && !done.contains(#[trigger] front[q]) {
            let q0 = choose|q: int| 0 <= q < front.len() && !done.contains(#[trigger] front[q]);
            assert(front.contains(front[q0]));
            let p = lemma_first_missing(front, done, front[q0]);
            assert(order[p] == front[p]);
            assert forall|q: int| 0 <= q < p implies done.contains(#[trigger] order[q]) by {
                assert(order[q] == front[q]);
            }
            p
        } else {
            let k = choose|k: int| 0 <= k < order.len() && order[k] == u;
            if k < front.len() {
                assert(front[k] == u);
                assert(front.contains(u));
            }
            assert forall|q: int| 0 <= q < order.len() - 1 implies done.contains(
                #[trigger] order[q],
            ) by {
                assert(order[q] == front[q]);
            }
            order.len() - 1
        }
    }
}

/// When every remaining node still waits for a dependency, no dependency order exists.
proof fn lemma_stuck_has_no_order(
    r: Seq<Seq<Option<usize>>>,
    done: Seq<usize>,
    u: usize,
    order: Seq<usize>,
)
    requires
        well_resolved(r),
        u < r.len(),
        !done.contains(u),
        forall|v: usize| v < r.len() && !done.contains(v) ==> #[trigger] pending(r[v as int], done) > 0,
    ensures
        !is_dependency_order(order, r),
{
    if is_dependency_order(order, r) {
        lemma_all_listed(order, r.len() as nat, u);
        let p = lemma_first_missing(order, done, u);
        let v = order[p];
        assert(pending(r[v as int], done) > 0);
        let t = lemma_pending_positive(r[v as int], done);
        assert(r[order[p] as int][t] is Some);
        let j = r[v as int][t]->0;
        assert(order.take(p).contains(j));
        let q = choose|q: int| 0 <= q < order.take(p).len() && order.take(p)[q] == j;
        assert(order[q] == j);
        assert(done.contains(order[q]));
    }
}

/// A list of `n` distinct nodes below `n` holds every node below `n`.
proof fn lemma_all_listed(s: Seq<usize>, n: nat, u: usize)
    requires
        distinct_nodes(s, n),
        s.len() == n,
        u < n,
    ensures
        s.contains(u),
{
    if !s.contains(u) {
        let s2 = s.push(u);
        assert(s2.no_duplicates()) by {
            assert forall|a: int, b: int|
                0 <= a < s2.len() && 0 <= b < s2.len() && a != b implies s2[a] != s2[b] by {
                if a < s.len() && b < s.len() {
                    assert(s2[a] == s[a] && s2[b] == s[b]);
                } else if a < s.len() {
                    assert(s2[a] == s[a]);
                    assert(s.contains(s[a]));
                } else if b < s.len() {
                    assert(s2[b] == s[b]);
                    assert(s.contains(s[b]));
                }
            }
        }
        assert forall|p: int| 0 <= p < s2.len() implies #[trigger] s2[p] < n by {
            if p < s.len() {
                assert(s2[p] == s[p]);
            }
        }
        lemma_distinct_len(s2, n);
    }
}

/// Orders the nodes of a graph so that every node comes after all of its dependencies,
/// starting from the nodes without dependencies and releasing a node once its last
/// dependency is placed. Nodes never released (those on a cycle, those waiting for a
/// dependency outside the graph, and those depending on either) are left out.
pub fn dependency_order(res: &Vec<Vec<Option<usize>>>) -> (order: Vec<usize>)
    requires
        well_resolved(resolved_view(res)),
    ensures
        distinct_nodes(order@, res.len() as nat),
        deps_first(order@, resolved_view(res)),
        order.len() < res.len() ==> !exists|o: Seq<usize>|
            is_dependency_order(o, resolved_view(res)),
        rest_blocked(order@, resolved_view(res)),
{
    let ghost r = resolved_view(res);
    let n = res.len();
    let mut indeg: Vec<usize> = Vec::new();
    let mut adj: Vec<Vec<usize>> = Vec::new();
    let mut i: usize = 0;
    while i < n
        invariant
            i <= n,
            n == res.len(),
            r == resolved_view(res),
            indeg.len() == i,
            adj.len() == i,
            forall|u: int| 0 <= u < i ==> #[trigger] indeg@[u] == r[u].len(),
            forall|u: int| 0 <= u < i ==> #[trigger] adj@[u]@.len() == 0,
        decreases n - i,
    {
        indeg.push(res[i].len());
        adj.push(Vec::new());
        i = i + 1;
    }
    let mut i: usize = 0;
    while i < n
        invariant
            i <= n,
            n == res.len(),
            r == resolved_view(res),
            well_resolved(r),
            adj.len() == n,
            forall|j: int, k: int|
                0 <= j < n && 0 <= k < adj@[j]@.len() ==> #[trigger] adj@[j]@[k] < n,
            forall|j: usize, u: usize|
                j < n && u < n ==> #[trigger] occ(adj@[j as int]@, u) == if u < i {
                    count_to(r[u as int], j)
                } else {
                    0
                },
        decreases n - i,
    {
        let mut t: usize = 0;
        let len_i = res[i].len();
        assert(r[i as int].take(0) =~= Seq::<Option<usize>>::empty());
        while t < len_i
            invariant
                t <= len_i,
                i < n,
                n == res.len(),
                len_i == r[i as int].len(),
                r == resolved_view(res),
                well_resolved(r),
                adj.len() == n,
                forall|j: int, k: int|
                    0 <= j < n && 0 <= k < adj@[j]@.len() ==> #[trigger] adj@[j]@[k] < n,
                forall|j: usize, u: usize|
                    j < n && u < n ==> #[trigger] occ(adj@[j as int]@, u) == if u < i {
                        count_to(r[u as int], j)
                    } else if u == i {
                        count_to(r[i as int].take(t as int), j)
                    } else {
                        0
                    },
            decreases len_i - t,
        {
            proof {
                assert forall|j: usize| j < n implies count_to(r[i as int].take(t + 1), j)
                    == count_to(r[i as int].take(t as int), j) + if r[i as int][t as int] == Some(
                    j,
                ) {
                    1nat
                } else {
                    0nat
                } by {
                    lemma_count_take_step(r[i as int], t as int, j);
                }
            }
            match res[i][t] {
                Some(j) => {
                    assert(r[i as int][t as int] == Some(j));
                    assert(j < n);
                    let ghost before = adj@;
                    adj[j].push(i);
                    proof {
                        assert forall|jj: usize, u: usize| jj < n && u < n implies #[trigger] occ(
                            adj@[jj as int]@,
                            u,
                        ) == if u < i {
                            count_to(r[u as int], jj)
                        } else if u == i {
                            count_to(r[i as int].take(t + 1), jj)
                        } else {
                            0
                        } by {
                            if jj == j {
                                lemma_occ_push(before[jj as int]@, i, u);
                            } else {
                                assert(adj@[jj as int] == before[jj as int]);
                            }
                        }
                        assert forall|jj: int, k: int|
                            0 <= jj < n && 0 <= k < adj@[jj]@.len() implies #[trigger] adj@[jj]@[k]
                            < n by {
                            if jj == j as int && k == before[jj]@.len() {
                            } else {
                                assert(adj@[jj]@[k] == before[jj]@[k]);
                            }
                        }
                    }
                },
                None => {},
            }
            t = t + 1;
        }
        assert(r[i as int].take(len_i as int) =~= r[i as int]);
        i = i + 1;
    }
    let mut queue: VecDeque<usize> = VecDeque::new();
    let mut order: Vec<usize> = Vec::new();
    let mut i: usize = 0;
    proof {
        assert forall|u: usize| u < n implies #[trigger] pending(r[u as int], order@) == indeg@[u as int] by {
            lemma_pending_empty(r[u as int]);
            assert(order@ =~= Seq::<usize>::empty());
        }
    }
    while i < n
        invariant
            i <= n,
            n == res.len(),
            indeg.len() == n,
            order@ == Seq::<usize>::empty(),
            r == resolved_view(res),
            forall|u: usize| u < n ==> #[trigger] pending(r[u as int], order@) == indeg@[u as int],
            forall|k: int| 0 <= k < queue@.len() ==> #[trigger] queue@[k] < i,
            queue@.no_duplicates(),
            forall|u: usize| u < i ==> (queue@.contains(u) <==> indeg@[u as int] == 0),
        decreases n - i,
    {
        if indeg[i] == 0 {
            let ghost before = queue@;
            queue.push_back(i);
            proof {
                assert(queue@ == before.push(i));
                assert forall|u: usize| u < i + 1 implies (queue@.contains(u) <==> indeg@[u as int]
                    == 0) by {
                    if queue@.contains(u) && u != i {
                        let k = choose|k: int| 0 <= k < queue@.len() && queue@[k] == u;
                        assert(before[k] == u);
                    }
                    if before.contains(u) {
                        let k = choose|k: int| 0 <= k < before.len() && before[k] == u;
                        assert(queue@[k] == u);
                    }
                    if u == i {
                        assert(queue@[before.len() as int] == u);
                    }
                }
                assert(queue@.no_duplicates()) by {
                    assert forall|a: int, b: int|
                        0 <= a < queue@.len() && 0 <= b < queue@.len() && a != b implies queue@[a]
                        != queue@[b] by {
                        if a < before.len() && b < before.len() {
                        } else if a < before.len() {
                            assert(queue@[a] == before[a]);
                        } else if b < before.len() {
                            assert(queue@[b] == before[b]);
                        }
                    }
                }
            }
        } else {
            proof {
                assert forall|u: usize| u < i + 1 implies (queue@.contains(u) <==> indeg@[u as int]
                    == 0) by {
                    if queue@.contains(u) {
                        let k = choose|k: int| 0 <= k < queue@.len() && queue@[k] == u;
                        assert(queue@[k] < i);
                    }
                }
            }
        }
        i = i + 1;
    }
    loop
        invariant
            n == res.len(),
            r == resolved_view(res),
            well_resolved(r),
            indeg.len() == n,
            adj.len() == n,
            forall|j: int, k: int|
                0 <= j < n && 0 <= k < adj@[j]@.len() ==> #[trigger] adj@[j]@[k] < n,
            forall|j: usize, u: usize|
                j < n && u < n ==> #[trigger] occ(adj@[j as int]@, u) == count_to(r[u as int], j),
            distinct_nodes(order@, n as nat),
            deps_first(order@, r),
            distinct_nodes(queue@, n as nat),
            forall|u: usize| #[trigger] queue@.contains(u) ==> !order@.contains(u),
            forall|u: usize|
                u < n && !order@.contains(u) ==> #[trigger] pending(r[u as int], order@)
                    == indeg@[u as int],
            forall|u: usize|
                u < n && order@.contains(u) ==> #[trigger] pending(r[u as int], order@) == 0,
            forall|u: usize|
                u < n ==> (#[trigger] queue@.contains(u) <==> (!order@.contains(u) && pending(
                    r[u as int],
                    order@,
                ) == 0)),
        ensures
            distinct_nodes(order@, n as nat),
            deps_first(order@, r),
            order.len() < n ==> !exists|o: Seq<usize>| is_dependency_order(o, r),
            rest_blocked(order@, r),
        decreases n - order.len(),
    {
        let ghost qbefore = queue@;
        let next = queue.pop_front();
        match next {
            None => {
                proof {
                    assert forall|v: usize|
                        v < r.len() && !order@.contains(v) implies #[trigger] pending(
                        r[v as int],
                        order@,
                    ) > 0 by {
                        if pending(r[v as int], order@) == 0 {
                            assert(queue@.contains(v));
                            assert(qbefore.len() == 0);
                        }
                    }
                    assert forall|v: usize| v < r.len() && !order@.contains(v) implies exists|t: int|
                        0 <= t < r[v as int].len() && (#[trigger] r[v as int][t] is None
                            || !order@.contains(r[v as int][t]->0)) by {
                        let t = lemma_pending_positive(r[v as int], order@);
                        assert(r[v as int][t] is None || !order@.contains(r[v as int][t]->0));
                    }
                    if order.len() < n {
                        let missing = lemma_missing_node(order@, n as nat);
                        assert forall|o: Seq<usize>| !is_dependency_order(o, r) by {
                            lemma_stuck_has_no_order(r, order@, missing, o);
                        }
                    }
                }
                break ;
            },
            Some(j) => {
                proof {
                    assert(qbefore[0] == j);
                    assert(j < n);
                    assert(qbefore.contains(j));
                    assert(!order@.contains(j) && pending(r[j as int], order@) == 0);
                    assert(queue@ =~= qbefore.drop_first());
                    assert forall|x: usize| #[trigger] queue@.contains(x) implies qbefore.contains(x)
                        && x != j by {
                        let kk = choose|kk: int| 0 <= kk < queue@.len() && queue@[kk] == x;
                        assert(qbefore[kk + 1] == x);
                        assert(qbefore[0] == j);
                    }
                    assert forall|x: usize| #[trigger] qbefore.contains(x) && x != j implies queue@.contains(x) by {
                        let kk = choose|kk: int| 0 <= kk < qbefore.len() && qbefore[kk] == x;
                        assert(kk != 0);
                        assert(queue@[kk - 1] == x);
                    }
                }
                let ghost old_order = order@;
                order.push(j);
                proof {
                    lemma_push_distinct(old_order, j, n as nat);
                    assert(pending(r[j as int], old_order) == 0);
                    assert forall|p: int, t: int|
                        0 <= p < order@.len() && 0 <= t < r[order@[p] as int].len() implies {
                        &&& #[trigger] r[order@[p] as int][t] is Some
                        &&& order@.take(p).contains(r[order@[p] as int][t]->0)
                    } by {
                        if p < old_order.len() {
                            assert(order@[p] == old_order[p]);
                            assert(order@.take(p) =~= old_order.take(p));
                        } else {
                            lemma_pending_zero(r[j as int], old_order, t);
                            assert(order@.take(p) =~= old_order);
                        }
                    }
                    assert forall|x: usize| order@.contains(x) <==> (old_order.contains(x) || x
                        == j) by {
                        if order@.contains(x) {
                            let k = choose|k: int| 0 <= k < order@.len() && order@[k] == x;
                            if k < old_order.len() {
                                assert(old_order[k] == x);
                            }
                        }
                        if old_order.contains(x) {
                            let k = choose|k: int| 0 <= k < old_order.len() && old_order[k] == x;
                            assert(order@[k] == x);
                        }
                        if x == j {
                            assert(order@[old_order.len() as int] == x);
                        }
                    }
                    assert forall|u: usize| u < n implies #[trigger] pending(r[u as int], order@)
                        + count_to(r[u as int], j) == pending(r[u as int], old_order) by {
                        lemma_pending_push(r[u as int], old_order, j);
                    }
                    assert forall|u: usize| u < n && old_order.contains(u) implies count_to(
                        r[u as int],
                        j,
                    ) == 0 by {
                        lemma_count_le_pending(r[u as int], old_order, j);
                    }
                    assert forall|q: usize| #[trigger] queue@.contains(q) implies q != j by {
                        let k = choose|k: int| 0 <= k < queue@.len() && queue@[k] == q;
                        assert(qbefore[k + 1] == q);
                        assert(qbefore[0] == j);
                    }
                    assert forall|k: int| 0 <= k < queue@.len() implies #[trigger] queue@[k] < n by {
                        assert(queue@[k] == qbefore[k + 1]);
                    }
                }
                proof {
                    assert forall|u: usize|
                        u < n && !order@.contains(u) implies (#[trigger] queue@.contains(u) <==> indeg@[u as int] == 0) by {
                        assert(!old_order.contains(u));
                        if queue@.contains(u) {
                            assert(qbefore.contains(u));
                        }
                        if indeg@[u as int] == 0 {
                            assert(qbefore.contains(u));
                            assert(u != j);
                        }
                    }
                }
                let len_j = adj[j].len();
                let mut k: usize = 0;
                assert(adj@[j as int]@.take(0) =~= Seq::<usize>::empty());
                while k < len_j
                    invariant
                        k <= len_j,
                        j < n,
                        n == res.len(),
                        len_j == adj@[j as int]@.len(),
                        r == resolved_view(res),
                        indeg.len() == n,
                        adj.len() == n,
                        forall|jj: int, kk: int|
                            0 <= jj < n && 0 <= kk < adj@[jj]@.len() ==> #[trigger] adj@[jj]@[kk]
                                < n,
                        forall|jj: usize, u: usize|
                            jj < n && u < n ==> #[trigger] occ(adj@[jj as int]@, u) == count_to(
                                r[u as int],
                                jj,
                            ),
                        order@ == old_order.push(j),
                        !old_order.contains(j),
                        pending(r[j as int], old_order) == 0,
                        forall|x: usize| #[trigger] order@.contains(x) <==> (old_order.contains(x)
                            || x == j),
                        distinct_nodes(order@, n as nat),
                        distinct_nodes(queue@, n as nat),
                        forall|u: usize| #[trigger] queue@.contains(u) ==> !order@.contains(u),
                        forall|u: usize|
                            u < n && !order@.contains(u) ==> #[trigger] indeg@[u as int] + occ(
                                adj@[j as int]@.take(k as int),
                                u,
                            ) == pending(r[u as int], old_order),
                        forall|u: usize|
                            u < n ==> #[trigger] pending(r[u as int], order@) + count_to(
                                r[u as int],
                                j,
                            ) == pending(r[u as int], old_order),
                        forall|u: usize|
                            u < n && old_order.contains(u) ==> #[trigger] pending(
                                r[u as int],
                                old_order,
                            ) == 0,
                        forall|u: usize|
                            u < n && !order@.contains(u) ==> (#[trigger] queue@.contains(u) <==> indeg@[u as int] == 0),
                    decreases len_j - k,
                {
                    let u = adj[j][k];
                    proof {
                        lemma_occ_take_step(adj@[j as int]@, k as int, u);
                        lemma_occ_take_le(adj@[j as int]@, k as int + 1, u);
                        assert(occ(adj@[j as int]@, u) == count_to(r[u as int], j));
                        lemma_count_le_pending(r[u as int], old_order, j);
                        if old_order.contains(u) {
                            assert(count_to(r[u as int], j) == 0);
                        }
                        if u == j {
                            assert(pending(r[j as int], old_order) == 0);
                        }
                        assert(!order@.contains(u));
                    }
                    let ghost qb = queue@;
                    let ghost ib = indeg@;
                    indeg.set(u, indeg[u] - 1);
                    if indeg[u] == 0 {
                        queue.push_back(u);
                        proof {
                            assert(!qb.contains(u));
                            lemma_push_distinct(qb, u, n as nat);
                            assert forall|x: usize| queue@.contains(x) <==> (qb.contains(x) || x
                                == u) by {
                                if queue@.contains(x) {
                                    let kk = choose|kk: int| 0 <= kk < queue@.len() && queue@[kk] == x;
                                    if kk < qb.len() {
                                        assert(qb[kk] == x);
                                    }
                                }
                                if qb.contains(x) {
                                    let kk = choose|kk: int| 0 <= kk < qb.len() && qb[kk] == x;
                                    assert(queue@[kk] == x);
                                }
                                if x == u {
                                    assert(queue@[qb.len() as int] == x);
                                }
                            }
                            assert forall|x: usize| #[trigger] queue@.contains(x) implies !order@.contains(x) by {
                                if x != u {
                                    assert(qb.contains(x));
                                }
                            }
                        }
                    }
                    proof {
                        assert forall|w: usize|
                            w < n && !order@.contains(w) implies #[trigger] indeg@[w as int] + occ(
                            adj@[j as int]@.take(k as int + 1),
                            w,
                        ) == pending(r[w as int], old_order) by {
                            lemma_occ_take_step(adj@[j as int]@, k as int, w);
                        }
                        assert(ib[u as int] >= 1);
                        assert(!qb.contains(u));
                        assert forall|w: usize|
                            w < n && !order@.contains(w) implies (#[trigger] queue@.contains(w) <==> indeg@[w as int] == 0) by {
                            if w != u {
                                assert(indeg@[w as int] == ib[w as int]);
                                if queue@.contains(w) && indeg@[u as int] == 0 {
                                    let kk = choose|kk: int| 0 <= kk < queue@.len() && queue@[kk] == w;
                                    if kk < qb.len() {
                                        assert(qb[kk] == w);
                                    }
                                }
                                if qb.contains(w) && indeg@[u as int] == 0 {
                                    let kk = choose|kk: int| 0 <= kk < qb.len() && qb[kk] == w;
                                    assert(queue@[kk] == w);
                                }
                            }
                        }
                    }
                    k = k + 1;
                }
                proof {
                    assert(adj@[j as int]@.take(len_j as int) =~= adj@[j as int]@);
                    lemma_distinct_len(order@, n as nat);
                }
            },
        }
    }
    order
}

proof fn lemma_push_distinct(s: Seq<usize>, x: usize, n: nat)
    requires
        distinct_nodes(s, n),
        !s.contains(x),
        x < n,
    ensures
        distinct_nodes(s.push(x), n),
{
    let s2 = s.push(x);
    assert forall|a: int, b: int|
        0 <= a < s2.len() && 0 <= b < s2.len() && a != b implies s2[a] != s2[b] by {
        if a < s.len() && b < s.len() {
            assert(s2[a] == s[a] && s2[b] == s[b]);
        } else if a < s.len() {
            assert(s2[a] == s[a]);
            assert(s.contains(s[a]));
        } else if b < s.len() {
            assert(s2[b] == s[b]);
            assert(s.contains(s[b]));
        }
    }
    assert forall|p: int| 0 <= p < s2.len() implies #[trigger] s2[p] < n by {
        if p < s.len() {
            assert(s2[p] == s[p]);
        }
    }
}

/// A list of fewer than `n` distinct nodes below `n` misses some node below `n`.
proof fn lemma_missing_node(s: Seq<usize>, n: nat) -> (u: usize)
    requires
        distinct_nodes(s, n),
        s.len() < n,
        n <= usize::MAX + 1,
    ensures
        u < n,
        !s.contains(u),
{
    if forall|u: usize| u < n ==> s.contains(u) {
        // every node below n listed: a list of n distinct values would fit in s
        lemma_all_nodes_listed_len(s, n);
        assert(false);
        0
    } else {
        choose|u: usize| u < n && !s.contains(u)
    }
}

proof fn lemma_all_nodes_listed_len(s: Seq<usize>, n: nat)
    requires
        distinct_nodes(s, n),
        n <= usize::MAX + 1,
        forall|u: usize| u < n ==> s.contains(u),
    ensures
        s.len() >= n,
    decreases n,
{
    if n > 0 {
        let m = (n - 1) as usize;
        assert(s.contains(m));
        let k = choose|k: int| 0 <= k < s.len() && s[k] == m;
        let s2 = s.remove(k);
        assert forall|p: int| 0 <= p < s2.len() implies #[trigger] s2[p] < (n - 1) as nat by {
            if p < k {
                assert(s2[p] == s[p]);
                assert(s[p] != s[k]);
            } else {
                assert(s2[p] == s[p + 1]);
                assert(s[p + 1] != s[k]);
            }
        }
        assert(s2.no_duplicates()) by {
            assert forall|a: int, b: int|
                0 <= a < s2.len() && 0 <= b < s2.len() && a != b implies s2[a] != s2[b] by {
                let a1 = if a < k {
                    a
                } else {
                    a + 1
                };
                let b1 = if b < k {
                    b
                } else {
                    b + 1
                };
                assert(s2[a] == s[a1]);
                assert(s2[b] == s[b1]);
            }
        }
        assert forall|u: usize| u < (n - 1) as nat implies s2.contains(u) by {
            assert(s.contains(u));
            let kk = choose|kk: int| 0 <= kk < s.len() && s[kk] == u;
            assert(kk != k);
            if kk < k {
                assert(s2[kk] == u);
            } else {
                assert(s2[kk - 1] == u);
            }
        }
        lemma_all_nodes_listed_len(s2, (n - 1) as nat);
    }
}

} // verus!
