//! Dependencies as task files write them: `[//][path]:name[?on_reload=none|rerun]`. A
//! path starting with `//` is taken from the workspace root, any other path from the
//! task's own root; no path names the root itself.
use vstd::prelude::*;
use crate::paths::{joined_path, path_join};
use crate::tasks::db::{OnReload, ResolvedDep, TaskKey};
use crate::text::{chars_of, last_index_of, lemma_last_index_of, split_at_last, str_eq, string_of_range};

verus! {

/// The re-run policy a query sets: none for no query, `on_reload=none` and
/// `on_reload=rerun`; nothing for any other query.
pub open spec fn policy_of(query: Option<Seq<char>>) -> Option<OnReload> {
    match query {
        None => Some(OnReload::Rerun),
        Some(q) => if q == "on_reload=none"@ {
            Some(OnReload::Ignore)
        } else if q == "on_reload=rerun"@ {
            Some(OnReload::Rerun)
        } else {
            None
        },
    }
}

/// Whether a path starts with `//`.
pub open spec fn from_workspace(path: Seq<char>) -> bool {
    path.len() >= 2 && path[0] == '/' && path[1] == '/'
}

/// The folder a dependency path names, seen from a task root and the workspace root.
pub open spec fn dep_dir(path: Seq<char>, root: Seq<char>, workspace: Seq<char>) -> Seq<char> {
    let base = if from_workspace(path) { workspace } else { root };
    let rest = if from_workspace(path) { path.skip(2) } else { path };
    if rest.len() == 0 {
        base
    } else {
        joined_path(base, rest)
    }
}

/// The task and policy a dependency names, or nothing when it is malformed: no `:`, an
/// empty task name, or an unknown query.
pub open spec fn parse_dep_spec(spec: Seq<char>, root: Seq<char>, workspace: Seq<char>) -> Option<
    ((Seq<char>, Seq<char>), OnReload),
> {
    let q = last_index_of(spec, '?');
    let target = if q >= 0 { spec.take(q) } else { spec };
    let policy = policy_of(if q >= 0 { Some(spec.skip(q + 1)) } else { None });
    let c = last_index_of(target, ':');
    if c < 0 || policy is None || target.skip(c + 1).len() == 0 {
        None
    } else {
        Some(((dep_dir(target.take(c), root, workspace), target.skip(c + 1)), policy->0))
    }
}

/// Resolves one dependency of a task in `root`.
pub fn parse_dep(spec: &str, root: &str, workspace: &str) -> (d: Option<ResolvedDep>)
    ensures
        match d {
            Some(x) => parse_dep_spec(spec@, root@, workspace@) == Some((x.target@, x.on_reload)),
            None => parse_dep_spec(spec@, root@, workspace@) is None,
        },
{
    proof {
        reveal_strlit("on_reload=none");
        reveal_strlit("on_reload=rerun");
    }
    let ghost q = last_index_of(spec@, '?');
    let ghost tgt = if q >= 0 { spec@.take(q) } else { spec@ };
    proof {
        lemma_last_index_of(spec@, '?');
        lemma_last_index_of(tgt, ':');
    }
    let (target, policy) = match split_at_last(spec, '?') {
        Some((t, qs)) => {
            let policy = if str_eq(qs.as_str(), "on_reload=none") {
                OnReload::Ignore
            } else if str_eq(qs.as_str(), "on_reload=rerun") {
                OnReload::Rerun
            } else {
                assert(policy_of(Some(qs@)) is None);
                assert(parse_dep_spec(spec@, root@, workspace@) is None);
                return None;
            };
            assert(policy_of(Some(spec@.skip(q + 1))) == Some(policy));
            (t, policy)
        },
        None => (String::from_str(spec), OnReload::Rerun),
    };
    assert(target@ == tgt);
    assert(policy_of(if q >= 0 { Some(spec@.skip(q + 1)) } else { None }) == Some(policy));
    let ghost c = last_index_of(tgt, ':');
    let (path, name) = match split_at_last(target.as_str(), ':') {
        Some(p) => p,
        None => {
            assert(parse_dep_spec(spec@, root@, workspace@) is None);
            return None;
        },
    };
    assert(path@ == tgt.take(c) && name@ == tgt.skip(c + 1));
    if name.as_str().is_empty() {
        assert(parse_dep_spec(spec@, root@, workspace@) is None);
        return None;
    }
    let cs = chars_of(path.as_str());
    let workspace_rooted = cs.len() >= 2 && cs[0] == '/' && cs[1] == '/';
    let base = if workspace_rooted {
        workspace
    } else {
        root
    };
    let rest = if workspace_rooted {
        string_of_range(&cs, 2, cs.len())
    } else {
        path.clone()
    };
    proof {
        if workspace_rooted {
            assert(cs@.subrange(2, cs@.len() as int) =~= path@.skip(2));
        }
    }
    assert(workspace_rooted == from_workspace(path@));
    let dir = if rest.as_str().is_empty() {
        String::from_str(base)
    } else {
        path_join(base, rest.as_str())
    };
    assert(dir@ == dep_dir(path@, root@, workspace@));
    Some(ResolvedDep { target: TaskKey { root: dir, name }, on_reload: policy })
}

/// The dependencies of a list of specs that resolve, in order.
pub open spec fn resolved_deps(specs: Seq<Seq<char>>, root: Seq<char>, workspace: Seq<char>) -> Seq<
    ((Seq<char>, Seq<char>), OnReload),
>
    decreases specs.len(),
{
    if specs.len() == 0 {
        Seq::empty()
    } else {
        let rest = resolved_deps(specs.drop_last(), root, workspace);
        match parse_dep_spec(specs.last(), root, workspace) {
            Some(d) => rest.push(d),
            None => rest,
        }
    }
}

/// Whether every spec of a list resolves.
pub open spec fn all_deps_resolve(specs: Seq<Seq<char>>, root: Seq<char>, workspace: Seq<char>) -> bool {
    forall|i: int| 0 <= i < specs.len() ==> (#[trigger] parse_dep_spec(specs[i], root, workspace)) is Some
}

/// Resolves the dependencies of a task in `root`: those that resolve, in order, and
/// whether all of them did.
pub fn resolve_deps_of(specs: &Vec<String>, root: &str, workspace: &str) -> (r: (Vec<ResolvedDep>, bool))
    ensures
        crate::tasks::db::deps_view(r.0@) == resolved_deps(
            crate::tasks::db::strings_view(specs@),
            root@,
            workspace@,
        ),
        r.1 == all_deps_resolve(crate::tasks::db::strings_view(specs@), root@, workspace@),
{
    let ghost sv = crate::tasks::db::strings_view(specs@);
    let mut out: Vec<ResolvedDep> = Vec::new();
    let mut ok = true;
    let mut i: usize = 0;
    while i < specs.len()
        invariant
            i <= specs@.len(),
            sv == crate::tasks::db::strings_view(specs@),
            crate::tasks::db::deps_view(out@) == resolved_deps(sv.take(i as int), root@, workspace@),
            ok == all_deps_resolve(sv.take(i as int), root@, workspace@),
        decreases specs.len() - i,
    {
        proof {
            assert(sv.take(i + 1).drop_last() =~= sv.take(i as int));
            assert(sv.take(i + 1).last() == sv[i as int]);
        }
        let ghost before = out@;
        match parse_dep(specs[i].as_str(), root, workspace) {
            Some(d) => {
                let ghost dv = (d.target@, d.on_reload);
                out.push(d);
                assert(crate::tasks::db::deps_view(out@) =~= crate::tasks::db::deps_view(before).push(dv));
            },
            None => {
                ok = false;
            },
        }
        proof {
            let t1 = sv.take(i + 1);
            if ok {
                assert forall|k: int| 0 <= k < t1.len() implies (#[trigger] parse_dep_spec(t1[k], root@, workspace@)) is Some by {
                    if k < i {
                        assert(t1[k] == sv.take(i as int)[k]);
                    }
                }
            } else {
                if all_deps_resolve(t1, root@, workspace@) {
                    if all_deps_resolve(sv.take(i as int), root@, workspace@) {
                        assert(parse_dep_spec(t1[i as int], root@, workspace@) is Some);
                    } else {
                        let k = choose|k: int| 0 <= k < i && !(parse_dep_spec(sv.take(i as int)[k], root@, workspace@) is Some);
                        assert(t1[k] == sv.take(i as int)[k]);
                    }
                }
            }
        }
        i = i + 1;
    }
    assert(sv.take(i as int) =~= sv);
    (out, ok)
}

} // verus!
