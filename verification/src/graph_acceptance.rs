//! Exactly which lockfiles form a build graph.
use crate::graph::{
    entry_keys, first_absent, first_missing_edge, from_lockfile_outcome, lock_edges, lock_roots,
    missing_edge, order_of, package_entry, sorted_texts, Edges,
};
use crate::manifest::{lock_problem, name_views, package_names, LockedPackage, Lockfile};
use crate::text::{lemma_stable_sorted_members, sorted_indices};
use vstd::prelude::*;

verus! {

/// Every dependency the lockfile names, the root's and each package's, is a
/// package the lockfile locks.
pub open spec fn dependencies_locked(l: Lockfile) -> bool {
    let names = package_names(l.packages@);
    &&& forall|i: int|
        0 <= i < l.root.dependencies@.len() ==> names.contains(#[trigger] l.root.dependencies@[i]@)
    &&& forall|i: int, k: int|
        0 <= i < l.packages@.len() && 0 <= k < l.packages@[i].dependencies@.len() ==> names.contains(
            #[trigger] l.packages@[i].dependencies@[k]@,
        )
}

proof fn lemma_first_absent_none(s: Seq<Seq<char>>, keys: Seq<Seq<char>>, n: nat)
    requires
        n <= s.len(),
    ensures
        first_absent(s, keys, n) is None <==> forall|i: int| 0 <= i < n ==> keys.contains(#[trigger] s[i]),
    decreases n,
{
    if n > 0 {
        lemma_first_absent_none(s, keys, (n - 1) as nat);
    }
}

proof fn lemma_first_missing_edge_none(e: Edges, keys: Seq<Seq<char>>, n: nat)
    requires
        n <= e.len(),
    ensures
        first_missing_edge(e, keys, n) is None <==> forall|i: int, k: int|
            0 <= i < n && 0 <= k < e[i].1.len() ==> keys.contains(#[trigger] e[i].1[k]),
    decreases n,
{
    if n > 0 {
        lemma_first_missing_edge_none(e, keys, (n - 1) as nat);
        lemma_first_absent_none(e[n - 1].1, keys, e[n - 1].1.len());
        if first_missing_edge(e, keys, n) is None {
            assert forall|i: int, k: int| 0 <= i < n && 0 <= k < e[i].1.len() implies keys.contains(
                #[trigger] e[i].1[k],
            ) by {
                if i == n - 1 {
                    assert(keys.contains(e[n - 1].1[k]));
                }
            }
        }
    }
}

/// Texts sorted hold the same texts.
proof fn lemma_sorted_texts_contains(s: Seq<Seq<char>>, x: Seq<char>)
    ensures
        sorted_texts(s).contains(x) <==> s.contains(x),
{
    lemma_stable_sorted_members(s, s);
    let st = sorted_texts(s);
    let idx = sorted_indices(s, s.len());
    if st.contains(x) {
        let k = choose|k: int| 0 <= k < st.len() && st[k] == x;
        assert(st[k] == s[idx[k]]);
    }
    if s.contains(x) {
        let j = choose|j: int| 0 <= j < s.len() && s[j] == x;
        assert(idx.contains(j));
        let k = choose|k: int| 0 <= k < idx.len() && idx[k] == j;
        assert(st[k] == s[j]);
    }
}

/// The graph's package names are the lockfile's.
proof fn lemma_edge_keys(l: Lockfile, x: Seq<char>)
    ensures
        entry_keys(lock_edges(l)).contains(x) <==> package_names(l.packages@).contains(x),
{
    let pkgs = l.packages@;
    let pe = pkgs.map_values(|p: LockedPackage| package_entry(p));
    let names = package_names(pkgs);
    let e = lock_edges(l);
    let idx = sorted_indices(names, pe.len());
    lemma_stable_sorted_members(pe, names);
    if entry_keys(e).contains(x) {
        let k = choose|k: int| 0 <= k < entry_keys(e).len() && entry_keys(e)[k] == x;
        assert(e[k] == pe[idx[k]]);
        assert(names[idx[k]] == x);
    }
    if names.contains(x) {
        let j = choose|j: int| 0 <= j < names.len() && names[j] == x;
        assert(idx.contains(j));
        let k = choose|k: int| 0 <= k < idx.len() && idx[k] == j;
        assert(e[k] == pe[j]);
        assert(entry_keys(e)[k] == x);
    }
}

/// A lockfile forms a build graph exactly when it is valid, every dependency
/// it names is locked, and the depth-first walk from the root meets no cycle
/// (cycles among packages the root does not reach are allowed).
pub proof fn law_graph_acceptance(l: Lockfile, r: Result<crate::graph::DependencyGraph, crate::graph::GraphError>)
    requires
        from_lockfile_outcome(l, r),
    ensures
        r is Ok <==> {
            &&& lock_problem(l) is None
            &&& dependencies_locked(l)
            &&& order_of(lock_edges(l), lock_roots(l)) is Ok
        },
{
    let e = lock_edges(l);
    let roots = lock_roots(l);
    let keys = entry_keys(e);
    let pkgs = l.packages@;
    let names = package_names(pkgs);
    let rv = name_views(l.root.dependencies@);
    let pe = pkgs.map_values(|p: LockedPackage| package_entry(p));
    lemma_stable_sorted_members(rv, rv);
    lemma_stable_sorted_members(pe, names);
    lemma_first_absent_none(roots, keys, roots.len());
    lemma_first_missing_edge_none(e, keys, e.len());
    assert forall|x: Seq<char>| #[trigger] keys.contains(x) <==> names.contains(x) by {
        lemma_edge_keys(l, x);
    }
    let roots_locked = forall|i: int| 0 <= i < roots.len() ==> keys.contains(#[trigger] roots[i]);
    let edges_locked = forall|i: int, k: int|
        0 <= i < e.len() && 0 <= k < e[i].1.len() ==> keys.contains(#[trigger] e[i].1[k]);
    assert(missing_edge(e, roots) is None <==> roots_locked && edges_locked);
    assert(roots_locked <==> forall|i: int|
        0 <= i < l.root.dependencies@.len() ==> names.contains(#[trigger] l.root.dependencies@[i]@)) by {
        if roots_locked {
            assert forall|i: int| 0 <= i < l.root.dependencies@.len() implies names.contains(
                #[trigger] l.root.dependencies@[i]@,
            ) by {
                assert(rv[i] == l.root.dependencies@[i]@);
                let ridx = sorted_indices(rv, rv.len());
                assert(ridx.contains(i));
                let k = choose|k: int| 0 <= k < ridx.len() && ridx[k] == i;
                assert(roots[k] == rv[i]);
                assert(keys.contains(roots[k]));
            }
        }
        if forall|i: int|
            0 <= i < l.root.dependencies@.len() ==> names.contains(#[trigger] l.root.dependencies@[i]@) {
            assert forall|i: int| 0 <= i < roots.len() implies keys.contains(#[trigger] roots[i]) by {
                let j = sorted_indices(rv, rv.len())[i];
                assert(roots[i] == rv[j]);
                assert(rv[j] == l.root.dependencies@[j]@);
                assert(names.contains(l.root.dependencies@[j]@));
            }
        }
    }
    assert(edges_locked <==> forall|i: int, k: int|
        0 <= i < pkgs.len() && 0 <= k < pkgs[i].dependencies@.len() ==> names.contains(
            #[trigger] pkgs[i].dependencies@[k]@,
        )) by {
        if edges_locked {
            assert forall|i: int, k: int|
                0 <= i < pkgs.len() && 0 <= k < pkgs[i].dependencies@.len() implies names.contains(
                #[trigger] pkgs[i].dependencies@[k]@,
            ) by {
                let d = name_views(pkgs[i].dependencies@);
                assert(d[k] == pkgs[i].dependencies@[k]@);
                assert(d.contains(d[k]));
                let pidx = sorted_indices(names, pe.len());
                assert(pidx.contains(i));
                let m = choose|m: int| 0 <= m < pidx.len() && pidx[m] == i;
                assert(e[m] == pe[i]);
                assert(e[m].1 == sorted_texts(d));
                lemma_sorted_texts_contains(d, d[k]);
                let q = choose|q: int| 0 <= q < e[m].1.len() && e[m].1[q] == d[k];
                assert(keys.contains(e[m].1[q]));
            }
        }
        if forall|i: int, k: int|
            0 <= i < pkgs.len() && 0 <= k < pkgs[i].dependencies@.len() ==> names.contains(
                #[trigger] pkgs[i].dependencies@[k]@,
            ) {
            assert forall|i: int, k: int| 0 <= i < e.len() && 0 <= k < e[i].1.len() implies keys.contains(
                #[trigger] e[i].1[k],
            ) by {
                let j = sorted_indices(names, pe.len())[i];
                assert(e[i] == pe[j]);
                let d = name_views(pkgs[j].dependencies@);
                assert(e[i].1 == sorted_texts(d));
                lemma_sorted_texts_contains(d, e[i].1[k]);
                assert(e[i].1.contains(e[i].1[k]));
                let q = choose|q: int| 0 <= q < d.len() && d[q] == e[i].1[k];
                assert(d[q] == pkgs[j].dependencies@[q]@);
                assert(names.contains(pkgs[j].dependencies@[q]@));
            }
        }
    }
}

} // verus!
