//! What a lockfile's build graph depends on: only the packages it locks and
//! what each of them depends on.
use crate::graph::{lock_edges, lock_roots, order_of, package_entry, sorted_texts};
use crate::manifest::{
    lock_problem, locked_package_problem, name_views, package_names, LockedPackage, Lockfile,
    PackageName,
};
use crate::text::{
    lemma_map_permutation, lemma_no_repeat_distinct, lemma_stable_sorted_permutation,
    lemma_stable_sorted_strict, lemma_strictly_keyed_equal, strictly_keyed,
};
use vstd::multiset::Multiset;
use vstd::prelude::*;

verus! {

pub proof fn lemma_locked_names_distinct(pkgs: Seq<LockedPackage>, n: nat)
    requires
        n <= pkgs.len(),
        locked_package_problem(pkgs, n) is None,
    ensures
        package_names(pkgs).take(n as int).no_duplicates(),
    decreases n,
{
    if n > 0 {
        lemma_locked_names_distinct(pkgs, (n - 1) as nat);
        let names = package_names(pkgs);
        let t = names.take(n as int);
        let p = names.take(n - 1);
        assert(!p.contains(pkgs[n - 1].name@));
        assert(names[n - 1] == pkgs[n - 1].name@);
        assert forall|i: int, j: int| 0 <= i < t.len() && 0 <= j < t.len() && i != j implies t[i]
            != t[j] by {
            if i < n - 1 && j < n - 1 {
                assert(t[i] == p[i] && t[j] == p[j]);
            } else if i < n - 1 {
                assert(t[i] == p[i]);
            } else {
                assert(t[j] == p[j]);
            }
        }
    }
}

pub proof fn lemma_locked_dependencies_distinct(pkgs: Seq<LockedPackage>, n: nat, i: int)
    requires
        n <= pkgs.len(),
        0 <= i < n,
        locked_package_problem(pkgs, n) is None,
    ensures
        name_views(pkgs[i].dependencies@).no_duplicates(),
    decreases n,
{
    if i < n - 1 {
        lemma_locked_dependencies_distinct(pkgs, (n - 1) as nat, i);
    } else {
        let d = name_views(pkgs[i].dependencies@);
        lemma_no_repeat_distinct(d, d.len());
        assert(d.take(d.len() as int) =~= d);
    }
}

/// A package's name and the set of its dependency names.
pub open spec fn package_shape(p: LockedPackage) -> (Seq<char>, Multiset<Seq<char>>) {
    (p.name@, name_views(p.dependencies@).to_multiset())
}

/// Names in strictly increasing order of `str`.
pub open spec fn strictly_ordered(s: Seq<Seq<char>>) -> bool {
    strictly_keyed(s, |x: Seq<char>| x)
}

/// The names ordered by `str`, each once, holding exactly the names of `m`.
pub open spec fn ordered_names(m: Multiset<Seq<char>>) -> Seq<Seq<char>> {
    choose|s: Seq<Seq<char>>|
        #[trigger] strictly_ordered(s) && forall|x: Seq<char>| #[trigger] s.contains(x) <==> m.count(x)
            > 0
}

/// The adjacency entry a package shape determines.
pub open spec fn shape_entry(v: (Seq<char>, Multiset<Seq<char>>)) -> (Seq<char>, Seq<Seq<char>>) {
    (v.0, ordered_names(v.1))
}

proof fn lemma_entry_from_shape(p: LockedPackage)
    requires
        name_views(p.dependencies@).no_duplicates(),
    ensures
        package_entry(p) == shape_entry(package_shape(p)),
{
    broadcast use vstd::seq_lib::group_to_multiset_ensures;

    let d = name_views(p.dependencies@);
    let same = |x: Seq<char>| x;
    assert(d.map_values(same) =~= d);
    lemma_stable_sorted_strict(d, same);
    let sorted = sorted_texts(d);
    assert forall|x: Seq<char>| #[trigger] sorted.contains(x) <==> d.to_multiset().count(x) > 0 by {
        assert(d.contains(x) <==> d.to_multiset().count(x) > 0);
    }
    let o = ordered_names(d.to_multiset());
    assert(strictly_ordered(sorted));
    assert(strictly_ordered(o) && forall|x: Seq<char>| #[trigger] o.contains(x) <==> d.to_multiset().count(x) > 0);
    assert forall|x: Seq<char>| #[trigger] sorted.contains(x) <==> o.contains(x) by {
        assert(sorted.contains(x) <==> d.to_multiset().count(x) > 0);
        assert(o.contains(x) <==> d.to_multiset().count(x) > 0);
    }
    lemma_strictly_keyed_equal(sorted, o, same);
}

proof fn lemma_entries_from_shapes(l: Lockfile)
    requires
        lock_problem(l) is None,
    ensures
        l.packages@.map_values(|p: LockedPackage| package_entry(p)) == l.packages@.map_values(
            |p: LockedPackage| package_shape(p),
        ).map_values(|v: (Seq<char>, Multiset<Seq<char>>)| shape_entry(v)),
{
    let pkgs = l.packages@;
    assert forall|i: int| 0 <= i < pkgs.len() implies #[trigger] package_entry(pkgs[i])
        == shape_entry(package_shape(pkgs[i])) by {
        lemma_locked_dependencies_distinct(pkgs, pkgs.len(), i);
        lemma_entry_from_shape(pkgs[i]);
    }
    assert(pkgs.map_values(|p: LockedPackage| package_entry(p)) =~= pkgs.map_values(
        |p: LockedPackage| package_shape(p),
    ).map_values(|v: (Seq<char>, Multiset<Seq<char>>)| shape_entry(v)));
}

/// The build graph of a valid lockfile depends only on which packages it
/// locks and what each depends on, not on the order in which the lockfile
/// lists its packages, their dependencies or the root's dependencies: two
/// valid lockfiles with the same package names and dependency sets and the
/// same root dependencies have the same adjacency and roots, so the same
/// build order or the same cycle.
pub proof fn law_graph_ignores_listing_order(l1: Lockfile, l2: Lockfile)
    requires
        lock_problem(l1) is None,
        lock_problem(l2) is None,
        l1.root.dependencies@.to_multiset() == l2.root.dependencies@.to_multiset(),
        l1.packages@.map_values(|p: LockedPackage| package_shape(p)).to_multiset()
            == l2.packages@.map_values(|p: LockedPackage| package_shape(p)).to_multiset(),
    ensures
        lock_edges(l1) == lock_edges(l2),
        lock_roots(l1) == lock_roots(l2),
        order_of(lock_edges(l1), lock_roots(l1)) == order_of(lock_edges(l2), lock_roots(l2)),
{
    let p1 = l1.packages@;
    let p2 = l2.packages@;
    lemma_locked_names_distinct(p1, p1.len());
    lemma_locked_names_distinct(p2, p2.len());
    assert(package_names(p1).take(p1.len() as int) =~= package_names(p1));
    assert(package_names(p2).take(p2.len() as int) =~= package_names(p2));
    let shape = |p: LockedPackage| package_shape(p);
    let to_entry = |v: (Seq<char>, Multiset<Seq<char>>)| shape_entry(v);
    let key = |e: (Seq<char>, Seq<Seq<char>>)| e.0;
    lemma_entries_from_shapes(l1);
    lemma_entries_from_shapes(l2);
    lemma_map_permutation(p1.map_values(shape), p2.map_values(shape), to_entry);
    let e1 = p1.map_values(|p: LockedPackage| package_entry(p));
    let e2 = p2.map_values(|p: LockedPackage| package_entry(p));
    assert(e1 =~= p1.map_values(shape).map_values(to_entry));
    assert(e2 =~= p2.map_values(shape).map_values(to_entry));
    assert(e1.map_values(key) =~= package_names(p1));
    assert(e2.map_values(key) =~= package_names(p2));
    lemma_stable_sorted_permutation(e1, e2, key);
    let r1 = name_views(l1.root.dependencies@);
    let r2 = name_views(l2.root.dependencies@);
    let view = |n: PackageName| n@;
    lemma_map_permutation(l1.root.dependencies@, l2.root.dependencies@, view);
    assert(l1.root.dependencies@.map_values(view) =~= r1);
    assert(l2.root.dependencies@.map_values(view) =~= r2);
    lemma_no_repeat_distinct(r1, r1.len());
    lemma_no_repeat_distinct(r2, r2.len());
    assert(r1.take(r1.len() as int) =~= r1);
    assert(r2.take(r2.len() as int) =~= r2);
    let same = |x: Seq<char>| x;
    assert(r1.map_values(same) =~= r1);
    assert(r2.map_values(same) =~= r2);
    lemma_stable_sorted_permutation(r1, r2, same);
}

} // verus!
