//! Which packages a build order holds: exactly those reachable from the
//! roots along dependency edges.
use crate::graph::{
    deps_of, entry_keys, law_build_order_is_dependency_first, lemma_unvisited_push, occurs_before,
    order_of, unvisited, visit, visit_dependencies, visit_roots, DependencyGraph, Edges,
};
use crate::text::first_index;
use vstd::prelude::*;

verus! {

/// `path` is a non-empty walk along dependency edges.
pub open spec fn is_path(e: Edges, path: Seq<Seq<char>>) -> bool {
    &&& path.len() > 0
    &&& forall|i: int| 1 <= i < path.len() ==> deps_of(e, path[i - 1]).contains(#[trigger] path[i])
}

/// `x` can be reached from `from` along dependency edges (in no steps when
/// they are equal).
pub open spec fn reaches(e: Edges, from: Seq<char>, x: Seq<char>) -> bool {
    exists|path: Seq<Seq<char>>| #[trigger] is_path(e, path) && path[0] == from && path.last() == x
}

/// `x` can be reached from one of `roots`.
pub open spec fn reachable(e: Edges, roots: Seq<Seq<char>>, x: Seq<char>) -> bool {
    exists|r: int| 0 <= r < roots.len() && reaches(e, #[trigger] roots[r], x)
}

proof fn lemma_reaches_self(e: Edges, p: Seq<char>)
    ensures
        reaches(e, p, p),
{
    let path = seq![p];
    assert(is_path(e, path));
}

proof fn lemma_reaches_prepend(e: Edges, p: Seq<char>, q: Seq<char>, x: Seq<char>)
    requires
        deps_of(e, p).contains(q),
        reaches(e, q, x),
    ensures
        reaches(e, p, x),
{
    let path = choose|path: Seq<Seq<char>>| #[trigger] is_path(e, path) && path[0] == q && path.last() == x;
    let np = seq![p] + path;
    assert forall|i: int| 1 <= i < np.len() implies deps_of(e, np[i - 1]).contains(#[trigger] np[i]) by {
        if i == 1 {
            assert(np[0] == p && np[1] == path[0]);
        } else {
            assert(np[i - 1] == path[i - 2] && np[i] == path[i - 1]);
        }
    }
    assert(is_path(e, np));
    assert(np[0] == p && np.last() == x);
}

proof fn lemma_visit_reaches(e: Edges, stack: Seq<Seq<char>>, p: Seq<char>, order: Seq<Seq<char>>)
    ensures
        visit(e, stack, p, order) matches Ok(o) ==> {
            &&& order.len() <= o.len()
            &&& forall|k: int| 0 <= k < order.len() ==> o[k] == order[k]
            &&& forall|k: int| order.len() <= k < o.len() ==> reaches(e, p, #[trigger] o[k])
        },
    decreases unvisited(entry_keys(e), stack), 1int, 0int,
{
    if order.contains(p) {
    } else if stack.contains(p) {
    } else {
        match first_index(entry_keys(e), p) {
            None => {
                lemma_reaches_self(e, p);
            },
            Some(i) => {
                lemma_unvisited_push(entry_keys(e), stack, p);
                let s1 = stack.push(p);
                let deps = e[i].1;
                assert(deps_of(e, p) == deps);
                lemma_visit_dependencies_reaches(e, s1, deps, 0, order);
                match visit_dependencies(e, s1, deps, 0, order) {
                    Ok(o1) => {
                        let o = o1.push(p);
                        lemma_reaches_self(e, p);
                        assert forall|k: int| order.len() <= k < o.len() implies reaches(
                            e,
                            p,
                            #[trigger] o[k],
                        ) by {
                            if k < o1.len() {
                                assert(o[k] == o1[k]);
                                let m = choose|m: int|
                                    0 <= m < deps.len() && reaches(e, #[trigger] deps[m], o1[k]);
                                assert(deps_of(e, p).contains(deps[m]));
                                lemma_reaches_prepend(e, p, deps[m], o1[k]);
                            }
                        }
                    },
                    Err(_) => {},
                }
            },
        }
    }
}

proof fn lemma_visit_dependencies_reaches(
    e: Edges,
    stack: Seq<Seq<char>>,
    deps: Seq<Seq<char>>,
    j: int,
    order: Seq<Seq<char>>,
)
    ensures
        visit_dependencies(e, stack, deps, j, order) matches Ok(o) ==> {
            &&& order.len() <= o.len()
            &&& forall|k: int| 0 <= k < order.len() ==> o[k] == order[k]
            &&& forall|k: int|
                #![trigger o[k]]
                order.len() <= k < o.len() ==> exists|m: int|
                    0 <= m < deps.len() && reaches(e, #[trigger] deps[m], o[k])
        },
    decreases unvisited(entry_keys(e), stack), 2int, deps.len() - j,
{
    if 0 <= j < deps.len() {
        lemma_visit_reaches(e, stack, deps[j], order);
        match visit(e, stack, deps[j], order) {
            Ok(o1) => {
                lemma_visit_dependencies_reaches(e, stack, deps, j + 1, o1);
                match visit_dependencies(e, stack, deps, j + 1, o1) {
                    Ok(o) => {
                        assert forall|k: int|
                            #![trigger o[k]]
                            order.len() <= k < o.len() implies exists|m: int|
                            0 <= m < deps.len() && reaches(e, #[trigger] deps[m], o[k]) by {
                            if k < o1.len() {
                                assert(o[k] == o1[k]);
                                assert(reaches(e, deps[j], o1[k]));
                            }
                        }
                    },
                    Err(_) => {},
                }
            },
            Err(_) => {},
        }
    }
}

proof fn lemma_visit_roots_reaches(e: Edges, roots: Seq<Seq<char>>, j: int, order: Seq<Seq<char>>)
    requires
        forall|k: int| 0 <= k < order.len() ==> reachable(e, roots, #[trigger] order[k]),
    ensures
        visit_roots(e, roots, j, order) matches Ok(o) ==> forall|k: int|
            0 <= k < o.len() ==> reachable(e, roots, #[trigger] o[k]),
    decreases roots.len() - j,
{
    if 0 <= j < roots.len() {
        lemma_visit_reaches(e, Seq::empty(), roots[j], order);
        match visit(e, Seq::empty(), roots[j], order) {
            Ok(o1) => {
                assert forall|k: int| 0 <= k < o1.len() implies reachable(e, roots, #[trigger] o1[k]) by {
                    if k < order.len() {
                        assert(o1[k] == order[k]);
                    } else {
                        assert(reaches(e, roots[j], o1[k]));
                    }
                }
                lemma_visit_roots_reaches(e, roots, j + 1, o1);
            },
            Err(_) => {},
        }
    }
}

proof fn lemma_path_in_order(e: Edges, o: Seq<Seq<char>>, path: Seq<Seq<char>>, n: int)
    requires
        is_path(e, path),
        0 <= n < path.len(),
        o.contains(path[0]),
        forall|i: int, k: int|
            0 <= i < o.len() && 0 <= k < deps_of(e, o[i]).len() ==> occurs_before(
                o,
                i,
                #[trigger] deps_of(e, o[i])[k],
            ),
    ensures
        o.contains(path[n]),
    decreases n,
{
    if n > 0 {
        lemma_path_in_order(e, o, path, n - 1);
        let i = choose|i: int| 0 <= i < o.len() && o[i] == path[n - 1];
        let d = deps_of(e, o[i]);
        assert(d.contains(path[n]));
        let k = choose|k: int| 0 <= k < d.len() && d[k] == path[n];
        assert(occurs_before(o, i, d[k]));
        let m = choose|m: int| 0 <= m < i && o[m] == d[k];
        assert(o[m] == path[n]);
    }
}

/// A successful build order holds exactly the packages reachable from the
/// roots along dependency edges: packages no root leads to are left out.
pub proof fn law_build_order_is_reachable_set(g: DependencyGraph)
    ensures
        order_of(g.edges(), g.roots_view()) matches Ok(o) ==> forall|x: Seq<char>|
            #[trigger] o.contains(x) <==> reachable(g.edges(), g.roots_view(), x),
{
    let e = g.edges();
    let roots = g.roots_view();
    law_build_order_is_dependency_first(g);
    lemma_visit_roots_reaches(e, roots, 0, Seq::empty());
    match order_of(e, roots) {
        Ok(o) => {
            assert forall|x: Seq<char>| #[trigger] o.contains(x) <==> reachable(e, roots, x) by {
                if o.contains(x) {
                    let k = choose|k: int| 0 <= k < o.len() && o[k] == x;
                    assert(reachable(e, roots, o[k]));
                }
                if reachable(e, roots, x) {
                    let r = choose|r: int| 0 <= r < roots.len() && reaches(e, #[trigger] roots[r], x);
                    let path = choose|path: Seq<Seq<char>>|
                        #[trigger] is_path(e, path) && path[0] == roots[r] && path.last() == x;
                    assert(o.contains(roots[r]));
                    lemma_path_in_order(e, o, path, path.len() - 1);
                }
            }
        },
        Err(_) => {},
    }
}

} // verus!
