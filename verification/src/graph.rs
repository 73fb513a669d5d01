//! The locked dependency graph and its dependency-first build order.
use crate::manifest::{
    lock_problem, name_views, package_name_list, package_names, LockedPackage, Lockfile,
    PackageName,
};
use crate::text::{
    concat2, concat4, first_index, join_texts, joined, lemma_first_index, sort_indices,
    sorted_indices, stable_sorted, text_eq, views,
};
use vstd::prelude::*;

verus! {

/// Why a lockfile does not form a buildable graph.
#[derive(Debug, Clone, PartialEq, Eq)]
pub enum GraphError {
    InvalidLock(String),
    MissingPackage { package: String, dependency: String },
    Cycle(Vec<String>),
}

/// The texts of a list of strings.
pub open spec fn string_views(s: Seq<String>) -> Seq<Seq<char>> {
    s.map_values(|x: String| x@)
}

/// The message of a graph error.
pub open spec fn graph_error_text(e: GraphError) -> Seq<char> {
    match e {
        GraphError::InvalidLock(m) => "invalid lockfile graph: "@ + m@,
        GraphError::MissingPackage { package, dependency } => "package "@ + package@
            + " depends on missing locked package "@ + dependency@,
        GraphError::Cycle(c) => "dependency cycle: "@ + joined(string_views(c@), " -> "@),
    }
}

impl GraphError {
    /// The error's message.
    pub fn describe(&self) -> (r: String)
        ensures
            r@ == graph_error_text(*self),
    {
        match self {
            GraphError::InvalidLock(message) => concat2("invalid lockfile graph: ", message.as_str()),
            GraphError::MissingPackage { package, dependency } => concat4(
                "package ",
                package.as_str(),
                " depends on missing locked package ",
                dependency.as_str(),
            ),
            GraphError::Cycle(cycle) => {
                let path = join_texts(cycle, " -> ");
                assert(cycle@.map_values(|p: String| p@) =~= string_views(cycle@));
                concat2("dependency cycle: ", path.as_str())
            },
        }
    }
}

/// A graph's adjacency: each package name with its dependency names.
pub type Edges = Seq<(Seq<char>, Seq<Seq<char>>)>;

/// The package names of an adjacency list, in order.
pub open spec fn entry_keys(e: Edges) -> Seq<Seq<char>> {
    e.map_values(|x: (Seq<char>, Seq<Seq<char>>)| x.0)
}

/// The number of packages of the graph not on the current path.
pub open spec fn unvisited(keys: Seq<Seq<char>>, stack: Seq<Seq<char>>) -> nat {
    keys.to_set().difference(stack.to_set()).len()
}

pub proof fn lemma_unvisited_push(keys: Seq<Seq<char>>, stack: Seq<Seq<char>>, p: Seq<char>)
    requires
        keys.contains(p),
        !stack.contains(p),
    ensures
        unvisited(keys, stack.push(p)) < unvisited(keys, stack),
{
    broadcast use vstd::set::group_set_axioms, vstd::seq_lib::seq_to_set_is_finite;

    let d = keys.to_set().difference(stack.to_set());
    let d2 = keys.to_set().difference(stack.push(p).to_set());
    assert(d2 =~= d.remove(p)) by {
        assert forall|x: Seq<char>| d2.contains(x) <==> d.remove(p).contains(x) by {
            if stack.push(p).contains(x) && x != p {
                let k = choose|k: int| 0 <= k < stack.push(p).len() && stack.push(p)[k] == x;
                assert(stack[k] == x);
            }
            if stack.contains(x) {
                let k = choose|k: int| 0 <= k < stack.len() && stack[k] == x;
                assert(stack.push(p)[k] == x);
            }
            if x == p {
                assert(stack.push(p)[stack.len() as int] == p);
            }
        }
    }
    assert(d.contains(p));
    assert(d.finite()) by {
        vstd::set_lib::lemma_set_subset_finite(keys.to_set(), d);
    }
}

/// The cycle reported on reaching `p` again: the path from its first
/// occurrence, followed by `p`.
pub open spec fn cycle_at(stack: Seq<Seq<char>>, p: Seq<char>) -> Seq<Seq<char>> {
    match first_index(stack, p) {
        Some(i) => stack.skip(i).push(p),
        None => stack.push(p),
    }
}

/// Depth-first visit of `p` on the path `stack`, with `order` the packages
/// finished so far: the extended post-order, or the cycle found.
pub open spec fn visit(e: Edges, stack: Seq<Seq<char>>, p: Seq<char>, order: Seq<Seq<char>>) -> Result<
    Seq<Seq<char>>,
    Seq<Seq<char>>,
>
    decreases unvisited(entry_keys(e), stack), 1int, 0int,
{
    if order.contains(p) {
        Ok(order)
    } else if stack.contains(p) {
        Err(cycle_at(stack, p))
    } else {
        match first_index(entry_keys(e), p) {
            None => Ok(order.push(p)),
            Some(i) => {
                proof {
                    lemma_unvisited_push(entry_keys(e), stack, p);
                }
                match visit_dependencies(e, stack.push(p), e[i].1, 0, order) {
                    Ok(o) => Ok(o.push(p)),
                    Err(c) => Err(c),
                }
            },
        }
    }
}

/// Visits `deps[j..]` in order on the path `stack`.
pub open spec fn visit_dependencies(
    e: Edges,
    stack: Seq<Seq<char>>,
    deps: Seq<Seq<char>>,
    j: int,
    order: Seq<Seq<char>>,
) -> Result<Seq<Seq<char>>, Seq<Seq<char>>>
    decreases unvisited(entry_keys(e), stack), 2int, deps.len() - j,
{
    if j < 0 || j >= deps.len() {
        Ok(order)
    } else {
        match visit(e, stack, deps[j], order) {
            Ok(o) => visit_dependencies(e, stack, deps, j + 1, o),
            Err(c) => Err(c),
        }
    }
}

/// Visits `roots[j..]` in order from an empty path.
pub open spec fn visit_roots(e: Edges, roots: Seq<Seq<char>>, j: int, order: Seq<Seq<char>>) -> Result<
    Seq<Seq<char>>,
    Seq<Seq<char>>,
>
    decreases roots.len() - j,
{
    if j < 0 || j >= roots.len() {
        Ok(order)
    } else {
        match visit(e, Seq::empty(), roots[j], order) {
            Ok(o) => visit_roots(e, roots, j + 1, o),
            Err(c) => Err(c),
        }
    }
}

/// The build order of a graph: the depth-first post-order from its roots, or
/// the first cycle met.
pub open spec fn order_of(e: Edges, roots: Seq<Seq<char>>) -> Result<Seq<Seq<char>>, Seq<Seq<char>>> {
    visit_roots(e, roots, 0, Seq::empty())
}

/// Texts in the order of `str`, equal texts keeping their order.
pub open spec fn sorted_texts(s: Seq<Seq<char>>) -> Seq<Seq<char>> {
    stable_sorted(s, s)
}

/// The graph's roots for a lockfile: the root's dependencies, sorted.
pub open spec fn lock_roots(l: Lockfile) -> Seq<Seq<char>> {
    sorted_texts(name_views(l.root.dependencies@))
}

/// A locked package as an adjacency entry, its dependencies sorted.
pub open spec fn package_entry(p: LockedPackage) -> (Seq<char>, Seq<Seq<char>>) {
    (p.name@, sorted_texts(name_views(p.dependencies@)))
}

/// The graph's adjacency for a lockfile: packages sorted by name.
pub open spec fn lock_edges(l: Lockfile) -> Edges {
    stable_sorted(
        l.packages@.map_values(|p: LockedPackage| package_entry(p)),
        package_names(l.packages@),
    )
}

/// The first of the first `n` texts of `s` that is not in `keys`.
pub open spec fn first_absent(s: Seq<Seq<char>>, keys: Seq<Seq<char>>, n: nat) -> Option<int>
    decreases n,
{
    if n == 0 {
        None
    } else {
        match first_absent(s, keys, (n - 1) as nat) {
            Some(k) => Some(k),
            None => if !keys.contains(s[n - 1]) {
                Some(n - 1)
            } else {
                None
            },
        }
    }
}

proof fn lemma_first_absent_stable(s: Seq<Seq<char>>, keys: Seq<Seq<char>>, i: nat, n: nat)
    requires
        i <= n,
        first_absent(s, keys, i) is Some,
    ensures
        first_absent(s, keys, n) == first_absent(s, keys, i),
    decreases n,
{
    if n > i {
        lemma_first_absent_stable(s, keys, i, (n - 1) as nat);
    }
}

/// Among the first `n` entries, the first entry with a dependency outside
/// `keys`, and the position of that dependency.
pub open spec fn first_missing_edge(e: Edges, keys: Seq<Seq<char>>, n: nat) -> Option<(int, int)>
    decreases n,
{
    if n == 0 {
        None
    } else {
        match first_missing_edge(e, keys, (n - 1) as nat) {
            Some(x) => Some(x),
            None => match first_absent(e[n - 1].1, keys, e[n - 1].1.len()) {
                Some(k) => Some((n - 1, k)),
                None => None,
            },
        }
    }
}

proof fn lemma_first_missing_edge_stable(e: Edges, keys: Seq<Seq<char>>, i: nat, n: nat)
    requires
        i <= n,
        first_missing_edge(e, keys, i) is Some,
    ensures
        first_missing_edge(e, keys, n) == first_missing_edge(e, keys, i),
    decreases n,
{
    if n > i {
        lemma_first_missing_edge_stable(e, keys, i, (n - 1) as nat);
    }
}

/// The first edge to a package the graph lacks, as (package, dependency): the
/// roots first (package `<root>`), then each package in order.
pub open spec fn missing_edge(e: Edges, roots: Seq<Seq<char>>) -> Option<(Seq<char>, Seq<char>)> {
    let keys = entry_keys(e);
    match first_absent(roots, keys, roots.len()) {
        Some(k) => Some(("<root>"@, roots[k])),
        None => match first_missing_edge(e, keys, e.len()) {
            Some((i, k)) => Some((e[i].0, e[i].1[k])),
            None => None,
        },
    }
}

/// The dependency graph of a valid lockfile whose edges all lead to locked
/// packages and contain no cycle reachable from the root.
#[derive(Debug, Clone, PartialEq, Eq)]
pub struct DependencyGraph {
    roots: Vec<PackageName>,
    dependencies: Vec<(PackageName, Vec<PackageName>)>,
}

/// A name and its dependencies as an adjacency entry.
pub open spec fn entry_view(x: (PackageName, Vec<PackageName>)) -> (Seq<char>, Seq<Seq<char>>) {
    (x.0@, name_views(x.1@))
}

fn contains_name(names: &Vec<PackageName>, p: &PackageName) -> (r: bool)
    ensures
        r == name_views(names@).contains(p@),
{
    let mut i: usize = 0;
    while i < names.len()
        invariant
            i <= names@.len(),
            forall|k: int| 0 <= k < i ==> name_views(names@)[k] != p@,
        decreases names@.len() - i,
    {
        if text_eq(names[i].as_str(), p.as_str()) {
            assert(name_views(names@)[i as int] == p@);
            return true;
        }
        i = i + 1;
    }
    false
}

fn position_of(names: &Vec<PackageName>, p: &PackageName) -> (r: Option<usize>)
    ensures
        match r {
            Some(k) => first_index(name_views(names@), p@) == Some(k as int) && k < names@.len(),
            None => first_index(name_views(names@), p@) is None,
        },
{
    let mut i: usize = 0;
    while i < names.len()
        invariant
            i <= names@.len(),
            forall|k: int| 0 <= k < i ==> name_views(names@)[k] != p@,
        decreases names@.len() - i,
    {
        if text_eq(names[i].as_str(), p.as_str()) {
            proof {
                lemma_first_index(name_views(names@), p@, i as int);
            }
            return Some(i);
        }
        i = i + 1;
    }
    None
}

fn names_to_strings(names: &Vec<PackageName>, start: usize) -> (r: Vec<String>)
    requires
        start <= names@.len(),
    ensures
        string_views(r@) == name_views(names@).skip(start as int),
{
    let mut r: Vec<String> = Vec::new();
    let mut i = start;
    while i < names.len()
        invariant
            start <= i <= names@.len(),
            string_views(r@) =~= name_views(names@).skip(start as int).take(i - start),
        decreases names@.len() - i,
    {
        r.push(String::from_str(names[i].as_str()));
        assert(name_views(names@).skip(start as int).take(i + 1 - start) =~= name_views(
            names@,
        ).skip(start as int).take(i - start).push(names@[i as int]@));
        i = i + 1;
    }
    assert(name_views(names@).skip(start as int).take(names@.len() - start) =~= name_views(
        names@,
    ).skip(start as int));
    r
}

/// The names sorted in the order of `str`, copied.
fn sorted_copies(names: &Vec<PackageName>) -> (r: Vec<PackageName>)
    ensures
        name_views(r@) == sorted_texts(name_views(names@)),
{
    let texts = package_name_list(names);
    let order = sort_indices(&texts);
    let ghost s = name_views(names@);
    assert(texts@.map_values(|t: &str| t@) =~= s) by {
        assert(views(texts@) == s);
    }
    assert(texts@.len() == names@.len()) by {
        assert(views(texts@).len() == texts@.len());
    }
    proof {
        crate::text::lemma_sorted_indices_bounds(s, s.len());
    }
    let mut r: Vec<PackageName> = Vec::new();
    let mut k: usize = 0;
    while k < order.len()
        invariant
            k <= order@.len(),
            order@.len() == texts@.len(),
            texts@.len() == names@.len(),
            s == name_views(names@),
            forall|m: int| 0 <= m < order@.len() ==> order@[m] < texts@.len(),
            forall|m: int|
                0 <= m < order@.len() ==> order@[m] as int == sorted_indices(
                    texts@.map_values(|t: &str| t@),
                    texts@.len(),
                )[m],
            texts@.map_values(|t: &str| t@) == s,
            sorted_indices(s, s.len()).len() == s.len(),
            name_views(r@) =~= sorted_indices(s, s.len()).take(k as int).map_values(
                |i: int| s[i],
            ),
        decreases order@.len() - k,
    {
        let i = order[k];
        let ghost before = r@;
        let copy = names[i].clone();
        r.push(copy);
        assert(r@ =~= before.push(copy));
        assert(name_views(r@) =~= name_views(before).push(s[i as int]));
        assert(sorted_indices(s, s.len()).take(k + 1) =~= sorted_indices(s, s.len()).take(
            k as int,
        ).push(i as int));
        assert(sorted_indices(s, s.len()).take(k + 1).map_values(|i: int| s[i]) =~= sorted_indices(
            s,
            s.len(),
        ).take(k as int).map_values(|i: int| s[i]).push(s[i as int]));
        k = k + 1;
    }
    proof {
        crate::text::lemma_sorted_indices_bounds(s, s.len());
        assert(sorted_indices(s, s.len()).take(order@.len() as int) =~= sorted_indices(
            s,
            s.len(),
        ));
    }
    r
}

impl DependencyGraph {
    /// The graph's roots, in order.
    pub closed spec fn roots_view(&self) -> Seq<Seq<char>> {
        name_views(self.roots@)
    }

    /// The graph's adjacency, in order.
    pub closed spec fn edges(&self) -> Edges {
        self.dependencies@.map_values(|x: (PackageName, Vec<PackageName>)| entry_view(x))
    }

    fn lookup(&self, p: &PackageName) -> (r: Option<usize>)
        ensures
            match r {
                Some(k) => first_index(entry_keys(self.edges()), p@) == Some(k as int) && k
                    < self.dependencies@.len(),
                None => first_index(entry_keys(self.edges()), p@) is None,
            },
    {
        let ghost keys = entry_keys(self.edges());
        let mut i: usize = 0;
        while i < self.dependencies.len()
            invariant
                i <= self.dependencies@.len(),
                keys == entry_keys(self.edges()),
                keys.len() == self.dependencies@.len(),
                forall|k: int| 0 <= k < i ==> keys[k] != p@,
            decreases self.dependencies@.len() - i,
        {
            assert(keys[i as int] == self.dependencies@[i as int].0@);
            if text_eq(self.dependencies[i].0.as_str(), p.as_str()) {
                proof {
                    lemma_first_index(keys, p@, i as int);
                }
                return Some(i);
            }
            i = i + 1;
        }
        proof {
            if keys.contains(p@) {
                let k = choose|k: int| 0 <= k < keys.len() && keys[k] == p@;
                assert(keys[k] != p@);
            }
        }
        None
    }

    fn visit(
        &self,
        package: &PackageName,
        stack: &mut Vec<PackageName>,
        order: &mut Vec<PackageName>,
    ) -> (r: Result<(), GraphError>)
        ensures
            match visit(
                self.edges(),
                name_views(old(stack)@),
                package@,
                name_views(old(order)@),
            ) {
                Ok(o) => r is Ok && name_views(final(order)@) == o && name_views(final(stack)@)
                    == name_views(old(stack)@),
                Err(c) => r matches Err(GraphError::Cycle(v)) && string_views(v@) == c,
            },
        decreases unvisited(entry_keys(self.edges()), name_views(old(stack)@)), 1int, 0int,
    {
        let ghost e = self.edges();
        let ghost s0 = name_views(stack@);
        let ghost o0 = name_views(order@);
        if contains_name(order, package) {
            return Ok(());
        }
        if contains_name(stack, package) {
            let start = match position_of(stack, package) {
                Some(k) => k,
                None => 0,
            };
            let mut cycle = names_to_strings(stack, start);
            cycle.push(String::from_str(package.as_str()));
            proof {
                assert(string_views(cycle@) =~= cycle_at(s0, package@));
            }
            return Err(GraphError::Cycle(cycle));
        }
        match self.lookup(package) {
            None => {
                order.push(package.clone());
                assert(name_views(order@) =~= o0.push(package@));
                Ok(())
            },
            Some(i) => {
                proof {
                    assert(entry_keys(e).contains(package@));
                    lemma_unvisited_push(entry_keys(e), s0, package@);
                }
                stack.push(package.clone());
                assert(name_views(stack@) =~= s0.push(package@));
                let deps = &self.dependencies[i].1;
                let ghost d = name_views(deps@);
                assert(e[i as int].1 == d);
                assert(!o0.contains(package@));
                assert(!s0.contains(package@));
                let ghost i0 = i as int;
                let mut j: usize = 0;
                while j < deps.len()
                    invariant
                        j <= deps@.len(),
                        d == name_views(deps@),
                        e == self.edges(),
                        name_views(stack@) == s0.push(package@),
                        unvisited(entry_keys(e), name_views(stack@)) < unvisited(
                            entry_keys(e),
                            s0,
                        ),
                        s0 == name_views(old(stack)@),
                        o0 == name_views(old(order)@),
                        !o0.contains(package@),
                        !s0.contains(package@),
                        first_index(entry_keys(e), package@) == Some(i0),
                        e[i0].1 == d,
                        visit_dependencies(e, s0.push(package@), d, 0, o0)
                            == visit_dependencies(
                            e,
                            s0.push(package@),
                            d,
                            j as int,
                            name_views(order@),
                        ),
                    decreases deps@.len() - j,
                {
                    assert(d[j as int] == deps@[j as int]@);
                    let step = self.visit(&deps[j], stack, order);
                    match step {
                        Ok(()) => {},
                        Err(err) => {
                            return Err(err);
                        },
                    }
                    j = j + 1;
                }
                let ghost before_pop = stack@;
                stack.pop();
                assert(stack@ =~= before_pop.drop_last());
                assert(name_views(stack@) =~= name_views(before_pop).drop_last());
                assert(name_views(stack@) =~= s0);
                let ghost finished = name_views(order@);
                order.push(package.clone());
                assert(name_views(order@) =~= finished.push(package@));
                Ok(())
            },
        }
    }

    /// Packages in dependency-first order: the depth-first post-order from the
    /// sorted roots, visiting each package's sorted dependencies in order; or
    /// the first dependency cycle met.
    pub fn build_order(&self) -> (r: Result<Vec<PackageName>, GraphError>)
        ensures
            match order_of(self.edges(), self.roots_view()) {
                Ok(o) => r matches Ok(v) && name_views(v@) == o,
                Err(c) => r matches Err(GraphError::Cycle(v)) && string_views(v@) == c,
            },
    {
        let mut stack: Vec<PackageName> = Vec::new();
        let mut order: Vec<PackageName> = Vec::new();
        let ghost e = self.edges();
        let ghost roots = self.roots_view();
        let mut j: usize = 0;
        while j < self.roots.len()
            invariant
                j <= self.roots@.len(),
                e == self.edges(),
                roots == self.roots_view(),
                roots.len() == self.roots@.len(),
                name_views(stack@) == Seq::<Seq<char>>::empty(),
                order_of(e, roots) == visit_roots(e, roots, j as int, name_views(order@)),
            decreases self.roots@.len() - j,
        {
            assert(roots[j as int] == self.roots@[j as int]@);
            match self.visit(&self.roots[j], &mut stack, &mut order) {
                Ok(()) => {},
                Err(err) => {
                    return Err(err);
                },
            }
            j = j + 1;
        }
        Ok(order)
    }
}

/// What building the graph of lockfile `l` gives: an invalid lockfile, the
/// first edge to a missing package, the first cycle, or the graph.
pub open spec fn from_lockfile_outcome(l: Lockfile, r: Result<DependencyGraph, GraphError>) -> bool {
    match lock_problem(l) {
        Some(p) => r matches Err(GraphError::InvalidLock(m)) && m@ == p,
        None => {
            let e = lock_edges(l);
            let roots = lock_roots(l);
            match missing_edge(e, roots) {
                Some((a, b)) => r matches Err(
                    GraphError::MissingPackage { package, dependency },
                ) && package@ == a && dependency@ == b,
                None => match order_of(e, roots) {
                    Err(c) => r matches Err(GraphError::Cycle(v)) && string_views(v@) == c,
                    Ok(_) => r matches Ok(g) && g.edges() == e && g.roots_view() == roots,
                },
            }
        },
    }
}

impl DependencyGraph {
    /// Builds the graph of a lockfile: validates it, sorts packages and every
    /// dependency list by name, requires every edge to lead to a locked package,
    /// and rejects a cycle reachable from the root.
    pub fn from_lockfile(lockfile: &Lockfile) -> (r: Result<Self, GraphError>)
        ensures
            from_lockfile_outcome(*lockfile, r),
    {
        if let Err(e) = lockfile.validate() {
            return Err(GraphError::InvalidLock(String::from_str(e.message())));
        }
        let ghost pkgs = lockfile.packages@;
        let ghost keys = package_names(pkgs);
        let mut names: Vec<&str> = Vec::new();
        let mut i: usize = 0;
        while i < lockfile.packages.len()
            invariant
                i <= pkgs.len(),
                pkgs == lockfile.packages@,
                keys == package_names(pkgs),
                names@.map_values(|t: &str| t@) =~= keys.take(i as int),
            decreases pkgs.len() - i,
        {
            names.push(lockfile.packages[i].name.as_str());
            assert(keys.take(i + 1) =~= keys.take(i as int).push(pkgs[i as int].name@));
            i = i + 1;
        }
        assert(keys.take(pkgs.len() as int) =~= keys);
        let order = sort_indices(&names);
        proof {
            crate::text::lemma_sorted_indices_bounds(keys, pkgs.len() as nat);
        }
        let ghost entries = pkgs.map_values(|p: LockedPackage| package_entry(p));
        let ghost sorted = sorted_indices(keys, pkgs.len() as nat);
        let mut dependencies: Vec<(PackageName, Vec<PackageName>)> = Vec::new();
        let mut k: usize = 0;
        while k < order.len()
            invariant
                k <= order@.len(),
                order@.len() == pkgs.len(),
                pkgs == lockfile.packages@,
                names@.map_values(|t: &str| t@) == keys,
                sorted == sorted_indices(keys, pkgs.len() as nat),
                sorted.len() == pkgs.len(),
                entries == pkgs.map_values(|p: LockedPackage| package_entry(p)),
                forall|m: int| 0 <= m < order@.len() ==> order@[m] < pkgs.len(),
                forall|m: int|
                    0 <= m < order@.len() ==> order@[m] as int == sorted_indices(
                        names@.map_values(|t: &str| t@),
                        names@.len(),
                    )[m],
                names@.len() == pkgs.len(),
                dependencies@.map_values(|x: (PackageName, Vec<PackageName>)| entry_view(x))
                    =~= sorted.take(k as int).map_values(|j: int| entries[j]),
            decreases order@.len() - k,
        {
            let j = order[k];
            let package = &lockfile.packages[j];
            let deps = sorted_copies(&package.dependencies);
            let ghost before = dependencies@;
            dependencies.push((package.name.clone(), deps));
            proof {
                assert(sorted[k as int] == j as int);
                assert(entries[j as int] == package_entry(pkgs[j as int]));
                assert(dependencies@ =~= before.push((package.name, deps)));
                assert(sorted.take(k + 1) =~= sorted.take(k as int).push(j as int));
                assert(sorted.take(k + 1).map_values(|j: int| entries[j]) =~= sorted.take(
                    k as int,
                ).map_values(|j: int| entries[j]).push(entries[j as int]));
            }
            k = k + 1;
        }
        assert(sorted.take(pkgs.len() as int) =~= sorted);
        let roots = sorted_copies(&lockfile.root.dependencies);
        let graph = DependencyGraph { roots, dependencies };
        let ghost e = graph.edges();
        let ghost rv = graph.roots_view();
        assert(e =~= lock_edges(*lockfile));
        assert(rv == lock_roots(*lockfile));
        let ghost gkeys = entry_keys(e);
        let mut j: usize = 0;
        while j < graph.roots.len()
            invariant
                j <= graph.roots@.len(),
                e == graph.edges(),
                rv == graph.roots_view(),
                gkeys == entry_keys(e),
                rv.len() == graph.roots@.len(),
                lock_problem(*lockfile) is None,
                e == lock_edges(*lockfile),
                rv == lock_roots(*lockfile),
                first_absent(rv, gkeys, j as nat) is None,
            decreases graph.roots@.len() - j,
        {
            assert(rv[j as int] == graph.roots@[j as int]@);
            if graph.lookup(&graph.roots[j]).is_none() {
                proof {
                    assert(!gkeys.contains(rv[j as int]));
                    assert(first_absent(rv, gkeys, (j + 1) as nat) == Some(j as int));
                    lemma_first_absent_stable(rv, gkeys, (j + 1) as nat, rv.len());
                }
                return Err(
                    GraphError::MissingPackage {
                        package: String::from_str("<root>"),
                        dependency: String::from_str(graph.roots[j].as_str()),
                    },
                );
            }
            j = j + 1;
        }
        let mut a: usize = 0;
        while a < graph.dependencies.len()
            invariant
                a <= graph.dependencies@.len(),
                e == graph.edges(),
                gkeys == entry_keys(e),
                e.len() == graph.dependencies@.len(),
                lock_problem(*lockfile) is None,
                e == lock_edges(*lockfile),
                rv == lock_roots(*lockfile),
                rv == graph.roots_view(),
                first_absent(rv, gkeys, rv.len()) is None,
                first_missing_edge(e, gkeys, a as nat) is None,
            decreases graph.dependencies@.len() - a,
        {
            let deps = &graph.dependencies[a].1;
            let ghost d = name_views(deps@);
            assert(e[a as int] == entry_view(graph.dependencies@[a as int]));
            assert(e[a as int].1 == d);
            let mut b: usize = 0;
            while b < deps.len()
                invariant
                    b <= deps@.len(),
                    d == name_views(deps@),
                    e == graph.edges(),
                    gkeys == entry_keys(e),
                    e[a as int].1 == d,
                    a < e.len(),
                    lock_problem(*lockfile) is None,
                    e == lock_edges(*lockfile),
                    rv == lock_roots(*lockfile),
                    first_absent(rv, gkeys, rv.len()) is None,
                    first_missing_edge(e, gkeys, a as nat) is None,
                    first_absent(d, gkeys, b as nat) is None,
                decreases deps@.len() - b,
            {
                assert(d[b as int] == deps@[b as int]@);
                if graph.lookup(&deps[b]).is_none() {
                    proof {
                        assert(!gkeys.contains(d[b as int]));
                        assert(first_absent(d, gkeys, (b + 1) as nat) == Some(b as int));
                        lemma_first_absent_stable(d, gkeys, (b + 1) as nat, d.len());
                        assert(first_missing_edge(e, gkeys, (a + 1) as nat) == Some(
                            (a as int, b as int),
                        ));
                        lemma_first_missing_edge_stable(e, gkeys, (a + 1) as nat, e.len());
                    }
                    return Err(
                        GraphError::MissingPackage {
                            package: String::from_str(graph.dependencies[a].0.as_str()),
                            dependency: String::from_str(deps[b].as_str()),
                        },
                    );
                }
                b = b + 1;
            }
            a = a + 1;
        }
        match graph.build_order() {
            Err(err) => Err(err),
            Ok(_) => Ok(graph),
        }
    }
}


/// The dependencies the graph records for `p`; none for a package it lacks.
pub open spec fn deps_of(e: Edges, p: Seq<char>) -> Seq<Seq<char>> {
    match first_index(entry_keys(e), p) {
        Some(i) => e[i].1,
        None => Seq::empty(),
    }
}

/// `x` occurs in `o` before position `i`.
pub open spec fn occurs_before(o: Seq<Seq<char>>, i: int, x: Seq<char>) -> bool {
    exists|m: int| 0 <= m < i && o[m] == x
}

/// Every package of `o` comes after each of its dependencies.
pub open spec fn dependency_first(e: Edges, o: Seq<Seq<char>>) -> bool {
    forall|i: int, k: int|
        0 <= i < o.len() && 0 <= k < deps_of(e, o[i]).len() ==> occurs_before(
            o,
            i,
            #[trigger] deps_of(e, o[i])[k],
        )
}

/// `a` is an initial part of `b`.
pub open spec fn extends(a: Seq<Seq<char>>, b: Seq<Seq<char>>) -> bool {
    a.len() <= b.len() && forall|k: int| 0 <= k < a.len() ==> b[k] == a[k]
}

proof fn lemma_dependency_first_push(e: Edges, o: Seq<Seq<char>>, p: Seq<char>)
    requires
        dependency_first(e, o),
        forall|k: int| 0 <= k < deps_of(e, p).len() ==> o.contains(#[trigger] deps_of(e, p)[k]),
    ensures
        dependency_first(e, o.push(p)),
{
    let q = o.push(p);
    assert forall|i: int, k: int|
        0 <= i < q.len() && 0 <= k < deps_of(e, q[i]).len() implies occurs_before(
            q,
            i,
            #[trigger] deps_of(e, q[i])[k],
        ) by {
        if i < o.len() {
            assert(q[i] == o[i]);
            assert(occurs_before(o, i, deps_of(e, o[i])[k]));
            let m = choose|m: int| 0 <= m < i && o[m] == deps_of(e, o[i])[k];
            assert(q[m] == o[m]);
        } else {
            assert(q[i] == p);
            assert(o.contains(deps_of(e, p)[k]));
            let m = choose|m: int| 0 <= m < o.len() && o[m] == deps_of(e, p)[k];
            assert(q[m] == o[m]);
        }
    }
}

proof fn lemma_visit_closed(e: Edges, stack: Seq<Seq<char>>, p: Seq<char>, order: Seq<Seq<char>>)
    requires
        dependency_first(e, order),
        order.no_duplicates(),
    ensures
        visit(e, stack, p, order) matches Ok(o) ==> {
            &&& extends(order, o)
            &&& dependency_first(e, o)
            &&& o.no_duplicates()
            &&& o.contains(p)
            &&& forall|k: int| order.len() <= k < o.len() ==> !stack.contains(#[trigger] o[k])
        },
    decreases unvisited(entry_keys(e), stack), 1int, 0int,
{
    if order.contains(p) {
    } else if stack.contains(p) {
    } else {
        match first_index(entry_keys(e), p) {
            None => {
                let o = order.push(p);
                lemma_dependency_first_push(e, order, p);
                assert(o[order.len() as int] == p);
                assert forall|a: int, b: int| 0 <= a < o.len() && 0 <= b < o.len() && a != b implies o[a]
                    != o[b] by {
                    if a < order.len() && b < order.len() {
                    } else if a < order.len() {
                        assert(order.contains(o[a]));
                    } else {
                        assert(order.contains(o[b]));
                    }
                }
            },
            Some(i) => {
                lemma_unvisited_push(entry_keys(e), stack, p);
                let s1 = stack.push(p);
                lemma_visit_dependencies_closed(e, s1, e[i].1, 0, order);
                match visit_dependencies(e, s1, e[i].1, 0, order) {
                    Ok(o1) => {
                        let o = o1.push(p);
                        assert(deps_of(e, p) == e[i].1);
                        lemma_dependency_first_push(e, o1, p);
                        assert(s1[stack.len() as int] == p);
                        assert(!o1.contains(p)) by {
                            if o1.contains(p) {
                                let k = choose|k: int| 0 <= k < o1.len() && o1[k] == p;
                                if k < order.len() {
                                    assert(order[k] == p);
                                } else {
                                    assert(s1.contains(p));
                                }
                            }
                        }
                        assert forall|a: int, b: int|
                            0 <= a < o.len() && 0 <= b < o.len() && a != b implies o[a] != o[b] by {
                            if a < o1.len() && b < o1.len() {
                            } else if a < o1.len() {
                                assert(o1.contains(o[a]));
                            } else {
                                assert(o1.contains(o[b]));
                            }
                        }
                        assert(o[o1.len() as int] == p);
                        assert forall|k: int| order.len() <= k < o.len() implies !stack.contains(
                            #[trigger] o[k],
                        ) by {
                            if k < o1.len() {
                                assert(o[k] == o1[k]);
                                if stack.contains(o1[k]) {
                                    let m = choose|m: int| 0 <= m < stack.len() && stack[m] == o1[k];
                                    assert(s1[m] == o1[k]);
                                }
                            }
                        }
                    },
                    Err(_) => {},
                }
            },
        }
    }
}

proof fn lemma_visit_dependencies_closed(
    e: Edges,
    stack: Seq<Seq<char>>,
    deps: Seq<Seq<char>>,
    j: int,
    order: Seq<Seq<char>>,
)
    requires
        dependency_first(e, order),
        order.no_duplicates(),
        0 <= j,
    ensures
        visit_dependencies(e, stack, deps, j, order) matches Ok(o) ==> {
            &&& extends(order, o)
            &&& dependency_first(e, o)
            &&& o.no_duplicates()
            &&& forall|k: int| j <= k < deps.len() ==> o.contains(#[trigger] deps[k])
            &&& forall|k: int| order.len() <= k < o.len() ==> !stack.contains(#[trigger] o[k])
        },
    decreases unvisited(entry_keys(e), stack), 2int, deps.len() - j,
{
    if j < deps.len() {
        lemma_visit_closed(e, stack, deps[j], order);
        match visit(e, stack, deps[j], order) {
            Ok(o1) => {
                lemma_visit_dependencies_closed(e, stack, deps, j + 1, o1);
                match visit_dependencies(e, stack, deps, j + 1, o1) {
                    Ok(o) => {
                        assert(o1.contains(deps[j]));
                        let m = choose|m: int| 0 <= m < o1.len() && o1[m] == deps[j];
                        assert(o[m] == deps[j]);
                        assert forall|k: int| order.len() <= k < o.len() implies !stack.contains(
                            #[trigger] o[k],
                        ) by {
                            if k < o1.len() {
                                assert(o[k] == o1[k]);
                            }
                        }
                    },
                    Err(_) => {},
                }
            },
            Err(_) => {},
        }
    }
}

proof fn lemma_visit_roots_closed(e: Edges, roots: Seq<Seq<char>>, j: int, order: Seq<Seq<char>>)
    requires
        dependency_first(e, order),
        order.no_duplicates(),
        0 <= j,
    ensures
        visit_roots(e, roots, j, order) matches Ok(o) ==> {
            &&& extends(order, o)
            &&& dependency_first(e, o)
            &&& o.no_duplicates()
            &&& forall|k: int| j <= k < roots.len() ==> o.contains(#[trigger] roots[k])
        },
    decreases roots.len() - j,
{
    if j < roots.len() {
        lemma_visit_closed(e, Seq::empty(), roots[j], order);
        match visit(e, Seq::empty(), roots[j], order) {
            Ok(o1) => {
                lemma_visit_roots_closed(e, roots, j + 1, o1);
                match visit_roots(e, roots, j + 1, o1) {
                    Ok(o) => {
                        let m = choose|m: int| 0 <= m < o1.len() && o1[m] == roots[j];
                        assert(o[m] == roots[j]);
                    },
                    Err(_) => {},
                }
            },
            Err(_) => {},
        }
    }
}

/// A successful build order lists each package once, after every package it
/// depends on, and includes every root.
pub proof fn law_build_order_is_dependency_first(g: DependencyGraph)
    ensures
        order_of(g.edges(), g.roots_view()) matches Ok(o) ==> {
            &&& dependency_first(g.edges(), o)
            &&& o.no_duplicates()
            &&& forall|k: int|
                0 <= k < g.roots_view().len() ==> o.contains(#[trigger] g.roots_view()[k])
        },
{
    lemma_visit_roots_closed(g.edges(), g.roots_view(), 0, Seq::empty());
}


} // verus!
