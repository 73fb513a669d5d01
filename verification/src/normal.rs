//! The normal forms in which manifests and lockfiles are written out: every
//! list that carries no meaning in its order is ordered by name.
use crate::manifest::{
    dependency_names, dependency_problem, lock_problem, manifest_problem, name_views,
    package_names, BuildDeclaration, DependencyDeclaration, LockedPackage, LockedRoot, Lockfile,
    Manifest, ModelError, PackageName, PackageVersion, LockedSource, PluginName,
};
use crate::graph_properties::{lemma_locked_dependencies_distinct, lemma_locked_names_distinct};
use vstd::multiset::Multiset;
use crate::order::{key_ordered, lemma_distinct_keys_strict, sort_by_key, Keyed};
use crate::text::{
    first_repeat, lemma_map_permutation, lemma_no_repeat_distinct, lemma_strictly_keyed_equal,
    lemma_text_lt_total, text_lt,
};
use vstd::prelude::*;

verus! {

/// `m` is `a` with its build systems and dependencies ordered by name.
pub open spec fn manifest_normal_form(a: Manifest, m: Manifest) -> bool {
    &&& m.schema == a.schema
    &&& m.package == a.package
    &&& m.build.options == a.build.options
    &&& m.build.systems@.to_multiset() == a.build.systems@.to_multiset()
    &&& key_ordered(m.build.systems@)
    &&& m.dependencies@.to_multiset() == a.dependencies@.to_multiset()
    &&& key_ordered(m.dependencies@)
}

/// `p` is `q` with its dependency list possibly reordered.
pub open spec fn same_package(p: LockedPackage, q: LockedPackage) -> bool {
    &&& p.name == q.name
    &&& p.version == q.version
    &&& p.source == q.source
    &&& p.dependencies@.to_multiset() == q.dependencies@.to_multiset()
}

/// `l` is `a` with the root's dependencies, the packages and each package's
/// dependencies ordered by name.
pub open spec fn lock_normal_form(a: Lockfile, l: Lockfile) -> bool {
    &&& l.schema == a.schema
    &&& l.root.name == a.root.name
    &&& l.root.version == a.root.version
    &&& l.root.dependencies@.to_multiset() == a.root.dependencies@.to_multiset()
    &&& key_ordered(l.root.dependencies@)
    &&& l.packages@.len() == a.packages@.len()
    &&& package_names(l.packages@).to_multiset() == package_names(a.packages@).to_multiset()
    &&& key_ordered(l.packages@)
    &&& forall|i: int| 0 <= i < l.packages@.len() ==> key_ordered(#[trigger] l.packages@[i].dependencies@)
    &&& forall|i: int|
        0 <= i < l.packages@.len() ==> exists|j: int|
            0 <= j < a.packages@.len() && same_package(#[trigger] l.packages@[i], a.packages@[j])
    &&& forall|j: int|
        0 <= j < a.packages@.len() ==> exists|i: int|
            0 <= i < l.packages@.len() && same_package(l.packages@[i], #[trigger] a.packages@[j])
}

impl Manifest {
    /// The manifest as it is written out: validated, with build systems and
    /// dependencies ordered by name.
    pub fn normalized(self) -> (r: Result<Manifest, ModelError>)
        ensures
            match manifest_problem(self) {
                Some(p) => r matches Err(e) && e@ == p,
                None => r matches Ok(m) && manifest_normal_form(self, m),
            },
    {
        let check = self.validate();
        if let Err(e) = check {
            return Err(e);
        }
        let Manifest { schema, package, build, dependencies } = self;
        let BuildDeclaration { systems, options } = build;
        let systems = sort_by_key(systems);
        let dependencies = sort_by_key(dependencies);
        Ok(Manifest { schema, package, build: BuildDeclaration { systems, options }, dependencies })
    }
}

/// The packages with each dependency list ordered by name.
fn order_package_dependencies(packages: Vec<LockedPackage>) -> (r: Vec<LockedPackage>)
    ensures
        r@.len() == packages@.len(),
        forall|i: int| 0 <= i < r@.len() ==> same_package(#[trigger] r@[i], packages@[i]),
        forall|i: int| 0 <= i < r@.len() ==> key_ordered(#[trigger] r@[i].dependencies@),
{
    let ghost all = packages@;
    let mut rest = packages;
    let mut out: Vec<LockedPackage> = Vec::new();
    while rest.len() > 0
        invariant
            out@.len() + rest@.len() == all.len(),
            rest@ == all.skip(out@.len() as int),
            forall|i: int| 0 <= i < out@.len() ==> same_package(#[trigger] out@[i], all[i]),
            forall|i: int| 0 <= i < out@.len() ==> key_ordered(#[trigger] out@[i].dependencies@),
        decreases rest@.len(),
    {
        let ghost before = rest@;
        let p = rest.remove(0);
        assert(rest@ =~= all.skip(out@.len() as int + 1));
        assert(p == all[out@.len() as int]);
        let LockedPackage { name, version, dependencies, source } = p;
        let dependencies = sort_by_key(dependencies);
        out.push(LockedPackage { name, version, dependencies, source });
    }
    out
}

impl Lockfile {
    /// The lockfile as it is written out: validated, with the root's
    /// dependencies, the packages and each package's dependencies ordered by
    /// name.
    pub fn normalized(self) -> (r: Result<Lockfile, ModelError>)
        ensures
            match lock_problem(self) {
                Some(p) => r matches Err(e) && e@ == p,
                None => r matches Ok(l) && lock_normal_form(self, l),
            },
    {
        broadcast use vstd::seq_lib::group_to_multiset_ensures;

        let check = self.validate();
        if let Err(e) = check {
            return Err(e);
        }
        let ghost input = self;
        let Lockfile { schema, root, packages } = self;
        let LockedRoot { name, version, dependencies } = root;
        let dependencies = sort_by_key(dependencies);
        let mid = order_package_dependencies(packages);
        let ghost middle = mid@;
        let sorted = sort_by_key(mid);
        let r = Lockfile {
            schema,
            root: LockedRoot { name, version, dependencies },
            packages: sorted,
        };
        proof {
            let a = input.packages@;
            let l = r.packages@;
            assert(l.len() == middle.len()) by {
                assert(l.to_multiset().len() == middle.to_multiset().len());
            }
            assert forall|i: int| 0 <= i < l.len() implies exists|j: int|
                0 <= j < a.len() && same_package(#[trigger] l[i], a[j]) by {
                assert(l.to_multiset().count(l[i]) > 0) by {
                    assert(l.contains(l[i]));
                }
                assert(middle.contains(l[i]));
                let j = choose|j: int| 0 <= j < middle.len() && middle[j] == l[i];
                assert(same_package(middle[j], a[j]));
            }
            assert forall|j: int| 0 <= j < a.len() implies exists|i: int|
                0 <= i < l.len() && same_package(l[i], #[trigger] a[j]) by {
                assert(same_package(middle[j], a[j]));
                assert(middle.contains(middle[j]));
                assert(middle.to_multiset().count(middle[j]) > 0);
                assert(l.contains(middle[j]));
                let i = choose|i: int| 0 <= i < l.len() && l[i] == middle[j];
            }
            let key = |p: LockedPackage| p.name@;
            lemma_map_permutation(l, middle, key);
            assert(l.map_values(key) =~= package_names(l));
            assert(middle.map_values(key) =~= package_names(a));
            assert(r.schema == input.schema);
            assert(r.root.dependencies@.to_multiset() == input.root.dependencies@.to_multiset());
            assert(l.len() == a.len());
            assert(key_ordered(l));
            assert forall|i: int| 0 <= i < l.len() implies key_ordered(#[trigger] l[i].dependencies@) by {
                assert(l.contains(l[i]));
                assert(l.to_multiset().count(l[i]) > 0);
                assert(middle.to_multiset().count(l[i]) > 0);
                assert(middle.contains(l[i]));
                let j = choose|j: int| 0 <= j < middle.len() && middle[j] == l[i];
                assert(key_ordered(middle[j].dependencies@));
            }
        }
        Ok(r)
    }
}


proof fn lemma_declared_names_distinct(deps: Seq<DependencyDeclaration>, n: nat)
    requires
        n <= deps.len(),
        dependency_problem(deps, n) is None,
    ensures
        dependency_names(deps).take(n as int).no_duplicates(),
    decreases n,
{
    if n > 0 {
        lemma_declared_names_distinct(deps, (n - 1) as nat);
        let names = dependency_names(deps);
        let t = names.take(n as int);
        let p = names.take(n - 1);
        assert(!p.contains(deps[n - 1].name@));
        assert(names[n - 1] == deps[n - 1].name@);
        assert forall|i: int, j: int| 0 <= i < t.len() && 0 <= j < t.len() && i != j implies t[i]
            != t[j] by {
            if i < n - 1 && j < n - 1 {
                assert(t[i] == p[i] && t[j] == p[j]);
            } else if i < n - 1 {
                assert(t[i] == p[i]);
            } else {
                assert(t[j] == p[j]);
            }
        }
    }
}

/// Rearranging items keeps their keys distinct.
proof fn lemma_permutation_keeps_distinct<T: Keyed>(s: Seq<T>, t: Seq<T>)
    requires
        s.to_multiset() == t.to_multiset(),
        s.map_values(|x: T| x.key_view()).no_duplicates(),
    ensures
        t.map_values(|x: T| x.key_view()).no_duplicates(),
{
    let key = |x: T| x.key_view();
    lemma_map_permutation(s, t, key);
    assert(s.map_values(key) =~= s.map_values(|x: T| x.key_view()));
    assert(t.map_values(key) =~= t.map_values(|x: T| x.key_view()));
    s.map_values(key).lemma_multiset_has_no_duplicates();
    t.map_values(key).lemma_multiset_has_no_duplicates_conv();
}

/// Texts in order, equal ones allowed, are determined by the texts they hold.
proof fn lemma_ordered_texts_equal(a: Seq<Seq<char>>, b: Seq<Seq<char>>)
    requires
        a.to_multiset() == b.to_multiset(),
        forall|i: int, j: int| 0 <= i < j < a.len() ==> !text_lt(#[trigger] a[j], #[trigger] a[i]),
        forall|i: int, j: int| 0 <= i < j < b.len() ==> !text_lt(#[trigger] b[j], #[trigger] b[i]),
    ensures
        a == b,
    decreases a.len(),
{
    broadcast use vstd::seq_lib::group_to_multiset_ensures;

    if a.len() == 0 {
        assert(b.to_multiset().len() == 0);
        assert(a =~= b);
    } else {
        assert(b.len() == a.len()) by {
            assert(a.len() == a.to_multiset().len());
            assert(b.len() == b.to_multiset().len());
        }
        let x = a.last();
        let y = b.last();
        if x != y {
            assert(a.contains(x)) by {
                assert(a[a.len() - 1] == x);
            }
            assert(b.contains(y)) by {
                assert(b[b.len() - 1] == y);
            }
            assert(b.to_multiset().count(x) > 0);
            assert(a.to_multiset().count(y) > 0);
            let i = choose|i: int| 0 <= i < b.len() && b[i] == x;
            let j = choose|j: int| 0 <= j < a.len() && a[j] == y;
            assert(i < b.len() - 1);
            assert(j < a.len() - 1);
            assert(!text_lt(b[b.len() - 1], b[i]));
            assert(!text_lt(a[a.len() - 1], a[j]));
            lemma_text_lt_total(x, y);
        }
        let ta = a.drop_last();
        let tb = b.drop_last();
        assert(a =~= ta.push(x));
        assert(b =~= tb.push(x));
        assert(ta.to_multiset() =~= a.to_multiset().remove(x));
        assert(tb.to_multiset() =~= b.to_multiset().remove(x));
        assert forall|i: int, j: int| 0 <= i < j < ta.len() implies !text_lt(
            #[trigger] ta[j],
            #[trigger] ta[i],
        ) by {
            assert(ta[i] == a[i] && ta[j] == a[j]);
        }
        assert forall|i: int, j: int| 0 <= i < j < tb.len() implies !text_lt(
            #[trigger] tb[j],
            #[trigger] tb[i],
        ) by {
            assert(tb[i] == b[i] && tb[j] == b[j]);
        }
        lemma_ordered_texts_equal(ta, tb);
    }
}

/// The names of build systems.
pub open spec fn system_names(s: Seq<PluginName>) -> Seq<Seq<char>> {
    s.map_values(|x: PluginName| x@)
}

/// Writing a manifest out does not depend on the order in which it lists its
/// dependencies or build systems: the normal forms of two valid manifests that
/// differ only in those orders have the same dependencies and the same
/// build-system names, in the same order.
pub proof fn law_normal_form_ignores_listing_order(
    a: Manifest,
    b: Manifest,
    na: Manifest,
    nb: Manifest,
)
    requires
        manifest_problem(a) is None,
        a.dependencies@.to_multiset() == b.dependencies@.to_multiset(),
        a.build.systems@.to_multiset() == b.build.systems@.to_multiset(),
        manifest_normal_form(a, na),
        manifest_normal_form(b, nb),
    ensures
        na.dependencies@ == nb.dependencies@,
        system_names(na.build.systems@) == system_names(nb.build.systems@),
{
    let da = a.dependencies@;
    lemma_declared_names_distinct(da, da.len());
    assert(dependency_names(da).take(da.len() as int) =~= dependency_names(da));
    assert(da.map_values(|x: DependencyDeclaration| x.key_view()) =~= dependency_names(da));
    lemma_permutation_keeps_distinct(da, na.dependencies@);
    lemma_permutation_keeps_distinct(da, nb.dependencies@);
    lemma_distinct_keys_strict(na.dependencies@);
    lemma_distinct_keys_strict(nb.dependencies@);
    assert forall|x: DependencyDeclaration| #[trigger] na.dependencies@.contains(x)
        <==> nb.dependencies@.contains(x) by {
        broadcast use vstd::seq_lib::group_to_multiset_ensures;

        assert(na.dependencies@.contains(x) <==> na.dependencies@.to_multiset().count(x) > 0);
        assert(nb.dependencies@.contains(x) <==> nb.dependencies@.to_multiset().count(x) > 0);
    }
    lemma_strictly_keyed_equal(
        na.dependencies@,
        nb.dependencies@,
        |x: DependencyDeclaration| x.key_view(),
    );
    let view = |x: PluginName| x@;
    lemma_map_permutation(na.build.systems@, nb.build.systems@, view);
    let sa = system_names(na.build.systems@);
    let sb = system_names(nb.build.systems@);
    assert(na.build.systems@.map_values(view) =~= sa);
    assert(nb.build.systems@.map_values(view) =~= sb);
    assert forall|i: int, j: int| 0 <= i < j < sa.len() implies !text_lt(
        #[trigger] sa[j],
        #[trigger] sa[i],
    ) by {
        assert(sa[i] == na.build.systems@[i].key_view());
        assert(sa[j] == na.build.systems@[j].key_view());
    }
    assert forall|i: int, j: int| 0 <= i < j < sb.len() implies !text_lt(
        #[trigger] sb[j],
        #[trigger] sb[i],
    ) by {
        assert(sb[i] == nb.build.systems@[i].key_view());
        assert(sb[j] == nb.build.systems@[j].key_view());
    }
    lemma_ordered_texts_equal(sa, sb);
}


/// What a lockfile records of a package, its dependency list taken as a set.
pub open spec fn package_record(p: LockedPackage) -> (
    PackageName,
    PackageVersion,
    LockedSource,
    Multiset<PackageName>,
) {
    (p.name, p.version, p.source, p.dependencies@.to_multiset())
}

/// Items whose views are distinct stay distinct when rearranged, and two
/// ordered arrangements of them are equal.
proof fn lemma_ordered_names_equal(s: Seq<PackageName>, a: Seq<PackageName>, b: Seq<PackageName>)
    requires
        name_views(s).no_duplicates(),
        a.to_multiset() == s.to_multiset(),
        b.to_multiset() == s.to_multiset(),
        key_ordered(a),
        key_ordered(b),
    ensures
        a == b,
{
    broadcast use vstd::seq_lib::group_to_multiset_ensures;

    assert(s.map_values(|x: PackageName| x.key_view()) =~= name_views(s));
    lemma_permutation_keeps_distinct(s, a);
    lemma_permutation_keeps_distinct(s, b);
    lemma_distinct_keys_strict(a);
    lemma_distinct_keys_strict(b);
    assert forall|x: PackageName| #[trigger] a.contains(x) <==> b.contains(x) by {
        assert(a.contains(x) <==> a.to_multiset().count(x) > 0);
        assert(b.contains(x) <==> b.to_multiset().count(x) > 0);
    }
    lemma_strictly_keyed_equal(a, b, |x: PackageName| x.key_view());
}

/// Writing a lockfile out does not depend on the order in which it lists its
/// packages, their dependencies or the root's dependencies: the normal forms
/// of two lockfiles, the first valid, that lock the same packages with the
/// same dependency sets and have the same root, list the same root
/// dependencies and the same packages, field for field, in the same order.
pub proof fn law_lock_normal_form_ignores_listing_order(
    a: Lockfile,
    b: Lockfile,
    na: Lockfile,
    nb: Lockfile,
)
    requires
        lock_problem(a) is None,
        a.schema == b.schema,
        a.root.name == b.root.name,
        a.root.version == b.root.version,
        a.root.dependencies@.to_multiset() == b.root.dependencies@.to_multiset(),
        a.packages@.map_values(|p: LockedPackage| package_record(p)).to_multiset()
            == b.packages@.map_values(|p: LockedPackage| package_record(p)).to_multiset(),
        lock_normal_form(a, na),
        lock_normal_form(b, nb),
    ensures
        na.schema == nb.schema,
        na.root.name == nb.root.name,
        na.root.version == nb.root.version,
        na.root.dependencies@ == nb.root.dependencies@,
        na.packages@.len() == nb.packages@.len(),
        forall|i: int|
            0 <= i < na.packages@.len() ==> {
                &&& (#[trigger] na.packages@[i]).name == nb.packages@[i].name
                &&& na.packages@[i].version == nb.packages@[i].version
                &&& na.packages@[i].source == nb.packages@[i].source
                &&& na.packages@[i].dependencies@ == nb.packages@[i].dependencies@
            },
{
    broadcast use vstd::seq_lib::group_to_multiset_ensures;

    let pa = a.packages@;
    let pb = b.packages@;
    let qa = na.packages@;
    let qb = nb.packages@;
    let record = |p: LockedPackage| package_record(p);
    // The root's dependencies.
    let roots = name_views(a.root.dependencies@);
    lemma_no_repeat_distinct(roots, roots.len());
    assert(roots.take(roots.len() as int) =~= roots);
    lemma_ordered_names_equal(a.root.dependencies@, na.root.dependencies@, nb.root.dependencies@);
    // The package names, in order.
    lemma_locked_names_distinct(pa, pa.len());
    assert(package_names(pa).take(pa.len() as int) =~= package_names(pa));
    let name_of = |r: (PackageName, PackageVersion, LockedSource, Multiset<PackageName>)| r.0@;
    lemma_map_permutation(pa.map_values(record), pb.map_values(record), name_of);
    assert(pa.map_values(record).map_values(name_of) =~= package_names(pa));
    assert(pb.map_values(record).map_values(name_of) =~= package_names(pb));
    let na_names = package_names(qa);
    let nb_names = package_names(qb);
    package_names(pa).lemma_multiset_has_no_duplicates();
    na_names.lemma_multiset_has_no_duplicates_conv();
    nb_names.lemma_multiset_has_no_duplicates_conv();
    assert forall|i: int, j: int| 0 <= i < j < na_names.len() implies !text_lt(
        #[trigger] na_names[j],
        #[trigger] na_names[i],
    ) by {
        assert(na_names[i] == qa[i].key_view() && na_names[j] == qa[j].key_view());
    }
    assert forall|i: int, j: int| 0 <= i < j < nb_names.len() implies !text_lt(
        #[trigger] nb_names[j],
        #[trigger] nb_names[i],
    ) by {
        assert(nb_names[i] == qb[i].key_view() && nb_names[j] == qb[j].key_view());
    }
    lemma_ordered_texts_equal(na_names, nb_names);
    // Each package, position by position.
    assert forall|i: int| 0 <= i < qa.len() implies {
        &&& (#[trigger] qa[i]).name == qb[i].name
        &&& qa[i].version == qb[i].version
        &&& qa[i].source == qb[i].source
        &&& qa[i].dependencies@ == qb[i].dependencies@
    } by {
        let j = choose|j: int| 0 <= j < pa.len() && same_package(qa[i], pa[j]);
        let k = choose|k: int| 0 <= k < pb.len() && same_package(qb[i], pb[k]);
        assert(pb.map_values(record)[k] == package_record(pb[k]));
        assert(pb.map_values(record).contains(package_record(pb[k])));
        assert(pa.map_values(record).to_multiset().count(package_record(pb[k])) > 0);
        assert(pa.map_values(record).contains(package_record(pb[k])));
        let m = choose|m: int| 0 <= m < pa.len() && pa.map_values(record)[m] == package_record(pb[k]);
        assert(pa.map_values(record)[m] == package_record(pa[m]));
        assert(na_names[i] == nb_names[i]);
        assert(package_names(pa)[j] == pa[j].name@);
        assert(package_names(pa)[m] == pa[m].name@);
        assert(j == m);
        lemma_locked_dependencies_distinct(pa, pa.len(), j);
        let deps = pa[j].dependencies@;
        lemma_ordered_names_equal(deps, qa[i].dependencies@, qb[i].dependencies@);
    }
}

} // verus!
