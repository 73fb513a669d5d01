//! Exactly which identifiers, manifests and lockfiles are accepted, stated as
//! conditions on the whole input rather than as the first problem found.
use crate::manifest::{
    declared_source_problem, dependency_names, dependency_problem, is_ascii_alnum, is_https,
    is_name_byte, is_version_byte, lock_problem, locked_package_problem, locked_source_problem,
    manifest_problem, name_problem, name_views, package_names, version_problem, DependencyDeclaration,
    LockedPackage, LockedSource, Lockfile, Manifest, SourceDeclaration, LOCK_SCHEMA_V1,
    MANIFEST_SCHEMA_V1,
};
use crate::text::{first_repeat, lemma_no_repeat_distinct};
use vstd::prelude::*;
use vstd::utf8::*;

verus! {

/// A name is accepted exactly when it is 1 to 128 bytes of ASCII letters,
/// digits, `.`, `_` and `-`, begins with a letter or digit, and is neither
/// `.` nor `..`.
pub proof fn law_name_rule(s: Seq<char>)
    ensures
        name_problem(s) is None <==> {
            let b = encode_utf8(s);
            &&& 1 <= s.len()
            &&& b.len() <= 128
            &&& s != "."@ && s != ".."@
            &&& forall|i: int| 0 <= i < b.len() ==> is_name_byte(#[trigger] b[i])
            &&& is_ascii_alnum(b[0])
        },
{
}

/// A version is accepted exactly when it is 1 to 128 bytes of ASCII letters,
/// digits, `.`, `_`, `-` and `+`, and is neither `.` nor `..`; its first
/// character is not restricted.
pub proof fn law_version_rule(s: Seq<char>)
    ensures
        version_problem(s) is None <==> {
            let b = encode_utf8(s);
            &&& 1 <= s.len()
            &&& b.len() <= 128
            &&& s != "."@ && s != ".."@
            &&& forall|i: int| 0 <= i < b.len() ==> is_version_byte(#[trigger] b[i])
        },
{
}

/// With the first `n` texts of `s` distinct, none of them repeats.
pub proof fn lemma_distinct_no_repeat(s: Seq<Seq<char>>, n: nat)
    requires
        n <= s.len(),
        s.take(n as int).no_duplicates(),
    ensures
        first_repeat(s, n) is None,
    decreases n,
{
    if n > 0 {
        let t = s.take(n as int);
        let p = s.take(n - 1);
        assert(p.no_duplicates()) by {
            assert forall|i: int, j: int| 0 <= i < p.len() && 0 <= j < p.len() && i != j implies p[i]
                != p[j] by {
                assert(p[i] == t[i] && p[j] == t[j]);
            }
        }
        assert(s.take(n - 1) =~= p);
        lemma_distinct_no_repeat(s, (n - 1) as nat);
        if p.contains(s[n - 1]) {
            let m = choose|m: int| 0 <= m < p.len() && p[m] == s[n - 1];
            assert(t[m] == t[n - 1]);
        }
    }
}

/// No repeat among all of `s` exactly when its texts are distinct.
pub proof fn lemma_no_repeat_iff_distinct(s: Seq<Seq<char>>)
    ensures
        first_repeat(s, s.len()) is None <==> s.no_duplicates(),
{
    assert(s.take(s.len() as int) =~= s);
    if first_repeat(s, s.len()) is None {
        lemma_no_repeat_distinct(s, s.len());
    }
    if s.no_duplicates() {
        lemma_distinct_no_repeat(s, s.len());
    }
}

/// A declared source is accepted unless it is an archive without `https://`.
pub open spec fn declared_source_ok(s: SourceDeclaration) -> bool {
    s matches SourceDeclaration::Archive { url, .. } ==> is_https(url@)
}

/// A locked source is accepted unless it is an archive without `https://`.
pub open spec fn locked_source_ok(s: LockedSource) -> bool {
    s matches LockedSource::Archive { url, .. } ==> is_https(url@)
}

proof fn lemma_dependency_problem_none(deps: Seq<DependencyDeclaration>, n: nat)
    requires
        n <= deps.len(),
    ensures
        dependency_problem(deps, n) is None <==> {
            &&& forall|i: int| 0 <= i < n ==> declared_source_ok(#[trigger] deps[i].source)
            &&& dependency_names(deps).take(n as int).no_duplicates()
        },
    decreases n,
{
    let names = dependency_names(deps);
    if n > 0 {
        lemma_dependency_problem_none(deps, (n - 1) as nat);
        let t = names.take(n as int);
        let p = names.take(n - 1);
        assert(t =~= p.push(names[n - 1]));
        assert(names[n - 1] == deps[n - 1].name@);
        if t.no_duplicates() {
            assert(p.no_duplicates()) by {
                assert forall|i: int, j: int| 0 <= i < p.len() && 0 <= j < p.len() && i != j implies p[i]
                    != p[j] by {
                    assert(p[i] == t[i] && p[j] == t[j]);
                }
            }
            if p.contains(names[n - 1]) {
                let m = choose|m: int| 0 <= m < p.len() && p[m] == names[n - 1];
                assert(t[m] == t[n - 1]);
            }
        }
        if dependency_problem(deps, n) is None {
            assert(declared_source_problem(deps[n - 1].source) is None);
            assert(!p.contains(names[n - 1]));
            assert forall|i: int, j: int| 0 <= i < t.len() && 0 <= j < t.len() && i != j implies t[i]
                != t[j] by {
                if i < n - 1 && j < n - 1 {
                    assert(t[i] == p[i] && t[j] == p[j]);
                } else if i < n - 1 {
                    assert(t[i] == p[i]);
                } else {
                    assert(t[j] == p[j]);
                }
            }
        }
    } else {
        assert(names.take(0).len() == 0);
    }
}

/// A manifest is valid exactly when its schema is `prep/1`, every archive
/// dependency has an `https://` URL, and no two dependencies share a name.
pub proof fn law_manifest_validity(m: Manifest)
    ensures
        manifest_problem(m) is None <==> {
            &&& m.schema@ == MANIFEST_SCHEMA_V1@
            &&& forall|i: int|
                0 <= i < m.dependencies@.len() ==> declared_source_ok(
                    #[trigger] m.dependencies@[i].source,
                )
            &&& dependency_names(m.dependencies@).no_duplicates()
        },
{
    let deps = m.dependencies@;
    lemma_dependency_problem_none(deps, deps.len());
    assert(dependency_names(deps).take(deps.len() as int) =~= dependency_names(deps));
}

proof fn lemma_locked_package_problem_none(pkgs: Seq<LockedPackage>, n: nat)
    requires
        n <= pkgs.len(),
    ensures
        locked_package_problem(pkgs, n) is None <==> {
            &&& forall|i: int| 0 <= i < n ==> locked_source_ok(#[trigger] pkgs[i].source)
            &&& package_names(pkgs).take(n as int).no_duplicates()
            &&& forall|i: int|
                0 <= i < n ==> name_views(#[trigger] pkgs[i].dependencies@).no_duplicates()
        },
    decreases n,
{
    let names = package_names(pkgs);
    if n > 0 {
        lemma_locked_package_problem_none(pkgs, (n - 1) as nat);
        let t = names.take(n as int);
        let p = names.take(n - 1);
        let last = pkgs[n - 1];
        let deps = name_views(last.dependencies@);
        assert(t =~= p.push(names[n - 1]));
        assert(names[n - 1] == last.name@);
        lemma_no_repeat_iff_distinct(deps);
        if t.no_duplicates() {
            assert(p.no_duplicates()) by {
                assert forall|i: int, j: int| 0 <= i < p.len() && 0 <= j < p.len() && i != j implies p[i]
                    != p[j] by {
                    assert(p[i] == t[i] && p[j] == t[j]);
                }
            }
            if p.contains(names[n - 1]) {
                let m = choose|m: int| 0 <= m < p.len() && p[m] == names[n - 1];
                assert(t[m] == t[n - 1]);
            }
        }
        if locked_package_problem(pkgs, n) is None {
            assert(locked_source_problem(last.source) is None);
            assert(!p.contains(names[n - 1]));
            assert forall|i: int, j: int| 0 <= i < t.len() && 0 <= j < t.len() && i != j implies t[i]
                != t[j] by {
                if i < n - 1 && j < n - 1 {
                    assert(t[i] == p[i] && t[j] == p[j]);
                } else if i < n - 1 {
                    assert(t[i] == p[i]);
                } else {
                    assert(t[j] == p[j]);
                }
            }
        }
    } else {
        assert(names.take(0).len() == 0);
    }
}

/// A lockfile is valid exactly when its schema is `prep.lock/1`, every
/// archive package has an `https://` URL, no two packages share a name, no
/// package lists a dependency twice, and the root lists no dependency twice.
/// Whether dependencies name locked packages is not part of it.
pub proof fn law_lockfile_validity(l: Lockfile)
    ensures
        lock_problem(l) is None <==> {
            &&& l.schema@ == LOCK_SCHEMA_V1@
            &&& forall|i: int|
                0 <= i < l.packages@.len() ==> locked_source_ok(#[trigger] l.packages@[i].source)
            &&& package_names(l.packages@).no_duplicates()
            &&& forall|i: int|
                0 <= i < l.packages@.len() ==> name_views(
                    #[trigger] l.packages@[i].dependencies@,
                ).no_duplicates()
            &&& name_views(l.root.dependencies@).no_duplicates()
        },
{
    let pkgs = l.packages@;
    lemma_locked_package_problem_none(pkgs, pkgs.len());
    assert(package_names(pkgs).take(pkgs.len() as int) =~= package_names(pkgs));
    lemma_no_repeat_iff_distinct(name_views(l.root.dependencies@));
}

} // verus!
