//! Exactly when a lockfile resolves a manifest.
use crate::manifest::{
    dependency_mismatch, dependency_names, least_mismatch, lock_against_problem, lock_problem,
    manifest_problem, name_views, package_names, reference_view, same_names, source_matches,
    DependencyDeclaration, LockedSource, Lockfile, Manifest, SourceDeclaration,
};
use crate::text::{first_index, lemma_first_index};
use crate::validity::law_lockfile_validity;
use vstd::prelude::*;

verus! {

/// The lockfile locks `d` as declared: a package of the same name and
/// version whose source is what `d` declares.
pub open spec fn locked_as_declared(l: Lockfile, d: DependencyDeclaration) -> bool {
    exists|k: int|
        0 <= k < l.packages@.len() && #[trigger] l.packages@[k].name@ == d.name@
            && l.packages@[k].version@ == d.version@ && source_matches(d.source, l.packages@[k].source)
}

proof fn lemma_least_mismatch_none(l: Lockfile, deps: Seq<DependencyDeclaration>, n: nat)
    requires
        n <= deps.len(),
    ensures
        least_mismatch(l, deps, n) is None <==> forall|i: int|
            0 <= i < n ==> dependency_mismatch(l, #[trigger] deps[i]) is None,
    decreases n,
{
    if n > 0 {
        lemma_least_mismatch_none(l, deps, (n - 1) as nat);
        let prev = least_mismatch(l, deps, (n - 1) as nat);
        let bad = dependency_mismatch(l, deps[n - 1]) is Some;
        assert(least_mismatch(l, deps, n) is None <==> (prev is None && !bad));
        if prev is None && !bad {
            assert forall|i: int| 0 <= i < n implies dependency_mismatch(l, #[trigger] deps[i]) is None by {
                if i < n - 1 {
                } else {
                    assert(i == n - 1);
                }
            }
        }
    }
}

proof fn lemma_dependency_mismatch_none(l: Lockfile, d: DependencyDeclaration)
    requires
        package_names(l.packages@).no_duplicates(),
    ensures
        dependency_mismatch(l, d) is None <==> locked_as_declared(l, d),
{
    let pkgs = l.packages@;
    let names = package_names(pkgs);
    if names.contains(d.name@) {
        let i = choose|i: int| 0 <= i < names.len() && names[i] == d.name@;
        assert forall|j: int| 0 <= j < i implies names[j] != d.name@ by {
            assert(names[j] != names[i]);
        }
        lemma_first_index(names, d.name@, i);
        assert(first_index(names, d.name@) == Some(i));
        if locked_as_declared(l, d) {
            let k = choose|k: int|
                0 <= k < pkgs.len() && #[trigger] pkgs[k].name@ == d.name@ && pkgs[k].version@
                    == d.version@ && source_matches(d.source, pkgs[k].source);
            assert(names[k] == names[i]);
        }
        if dependency_mismatch(l, d) is None {
            assert(pkgs[i].name@ == d.name@);
        }
    } else {
        if locked_as_declared(l, d) {
            let k = choose|k: int|
                0 <= k < pkgs.len() && #[trigger] pkgs[k].name@ == d.name@ && pkgs[k].version@
                    == d.version@ && source_matches(d.source, pkgs[k].source);
            assert(names[k] == d.name@);
        }
    }
}

/// A lockfile resolves a manifest exactly when both are valid, the lock's root
/// has the manifest package's name and version, the root's dependencies and
/// the manifest's dependencies name the same packages, and each declared
/// dependency is locked with the same version and a source matching the
/// declaration (same kind; same URL and requested reference for Git; same URL
/// and, if declared, the same digest for archives; same path for paths).
pub proof fn law_lock_matches_manifest(l: Lockfile, m: Manifest)
    ensures
        lock_against_problem(l, m) is None <==> {
            &&& lock_problem(l) is None
            &&& manifest_problem(m) is None
            &&& l.root.name@ == m.package.name@
            &&& l.root.version@ == m.package.version@
            &&& same_names(name_views(l.root.dependencies@), dependency_names(m.dependencies@))
            &&& forall|i: int|
                0 <= i < m.dependencies@.len() ==> locked_as_declared(l, #[trigger] m.dependencies@[i])
        },
{
    let deps = m.dependencies@;
    if lock_problem(l) is None {
        law_lockfile_validity(l);
        lemma_least_mismatch_none(l, deps, deps.len());
        assert forall|i: int| 0 <= i < deps.len() implies (dependency_mismatch(l, #[trigger] deps[i])
            is None <==> locked_as_declared(l, deps[i])) by {
            lemma_dependency_mismatch_none(l, deps[i]);
        }
        match least_mismatch(l, deps, deps.len()) {
            Some(k) => {
                assert(0 <= k < deps.len() && dependency_mismatch(l, deps[k]) is Some) by {
                    lemma_least_mismatch_index(l, deps, deps.len());
                }
            },
            None => {},
        }
    }
}

proof fn lemma_least_mismatch_index(l: Lockfile, deps: Seq<DependencyDeclaration>, n: nat)
    requires
        n <= deps.len(),
    ensures
        least_mismatch(l, deps, n) matches Some(k) ==> 0 <= k < n && dependency_mismatch(l, deps[k])
            is Some,
    decreases n,
{
    if n > 0 {
        lemma_least_mismatch_index(l, deps, (n - 1) as nat);
    }
}

/// A lockfile that resolves a manifest locks every declared dependency, under
/// its name and version, from the place the manifest declares: a Git
/// dependency from a Git source with the same URL and requested reference, an
/// archive from an archive with the same URL (and the declared digest, if one
/// is declared), a path from the same path.
pub proof fn law_locked_sources_follow_declarations(l: Lockfile, m: Manifest)
    requires
        lock_against_problem(l, m) is None,
    ensures
        forall|i: int|
            0 <= i < m.dependencies@.len() ==> exists|k: int|
                0 <= k < l.packages@.len() && #[trigger] l.packages@[k].name@
                    == (#[trigger] m.dependencies@[i]).name@ && l.packages@[k].version@
                    == m.dependencies@[i].version@ && match m.dependencies@[i].source {
                    SourceDeclaration::Git { url, reference } => l.packages@[k].source matches LockedSource::Git {
                        url: lu,
                        requested_ref,
                        ..
                    } && lu@ == url@ && reference_view(requested_ref) == reference_view(reference),
                    SourceDeclaration::Archive { url, sha256 } => l.packages@[k].source matches LockedSource::Archive {
                        url: lu,
                        sha256: digest,
                        ..
                    } && lu@ == url@ && (sha256 matches Some(d) ==> d@ == digest@),
                    SourceDeclaration::Path { path } => l.packages@[k].source matches LockedSource::Path {
                        path: lp,
                    } && lp@ == path@,
                },
{
    law_lock_matches_manifest(l, m);
    let deps = m.dependencies@;
    let pkgs = l.packages@;
    assert forall|i: int| 0 <= i < deps.len() implies exists|k: int|
        0 <= k < pkgs.len() && #[trigger] pkgs[k].name@ == (#[trigger] deps[i]).name@
            && pkgs[k].version@ == deps[i].version@ && match deps[i].source {
            SourceDeclaration::Git { url, reference } => pkgs[k].source matches LockedSource::Git {
                url: lu,
                requested_ref,
                ..
            } && lu@ == url@ && reference_view(requested_ref) == reference_view(reference),
            SourceDeclaration::Archive { url, sha256 } => pkgs[k].source matches LockedSource::Archive {
                url: lu,
                sha256: digest,
                ..
            } && lu@ == url@ && (sha256 matches Some(d) ==> d@ == digest@),
            SourceDeclaration::Path { path } => pkgs[k].source matches LockedSource::Path {
                path: lp,
            } && lp@ == path@,
        } by {
        assert(locked_as_declared(l, deps[i]));
        let k = choose|k: int|
            0 <= k < pkgs.len() && #[trigger] pkgs[k].name@ == deps[i].name@ && pkgs[k].version@
                == deps[i].version@ && source_matches(deps[i].source, pkgs[k].source);
        assert(pkgs[k].name@ == deps[i].name@);
    }
}

/// A lock whose package for a declared Git dependency is fetched from a
/// different Git URL does not resolve the manifest, whatever else matches.
pub proof fn law_git_url_mismatch_is_refused(l: Lockfile, m: Manifest, i: int, k: int)
    requires
        0 <= i < m.dependencies@.len(),
        0 <= k < l.packages@.len(),
        l.packages@[k].name@ == m.dependencies@[i].name@,
        m.dependencies@[i].source matches SourceDeclaration::Git { url, .. },
        l.packages@[k].source matches LockedSource::Git { url: lu, .. },
        m.dependencies@[i].source->Git_url@ != l.packages@[k].source->Git_url@,
    ensures
        lock_against_problem(l, m) is Some,
{
    if lock_against_problem(l, m) is None {
        law_lock_matches_manifest(l, m);
        law_lockfile_validity(l);
        let d = m.dependencies@[i];
        let pkgs = l.packages@;
        assert(locked_as_declared(l, d));
        let j = choose|j: int|
            0 <= j < pkgs.len() && #[trigger] pkgs[j].name@ == d.name@ && pkgs[j].version@
                == d.version@ && source_matches(d.source, pkgs[j].source);
        let names = package_names(pkgs);
        assert(names[j] == names[k]);
        assert(j == k);
    }
}

} // verus!
