//! Exactly which build inputs get no result identity.
use crate::identity::{
    dependency_packages, entry_scan, identity_outcome, scalar_problem, sorted_dependencies,
    sorted_tools, tool_problem, tool_roles, tool_scan, BuildInput, DependencyResult, IdentityError,
    ResultId, ToolIdentity,
};
use crate::text::{first_repeat, lemma_sorted_indices_permutation, lemma_stable_sorted_members, sorted_indices, stable_sorted};
use crate::validity::lemma_no_repeat_iff_distinct;
use vstd::prelude::*;

verus! {

/// Sorting keeps distinct keys distinct and repeated keys repeated.
proof fn lemma_sorted_distinct<T>(s: Seq<T>, keys: Seq<Seq<char>>, f: spec_fn(T) -> Seq<char>)
    requires
        keys.len() == s.len(),
    ensures
        stable_sorted(s, keys).map_values(f).no_duplicates() <==> s.map_values(f).no_duplicates(),
{
    let n = s.len();
    let idx = sorted_indices(keys, n);
    let st = stable_sorted(s, keys);
    lemma_stable_sorted_members(s, keys);
    lemma_sorted_indices_permutation(keys, n);
    let a = st.map_values(f);
    let b = s.map_values(f);
    if b.no_duplicates() {
        assert forall|x: int, y: int| 0 <= x < a.len() && 0 <= y < a.len() && x != y implies a[x]
            != a[y] by {
            assert(a[x] == b[idx[x]] && a[y] == b[idx[y]]);
        }
    }
    if a.no_duplicates() {
        assert forall|x: int, y: int| 0 <= x < b.len() && 0 <= y < b.len() && x != y implies b[x]
            != b[y] by {
            assert(idx.contains(x) && idx.contains(y));
            let p = choose|p: int| 0 <= p < idx.len() && idx[p] == x;
            let q = choose|q: int| 0 <= q < idx.len() && idx[q] == y;
            assert(a[p] == b[x] && a[q] == b[y]);
        }
    }
}

/// Sorting keeps every element, so a property of all elements survives it.
proof fn lemma_sorted_all<T>(s: Seq<T>, keys: Seq<Seq<char>>, p: spec_fn(T) -> bool)
    requires
        keys.len() == s.len(),
    ensures
        (forall|k: int| 0 <= k < s.len() ==> p(#[trigger] stable_sorted(s, keys)[k])) <==> (forall|j: int|
            0 <= j < s.len() ==> p(#[trigger] s[j])),
{
    let idx = sorted_indices(keys, s.len());
    let st = stable_sorted(s, keys);
    lemma_stable_sorted_members(s, keys);
    if forall|k: int| 0 <= k < s.len() ==> p(#[trigger] st[k]) {
        assert forall|j: int| 0 <= j < s.len() implies p(#[trigger] s[j]) by {
            assert(idx.contains(j));
            let k = choose|k: int| 0 <= k < idx.len() && idx[k] == j;
            assert(st[k] == s[j]);
        }
    }
    if forall|j: int| 0 <= j < s.len() ==> p(#[trigger] s[j]) {
        assert forall|k: int| 0 <= k < s.len() implies p(#[trigger] st[k]) by {
            assert(st[k] == s[idx[k]]);
        }
    }
}

proof fn lemma_tool_scan_none(tools: Seq<ToolIdentity>, n: nat)
    requires
        n <= tools.len(),
    ensures
        tool_scan(tools, n) is None <==> {
            &&& forall|i: int| 0 <= i < n ==> tool_problem(#[trigger] tools[i]) is None
            &&& tool_roles(tools.take(n as int)).no_duplicates()
        },
    decreases n,
{
    if n > 0 {
        lemma_tool_scan_none(tools, (n - 1) as nat);
        let t = tool_roles(tools.take(n as int));
        let p = tool_roles(tools.take(n - 1));
        assert(tools.take(n - 1).map_values(|u: ToolIdentity| u.role@) =~= p);
        assert(t =~= p.push(tools[n - 1].role@));
        if t.no_duplicates() {
            assert(p.no_duplicates()) by {
                assert forall|i: int, j: int| 0 <= i < p.len() && 0 <= j < p.len() && i != j implies p[i]
                    != p[j] by {
                    assert(p[i] == t[i] && p[j] == t[j]);
                }
            }
            if p.contains(tools[n - 1].role@) {
                let m = choose|m: int| 0 <= m < p.len() && p[m] == tools[n - 1].role@;
                assert(t[m] == t[n - 1]);
            }
        }
        if tool_scan(tools, n) is None {
            assert forall|i: int, j: int| 0 <= i < t.len() && 0 <= j < t.len() && i != j implies t[i]
                != t[j] by {
                if i < n - 1 && j < n - 1 {
                    assert(t[i] == p[i] && t[j] == p[j]);
                } else if i < n - 1 {
                    assert(t[i] == p[i]);
                } else {
                    assert(t[j] == p[j]);
                }
            }
        }
    } else {
        assert(tool_roles(tools.take(0)).len() == 0);
    }
}

/// An entry with an empty, oversized or NUL-holding key or value.
pub open spec fn entry_refused(x: (Seq<char>, Seq<char>)) -> bool {
    scalar_problem("build input key"@, x.0) is Some || scalar_problem("build input value"@, x.1) is Some
}

proof fn lemma_entry_scan_none(e: Seq<(Seq<char>, Seq<char>)>, n: nat)
    requires
        n <= e.len(),
    ensures
        entry_scan(e, n) is None <==> forall|i: int| 0 <= i < n ==> !entry_refused(#[trigger] e[i]),
    decreases n,
{
    if n > 0 {
        lemma_entry_scan_none(e, (n - 1) as nat);
    }
}

/// A build input gets no identity exactly when its source is a local path,
/// its target, toolchain or plugin protocol is empty, over 16 KiB or holds
/// NUL, two dependency results are for the same package, a build tool is
/// invalid, two build tools have the same role, or a configuration or
/// environment entry is invalid.
pub proof fn law_identity_refusals(b: BuildInput, r: Result<ResultId, IdentityError>)
    requires
        identity_outcome(b, r),
    ensures
        r is Err <==> {
            ||| b.source is Path
            ||| scalar_problem("target"@, b.target@) is Some
            ||| tool_problem(b.toolchain) is Some
            ||| scalar_problem("plugin protocol"@, b.plugin.protocol@) is Some
            ||| !dependency_packages(b.dependencies@).no_duplicates()
            ||| exists|i: int|
                0 <= i < b.build_tools@.len() && tool_problem(#[trigger] b.build_tools@[i]) is Some
            ||| !tool_roles(b.build_tools@).no_duplicates()
            ||| exists|i: int|
                0 <= i < (b.configuration@ + b.environment@).len() && entry_refused(
                    #[trigger] (b.configuration@ + b.environment@)[i],
                )
        },
{
    let deps = b.dependencies@;
    let dkey = |d: DependencyResult| d.package@;
    let sd = sorted_dependencies(b);
    let dep_names = sd.map_values(dkey);
    lemma_no_repeat_iff_distinct(dep_names);
    lemma_sorted_distinct(deps, deps.map_values(dkey), dkey);
    assert(dependency_packages(deps) =~= deps.map_values(dkey));
    let tools = b.build_tools@;
    let tkey = |t: ToolIdentity| t.role@;
    let st = sorted_tools(b);
    lemma_stable_sorted_members(tools, tools.map_values(tkey));
    lemma_tool_scan_none(st, st.len());
    assert(st.take(st.len() as int) =~= st);
    lemma_sorted_distinct(tools, tools.map_values(tkey), tkey);
    assert(tool_roles(st) =~= st.map_values(tkey));
    assert(tool_roles(tools) =~= tools.map_values(tkey));
    let ok = |t: ToolIdentity| tool_problem(t) is None;
    lemma_sorted_all(tools, tools.map_values(tkey), ok);
    let entries = b.configuration@ + b.environment@;
    lemma_entry_scan_none(entries, entries.len());
}

} // verus!
