//! Every input a result identity covers changes what it hashes.
use crate::encoding::{law_identity_encoding_is_unambiguous, lengths_fit};
use crate::identity::{
    build_tool_fields, dependency_fields, entry_fields, fields_bytes, header_fields,
    identity_fields, map_fields, plugin_fields, sorted_dependencies, sorted_tools, BuildInput,
};
use crate::manifest::canonical_identity_text;
use crate::text::decimal;
use vstd::prelude::*;

verus! {

proof fn lemma_entry_fields_shape(prefix: Seq<char>, e: Seq<(Seq<char>, Seq<char>)>)
    ensures
        entry_fields(prefix, e).len() == 2 * e.len(),
        forall|k: int|
            0 <= k < e.len() ==> entry_fields(prefix, e)[2 * k] == (prefix + ".key"@, (#[trigger] e[k]).0)
                && entry_fields(prefix, e)[2 * k + 1] == (prefix + ".value"@, e[k].1),
    decreases e.len(),
{
    if e.len() > 0 {
        let d = e.drop_last();
        lemma_entry_fields_shape(prefix, d);
        assert forall|k: int| 0 <= k < e.len() implies entry_fields(prefix, e)[2 * k] == (prefix
            + ".key"@, (#[trigger] e[k]).0) && entry_fields(prefix, e)[2 * k + 1] == (prefix
            + ".value"@, e[k].1) by {
            if k < d.len() {
                assert(d[k] == e[k]);
            }
        }
    }
}

/// Equal map fields come from equal maps, and the fields of a map followed by
/// anything tell where the map's fields end.
proof fn lemma_map_fields_split(
    a1: Seq<(Seq<char>, Seq<char>)>,
    a2: Seq<(Seq<char>, Seq<char>)>,
    r1: Seq<(Seq<char>, Seq<char>)>,
    r2: Seq<(Seq<char>, Seq<char>)>,
    prefix: Seq<char>,
)
    requires
        map_fields(prefix, a1) + r1 == map_fields(prefix, a2) + r2,
        r1.len() > 0 ==> r1[0].0 == "environment.count"@,
        r2.len() > 0 ==> r2[0].0 == "environment.count"@,
        prefix == "configuration"@ || (r1.len() == 0 && r2.len() == 0),
    ensures
        a1 == a2,
        r1 == r2,
{
    reveal_strlit("configuration");
    reveal_strlit("environment.count");
    reveal_strlit(".key");
    reveal_strlit(".value");
    lemma_entry_fields_shape(prefix, a1);
    lemma_entry_fields_shape(prefix, a2);
    let m1 = map_fields(prefix, a1);
    let m2 = map_fields(prefix, a2);
    let s1 = m1 + r1;
    let s2 = m2 + r2;
    if a1.len() < a2.len() {
        let p = m1.len() as int;
        if r1.len() > 0 {
            assert(s1[p] == r1[0]);
            let k = (p - 1) / 2;
            assert(s2[p] == m2[p]);
            assert(m2[p] == entry_fields(prefix, a2)[p - 1]);
            assert(entry_fields(prefix, a2)[2 * k] == (prefix + ".key"@, a2[k].0));
            assert(s2[p].0 == prefix + ".key"@);
            assert((prefix + ".key"@)[0] != "environment.count"@[0]);
        } else {
            assert(s1.len() < s2.len());
        }
    } else if a2.len() < a1.len() {
        let p = m2.len() as int;
        if r2.len() > 0 {
            assert(s2[p] == r2[0]);
            let k = (p - 1) / 2;
            assert(s1[p] == m1[p]);
            assert(m1[p] == entry_fields(prefix, a1)[p - 1]);
            assert(entry_fields(prefix, a1)[2 * k] == (prefix + ".key"@, a1[k].0));
            assert(s1[p].0 == prefix + ".key"@);
            assert((prefix + ".key"@)[0] != "environment.count"@[0]);
        } else {
            assert(s2.len() < s1.len());
        }
    } else {
        assert(m1 =~= s1.take(m1.len() as int));
        assert(m2 =~= s2.take(m2.len() as int));
        assert(r1 =~= s1.skip(m1.len() as int));
        assert(r2 =~= s2.skip(m2.len() as int));
        assert forall|k: int| 0 <= k < a1.len() implies a1[k] == a2[k] by {
            assert(m1[2 * k + 1] == entry_fields(prefix, a1)[2 * k]);
            assert(m1[2 * k + 2] == entry_fields(prefix, a1)[2 * k + 1]);
            assert(m2[2 * k + 1] == entry_fields(prefix, a2)[2 * k]);
            assert(m2[2 * k + 2] == entry_fields(prefix, a2)[2 * k + 1]);
        }
        assert(a1 =~= a2);
    }
}

/// Two build inputs differ in the canonical identity of their source, their
/// target, their toolchain, their plugin, their configuration or their
/// environment.
pub open spec fn covered_inputs_differ(b1: BuildInput, b2: BuildInput) -> bool {
    ||| canonical_identity_text(b1.source) != canonical_identity_text(b2.source)
    ||| b1.target@ != b2.target@
    ||| b1.toolchain.role@ != b2.toolchain.role@
    ||| b1.toolchain.executable@ != b2.toolchain.executable@
    ||| b1.toolchain.version@ != b2.toolchain.version@
    ||| b1.plugin.name@ != b2.plugin.name@
    ||| b1.plugin.version@ != b2.plugin.version@
    ||| b1.plugin.content_digest@ != b2.plugin.content_digest@
    ||| b1.plugin.protocol@ != b2.plugin.protocol@
    ||| b1.configuration@ != b2.configuration@
    ||| b1.environment@ != b2.environment@
}

/// A result identity covers its inputs: two build inputs with the same
/// dependency results and build tools, differing in the canonical identity
/// of their source, their target, their toolchain, their plugin, their
/// configuration or their environment, hash different byte streams, so they
/// share a result only through a SHA-256 collision.
pub proof fn law_identity_covers_every_input(b1: BuildInput, b2: BuildInput)
    requires
        b1.dependencies == b2.dependencies,
        b1.build_tools == b2.build_tools,
        lengths_fit(identity_fields(b1)),
        lengths_fit(identity_fields(b2)),
        covered_inputs_differ(b1, b2),
    ensures
        fields_bytes(identity_fields(b1)) != fields_bytes(identity_fields(b2)),
{
    let f1 = identity_fields(b1);
    let f2 = identity_fields(b2);
    if f1 == f2 {
        let deps = sorted_dependencies(b1);
        let tools = sorted_tools(b1);
        assert(sorted_dependencies(b2) == deps);
        assert(sorted_tools(b2) == tools);
        let mid = seq![("dependency.count"@, decimal(deps.len()))] + dependency_fields(deps) + seq![
            ("build_tool.count"@, decimal(tools.len())),
        ] + build_tool_fields(tools);
        let h1 = header_fields(b1);
        let h2 = header_fields(b2);
        let p1 = plugin_fields(b1);
        let p2 = plugin_fields(b2);
        let c1 = map_fields("configuration"@, b1.configuration@);
        let c2 = map_fields("configuration"@, b2.configuration@);
        let e1 = map_fields("environment"@, b1.environment@);
        let e2 = map_fields("environment"@, b2.environment@);
        assert(f1 =~= h1 + mid + p1 + (c1 + e1));
        assert(f2 =~= h2 + mid + p2 + (c2 + e2));
        let n: int = (h1.len() + mid.len()) as int;
        assert(h1.len() == 6 && h2.len() == 6);
        assert forall|k: int| 0 <= k < 6 implies h1[k] == h2[k] by {
            assert(f1[k] == h1[k] && f2[k] == h2[k]);
        }
        assert(h1[1] == h2[1] && h1[2] == h2[2] && h1[3] == h2[3] && h1[4] == h2[4] && h1[5] == h2[5]);
        assert forall|k: int| 0 <= k < 4 implies p1[k] == p2[k] by {
            assert(f1[n + k] == p1[k] && f2[n + k] == p2[k]);
        }
        assert(p1[2] == p2[2]);
        assert(("sha256:"@ + b1.plugin.content_digest@).skip(7) =~= b1.plugin.content_digest@) by {
            reveal_strlit("sha256:");
        }
        assert(("sha256:"@ + b2.plugin.content_digest@).skip(7) =~= b2.plugin.content_digest@) by {
            reveal_strlit("sha256:");
        }
        let rest1 = f1.skip(n + 4);
        let rest2 = f2.skip(n + 4);
        assert(rest1 =~= c1 + e1);
        assert(rest2 =~= c2 + e2);
        lemma_entry_fields_shape("environment"@, b1.environment@);
        lemma_entry_fields_shape("environment"@, b2.environment@);
        assert(e1[0].0 == "environment"@ + ".count"@);
        assert(e2[0].0 == "environment"@ + ".count"@);
        assert("environment"@ + ".count"@ =~= "environment.count"@) by {
            reveal_strlit("environment");
            reveal_strlit(".count");
            reveal_strlit("environment.count");
        }
        lemma_map_fields_split(b1.configuration@, b2.configuration@, e1, e2, "configuration"@);
        lemma_map_fields_split(b1.environment@, b2.environment@, Seq::empty(), Seq::empty(), "environment"@);
        assert(e1 + Seq::<(Seq<char>, Seq<char>)>::empty() =~= e1);
        assert(e2 + Seq::<(Seq<char>, Seq<char>)>::empty() =~= e2);
    }
    law_identity_encoding_is_unambiguous(b1, b2);
}

} // verus!
