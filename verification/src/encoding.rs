//! The labelled-field encoding that a result identity hashes is unambiguous:
//! different field lists never encode to the same bytes.
use crate::identity::{
    be_u64, field_bytes, fields_bytes, framed, identity_fields, lemma_fields_bytes_concat,
    BuildInput,
};
use crate::manifest::{canonical_identity_text, LockedSource};
use crate::text::lemma_encode_injective;
use vstd::prelude::*;
use vstd::utf8::*;

verus! {

/// Every label and value of `f` encodes to fewer than 2^64 bytes, as any text
/// held in memory does.
pub open spec fn lengths_fit(f: Seq<(Seq<char>, Seq<char>)>) -> bool {
    forall|i: int|
        0 <= i < f.len() ==> encode_utf8(#[trigger] f[i].0).len() < 0x10000000000000000
            && encode_utf8(f[i].1).len() < 0x10000000000000000
}

proof fn lemma_be_digits(a: u64, b: u64)
    by (bit_vector)
    requires
        a / 0x100000000000000 % 256 == b / 0x100000000000000 % 256,
        a / 0x1000000000000 % 256 == b / 0x1000000000000 % 256,
        a / 0x10000000000 % 256 == b / 0x10000000000 % 256,
        a / 0x100000000 % 256 == b / 0x100000000 % 256,
        a / 0x1000000 % 256 == b / 0x1000000 % 256,
        a / 0x10000 % 256 == b / 0x10000 % 256,
        a / 0x100 % 256 == b / 0x100 % 256,
        a % 256 == b % 256,
    ensures
        a == b,
{
}

/// Lengths below 2^64 have distinct big-endian encodings.
proof fn lemma_be_u64_injective(a: nat, b: nat)
    requires
        a < 0x10000000000000000,
        b < 0x10000000000000000,
        be_u64(a) == be_u64(b),
    ensures
        a == b,
{
    let x = a as u64;
    let y = b as u64;
    assert(be_u64(a)[0] == be_u64(b)[0]);
    assert(be_u64(a)[1] == be_u64(b)[1]);
    assert(be_u64(a)[2] == be_u64(b)[2]);
    assert(be_u64(a)[3] == be_u64(b)[3]);
    assert(be_u64(a)[4] == be_u64(b)[4]);
    assert(be_u64(a)[5] == be_u64(b)[5]);
    assert(be_u64(a)[6] == be_u64(b)[6]);
    assert(be_u64(a)[7] == be_u64(b)[7]);
    lemma_be_digits(x, y);
}

/// A framed byte string followed by anything can be split back apart.
proof fn lemma_framed_split(a: Seq<u8>, b: Seq<u8>, ra: Seq<u8>, rb: Seq<u8>)
    requires
        framed(a) + ra == framed(b) + rb,
        a.len() < 0x10000000000000000,
        b.len() < 0x10000000000000000,
    ensures
        a == b,
        ra == rb,
{
    let s = framed(a) + ra;
    let t = framed(b) + rb;
    assert(s.take(8) =~= be_u64(a.len()));
    assert(t.take(8) =~= be_u64(b.len()));
    lemma_be_u64_injective(a.len(), b.len());
    assert(s.subrange(8, 8 + a.len() as int) =~= a);
    assert(t.subrange(8, 8 + b.len() as int) =~= b);
    assert(s.skip(8 + a.len() as int) =~= ra);
    assert(t.skip(8 + b.len() as int) =~= rb);
}

proof fn lemma_fields_bytes_front(f: Seq<(Seq<char>, Seq<char>)>)
    requires
        f.len() > 0,
    ensures
        fields_bytes(f) == field_bytes(f[0].0, f[0].1) + fields_bytes(f.drop_first()),
{
    let head = seq![f[0]];
    let empty = Seq::<(Seq<char>, Seq<char>)>::empty();
    lemma_fields_bytes_concat(head, f.drop_first());
    assert(head + f.drop_first() =~= f);
    assert(head.drop_last() =~= empty);
    assert(head.last() == f[0]);
    assert(fields_bytes(empty) == Seq::<u8>::empty());
    let x = field_bytes(f[0].0, f[0].1);
    assert(fields_bytes(head) == fields_bytes(empty) + x);
    assert(Seq::<u8>::empty() + x =~= x);
}

proof fn lemma_fields_bytes_length(f: Seq<(Seq<char>, Seq<char>)>)
    ensures
        f.len() == 0 ==> fields_bytes(f) == Seq::<u8>::empty(),
        f.len() > 0 ==> fields_bytes(f).len() >= 8,
{
    if f.len() > 0 {
        lemma_fields_bytes_front(f);
    }
}

proof fn lemma_lengths_fit_tail(f: Seq<(Seq<char>, Seq<char>)>)
    requires
        f.len() > 0,
        lengths_fit(f),
    ensures
        lengths_fit(f.drop_first()),
        encode_utf8(f[0].0).len() < 0x10000000000000000,
        encode_utf8(f[0].1).len() < 0x10000000000000000,
{
    assert forall|i: int| 0 <= i < f.drop_first().len() implies encode_utf8(
        #[trigger] f.drop_first()[i].0,
    ).len() < 0x10000000000000000 && encode_utf8(f.drop_first()[i].1).len()
        < 0x10000000000000000 by {
        assert(f.drop_first()[i] == f[i + 1]);
        let x = f[i + 1].0;
        assert(encode_utf8(x).len() < 0x10000000000000000);
    }
    let y = f[0].0;
    assert(encode_utf8(y).len() < 0x10000000000000000);
}

proof fn lemma_first_fields_equal(f: Seq<(Seq<char>, Seq<char>)>, g: Seq<(Seq<char>, Seq<char>)>)
    requires
        f.len() > 0,
        g.len() > 0,
        fields_bytes(f) == fields_bytes(g),
        encode_utf8(f[0].0).len() < 0x10000000000000000,
        encode_utf8(f[0].1).len() < 0x10000000000000000,
        encode_utf8(g[0].0).len() < 0x10000000000000000,
        encode_utf8(g[0].1).len() < 0x10000000000000000,
    ensures
        f[0] == g[0],
        fields_bytes(f.drop_first()) == fields_bytes(g.drop_first()),
{
    lemma_fields_bytes_front(f);
    lemma_fields_bytes_front(g);
    let fl = encode_utf8(f[0].0);
    let fv = encode_utf8(f[0].1);
    let gl = encode_utf8(g[0].0);
    let gv = encode_utf8(g[0].1);
    let rf = fields_bytes(f.drop_first());
    let rg = fields_bytes(g.drop_first());
    assert(field_bytes(f[0].0, f[0].1) + rf =~= framed(fl) + (framed(fv) + rf));
    assert(field_bytes(g[0].0, g[0].1) + rg =~= framed(gl) + (framed(gv) + rg));
    lemma_framed_split(fl, gl, framed(fv) + rf, framed(gv) + rg);
    lemma_framed_split(fv, gv, rf, rg);
    lemma_encode_injective(f[0].0, g[0].0);
    lemma_encode_injective(f[0].1, g[0].1);
}

/// Different field lists whose texts fit in memory encode to different bytes.
pub proof fn lemma_fields_bytes_injective(f: Seq<(Seq<char>, Seq<char>)>, g: Seq<(Seq<char>, Seq<char>)>)
    requires
        fields_bytes(f) == fields_bytes(g),
        lengths_fit(f),
        lengths_fit(g),
    ensures
        f == g,
    decreases f.len(),
{
    lemma_fields_bytes_length(f);
    lemma_fields_bytes_length(g);
    if f.len() == 0 {
        assert(f =~= g);
    } else {
        lemma_lengths_fit_tail(f);
        lemma_lengths_fit_tail(g);
        lemma_first_fields_equal(f, g);
        lemma_fields_bytes_injective(f.drop_first(), g.drop_first());
        assert(f =~= seq![f[0]] + f.drop_first());
        assert(g =~= seq![g[0]] + g.drop_first());
    }
}

/// Materially different build inputs are hashed as different byte streams:
/// when two inputs differ in any field that their identity covers, the bytes
/// whose SHA-256 digest is the identity differ too, so their identities can
/// only coincide through a SHA-256 collision.
pub proof fn law_identity_encoding_is_unambiguous(b1: BuildInput, b2: BuildInput)
    requires
        identity_fields(b1) != identity_fields(b2),
        lengths_fit(identity_fields(b1)),
        lengths_fit(identity_fields(b2)),
    ensures
        fields_bytes(identity_fields(b1)) != fields_bytes(identity_fields(b2)),
{
    if fields_bytes(identity_fields(b1)) == fields_bytes(identity_fields(b2)) {
        lemma_fields_bytes_injective(identity_fields(b1), identity_fields(b2));
    }
}

/// The locked source is part of what a result identity hashes: two build
/// inputs that differ only in their source, where the sources' canonical
/// identities differ, hash different byte streams, so a build of another
/// source never reuses a result except through a SHA-256 collision.
pub proof fn law_source_changes_identity(b1: BuildInput, b2: BuildInput)
    requires
        b2 == (BuildInput { source: b2.source, ..b1 }),
        canonical_identity_text(b1.source) != canonical_identity_text(b2.source),
        lengths_fit(identity_fields(b1)),
        lengths_fit(identity_fields(b2)),
    ensures
        fields_bytes(identity_fields(b1)) != fields_bytes(identity_fields(b2)),
{
    assert(identity_fields(b1)[1] != identity_fields(b2)[1]);
    law_identity_encoding_is_unambiguous(b1, b2);
}

/// A different commit of the same Git repository gives a different hashed
/// byte stream, and so a different identity barring a SHA-256 collision.
pub proof fn law_git_commit_changes_identity(b1: BuildInput, b2: BuildInput)
    requires
        b2 == (BuildInput { source: b2.source, ..b1 }),
        b1.source matches LockedSource::Git { url: u1, commit: c1, .. },
        b2.source matches LockedSource::Git { url: u2, commit: c2, .. },
        b1.source->Git_url@ == b2.source->Git_url@,
        b1.source->Git_commit@ != b2.source->Git_commit@,
        lengths_fit(identity_fields(b1)),
        lengths_fit(identity_fields(b2)),
    ensures
        fields_bytes(identity_fields(b1)) != fields_bytes(identity_fields(b2)),
{
    let t1 = canonical_identity_text(b1.source);
    let t2 = canonical_identity_text(b2.source);
    let head = "git:"@ + b1.source->Git_url@ + "@"@;
    assert(t1 == head + b1.source->Git_commit@);
    assert(t2 == head + b2.source->Git_commit@);
    if t1 == t2 {
        assert(t1.skip(head.len() as int) =~= b1.source->Git_commit@);
        assert(t2.skip(head.len() as int) =~= b2.source->Git_commit@);
    }
    law_source_changes_identity(b1, b2);
}

} // verus!
