//! Which results provide each file of an activation: the files found under
//! each result's prefix, grouped by relative path in path order, each path
//! with the results that provide it in the order the results were given.
use crate::store::{
    join_path, bin_entries, collision_view, collisions_of, first_refused, id_views, pkg_config_entries,
    repeats_earlier, texts, ActivationCollision, ActivationPlan, PrefixLayout, PublishedResult,
    StoreError, StoreResultId,
};
use crate::text::{
    bytes_lt, compare_bytes, lemma_bytes_lt_asymmetric, lemma_bytes_lt_irreflexive,
    lemma_bytes_lt_transitive, lemma_encode_injective, TextOrder,
};
use vstd::prelude::*;
use vstd::utf8::*;

verus! {

/// The sort key of a path's bytes: each byte becomes two, a marker that puts
/// `/` before every other byte, then the byte itself.
pub open spec fn key_bytes(b: Seq<u8>) -> Seq<u8>
    decreases b.len(),
{
    if b.len() == 0 {
        Seq::empty()
    } else {
        key_bytes(b.drop_last()) + seq![if b.last() == 47 { 0u8 } else { 1u8 }, b.last()]
    }
}

/// The sort key of a relative path: paths compare component by component,
/// as `Path` compares them, because `/` sorts before every other byte.
pub open spec fn path_key(p: Seq<char>) -> Seq<u8> {
    key_bytes(encode_utf8(p))
}

/// `a` comes before `b` in path order.
pub open spec fn path_before(a: Seq<char>, b: Seq<char>) -> bool {
    bytes_lt(path_key(a), path_key(b))
}

/// The (path, result) pairs the first `n` results provide, in order.
pub open spec fn provided(results: Seq<PublishedResult>, files: Seq<Vec<String>>, n: nat) -> Seq<
    (Seq<char>, Seq<char>),
>
    decreases n,
{
    if n == 0 {
        Seq::empty()
    } else {
        provided(results, files, (n - 1) as nat) + files[n - 1]@.map_values(
            |p: String| (p@, results[n - 1]@.0),
        )
    }
}

/// The results that provide `p` among `pairs`, in order, once per pair.
pub open spec fn owners(pairs: Seq<(Seq<char>, Seq<char>)>, p: Seq<char>) -> Seq<Seq<char>>
    decreases pairs.len(),
{
    if pairs.len() == 0 {
        Seq::empty()
    } else if pairs.last().0 == p {
        owners(pairs.drop_last(), p).push(pairs.last().1)
    } else {
        owners(pairs.drop_last(), p)
    }
}

/// Whether some pair provides `p`.
pub open spec fn is_provided(pairs: Seq<(Seq<char>, Seq<char>)>, p: Seq<char>) -> bool {
    exists|k: int| 0 <= k < pairs.len() && (#[trigger] pairs[k]).0 == p
}

proof fn lemma_key_bytes(b: Seq<u8>)
    ensures
        key_bytes(b).len() == 2 * b.len(),
        forall|i: int| 0 <= i < b.len() ==> #[trigger] key_bytes(b)[2 * i + 1] == b[i],
    decreases b.len(),
{
    if b.len() > 0 {
        let d = b.drop_last();
        lemma_key_bytes(d);
        assert forall|i: int| 0 <= i < b.len() implies #[trigger] key_bytes(b)[2 * i + 1] == b[i] by {
            if i < d.len() {
                assert(key_bytes(b)[2 * i + 1] == key_bytes(d)[2 * i + 1]);
            }
        }
    }
}

/// Distinct paths have distinct keys.
proof fn lemma_path_key_injective(a: Seq<char>, b: Seq<char>)
    requires
        path_key(a) == path_key(b),
    ensures
        a == b,
{
    let x = encode_utf8(a);
    let y = encode_utf8(b);
    lemma_key_bytes(x);
    lemma_key_bytes(y);
    assert forall|i: int| 0 <= i < x.len() implies x[i] == y[i] by {
        assert(key_bytes(x)[2 * i + 1] == x[i]);
        assert(key_bytes(y)[2 * i + 1] == y[i]);
    }
    assert(x =~= y);
    lemma_encode_injective(a, b);
}

fn path_key_of(p: &str) -> (r: Vec<u8>)
    ensures
        r@ == path_key(p@),
{
    let bytes = p.as_bytes();
    let mut r: Vec<u8> = Vec::new();
    let mut i: usize = 0;
    while i < bytes.len()
        invariant
            i <= bytes@.len(),
            bytes@ == encode_utf8(p@),
            r@ == key_bytes(bytes@.take(i as int)),
        decreases bytes@.len() - i,
    {
        let b = bytes[i];
        r.push(if b == 47 { 0u8 } else { 1u8 });
        r.push(b);
        assert(bytes@.take(i + 1).drop_last() =~= bytes@.take(i as int));
        i = i + 1;
    }
    assert(bytes@.take(bytes@.len() as int) =~= bytes@);
    r
}

proof fn lemma_owners_push(pairs: Seq<(Seq<char>, Seq<char>)>, x: (Seq<char>, Seq<char>), p: Seq<char>)
    ensures
        owners(pairs.push(x), p) == if x.0 == p {
            owners(pairs, p).push(x.1)
        } else {
            owners(pairs, p)
        },
{
    assert(pairs.push(x).drop_last() =~= pairs);
}

/// The pairs seen after `j` files of result `i`.
spec fn seen(results: Seq<PublishedResult>, files: Seq<Vec<String>>, i: nat, j: int) -> Seq<
    (Seq<char>, Seq<char>),
> {
    provided(results, files, i) + files[i as int]@.take(j).map_values(
        |p: String| (p@, results[i as int]@.0),
    )
}

proof fn lemma_seen_step(results: Seq<PublishedResult>, files: Seq<Vec<String>>, i: nat, j: int)
    requires
        i < files.len(),
        0 <= j < files[i as int]@.len(),
    ensures
        seen(results, files, i, j + 1) == seen(results, files, i, j).push(
            (files[i as int]@[j]@, results[i as int]@.0),
        ),
{
    let f = |p: String| (p@, results[i as int]@.0);
    assert(files[i as int]@.take(j + 1).map_values(f) =~= files[i as int]@.take(j).map_values(f).push(
        f(files[i as int]@[j]),
    ));
}

proof fn lemma_seen_next(results: Seq<PublishedResult>, files: Seq<Vec<String>>, i: nat)
    requires
        i < files.len(),
    ensures
        seen(results, files, i, files[i as int]@.len() as int) == provided(results, files, i + 1),
        seen(results, files, (i + 1) as nat, 0) == provided(results, files, i + 1),
{
    assert(files[i as int]@.take(files[i as int]@.len() as int) =~= files[i as int]@);
    let n = (i + 1) as int;
    assert(files[n]@.take(0).map_values(|p: String| (p@, results[n]@.0)) =~= Seq::<
        (Seq<char>, Seq<char>),
    >::empty());
    assert(seen(results, files, (i + 1) as nat, 0) =~= provided(results, files, i + 1));
}

/// Whether some path of `paths` is `x`.
pub open spec fn lists_path(paths: Seq<String>, x: Seq<char>) -> bool {
    exists|m: int| 0 <= m < paths.len() && #[trigger] paths[m]@ == x
}

/// Whether some entry of `leaves` is for path `x`.
pub open spec fn lists_leaf(leaves: Seq<(String, Vec<StoreResultId>)>, x: Seq<char>) -> bool {
    exists|m: int| 0 <= m < leaves.len() && #[trigger] leaves[m].0@ == x
}

/// Paths strictly in path order, each with its key.
spec fn sorted_paths(paths: Seq<String>, keys: Seq<Vec<u8>>) -> bool {
    &&& paths.len() == keys.len()
    &&& forall|m: int| 0 <= m < keys.len() ==> #[trigger] keys[m]@ == path_key(paths[m]@)
    &&& forall|a: int, b: int| 0 <= a < b < keys.len() ==> bytes_lt(#[trigger] keys[a]@, #[trigger] keys[b]@)
}

/// Adds `p` to the sorted paths unless it is already there.
fn insert_path(paths: &mut Vec<String>, keys: &mut Vec<Vec<u8>>, p: &String)
    requires
        sorted_paths(old(paths)@, old(keys)@),
    ensures
        sorted_paths(final(paths)@, final(keys)@),
        forall|x: Seq<char>|
            #[trigger] lists_path(final(paths)@, x) <==> (x == p@ || lists_path(old(paths)@, x)),
{
    let k = path_key_of(p.as_str());
    let mut pos: usize = 0;
    while pos < keys.len() && compare_bytes(keys[pos].as_slice(), k.as_slice()) == TextOrder::Less
        invariant
            pos <= keys@.len(),
            sorted_paths(paths@, keys@),
            k@ == path_key(p@),
            forall|a: int| 0 <= a < pos ==> bytes_lt(#[trigger] keys@[a]@, k@),
        decreases keys@.len() - pos,
    {
        pos = pos + 1;
    }
    if pos < keys.len() && compare_bytes(keys[pos].as_slice(), k.as_slice()) == TextOrder::Equal {
        proof {
            lemma_path_key_injective(paths@[pos as int]@, p@);
        }
        return;
    }
    let ghost before_paths = paths@;
    let ghost before_keys = keys@;
    proof {
        if pos < keys@.len() {
            assert(bytes_lt(k@, keys@[pos as int]@)) by {
                crate::text::lemma_bytes_lt_total(keys@[pos as int]@, k@);
            }
        }
    }
    keys.insert(pos, k);
    paths.insert(pos, p.clone());
    proof {
        let nk = keys@;
        assert forall|m: int| 0 <= m < nk.len() implies #[trigger] nk[m]@ == path_key(paths@[m]@) by {
            if m < pos {
                assert(nk[m] == before_keys[m] && paths@[m] == before_paths[m]);
            } else if m > pos {
                assert(nk[m] == before_keys[m - 1] && paths@[m] == before_paths[m - 1]);
            }
        }
        assert forall|a: int, b: int| 0 <= a < b < nk.len() implies bytes_lt(
            #[trigger] nk[a]@,
            #[trigger] nk[b]@,
        ) by {
            if b < pos {
                assert(nk[a] == before_keys[a] && nk[b] == before_keys[b]);
            } else if b == pos {
                assert(nk[a] == before_keys[a]);
            } else if a < pos {
                assert(nk[a] == before_keys[a] && nk[b] == before_keys[b - 1]);
                assert(bytes_lt(before_keys[a]@, k@));
                if b - 1 > pos {
                    assert(bytes_lt(before_keys[pos as int]@, before_keys[b - 1]@));
                    lemma_bytes_lt_transitive(k@, before_keys[pos as int]@, before_keys[b - 1]@);
                }
                lemma_bytes_lt_transitive(before_keys[a]@, k@, before_keys[b - 1]@);
            } else if a == pos {
                assert(nk[b] == before_keys[b - 1]);
                if b - 1 > pos {
                    assert(bytes_lt(before_keys[pos as int]@, before_keys[b - 1]@));
                    lemma_bytes_lt_transitive(k@, before_keys[pos as int]@, before_keys[b - 1]@);
                }
            } else {
                assert(nk[a] == before_keys[a - 1] && nk[b] == before_keys[b - 1]);
            }
        }
        assert forall|x: Seq<char>|
            #[trigger] lists_path(paths@, x) <==> (x == p@ || lists_path(before_paths, x)) by {
            if lists_path(paths@, x) {
                let m = choose|m: int| 0 <= m < paths@.len() && #[trigger] paths@[m]@ == x;
                if m < pos {
                    assert(paths@[m] == before_paths[m]);
                } else if m > pos {
                    assert(paths@[m] == before_paths[m - 1]);
                }
            }
            if x == p@ {
                assert(paths@[pos as int]@ == x);
            }
            if lists_path(before_paths, x) {
                let m = choose|m: int| 0 <= m < before_paths.len() && #[trigger] before_paths[m]@ == x;
                if m < pos {
                    assert(paths@[m] == before_paths[m]);
                } else {
                    assert(paths@[m + 1] == before_paths[m]);
                }
            }
        }
    }
}

/// The results providing `path`, in order.
fn owners_of(results: &Vec<PublishedResult>, files: &Vec<Vec<String>>, path: &String) -> (r: Vec<
    StoreResultId,
>)
    requires
        files@.len() == results@.len(),
    ensures
        id_views(r@) == owners(provided(results@, files@, files@.len() as nat), path@),
{
    let mut r: Vec<StoreResultId> = Vec::new();
    let mut i: usize = 0;
    while i < files.len()
        invariant
            i <= files@.len(),
            files@.len() == results@.len(),
            id_views(r@) == owners(provided(results@, files@, i as nat), path@),
        decreases files@.len() - i,
    {
        let list = &files[i];
        let mut j: usize = 0;
        assert(seen(results@, files@, i as nat, 0) =~= provided(results@, files@, i as nat));
        while j < list.len()
            invariant
                i < files@.len(),
                files@.len() == results@.len(),
                list@ == files@[i as int]@,
                j <= list@.len(),
                id_views(r@) == owners(seen(results@, files@, i as nat, j as int), path@),
            decreases list@.len() - j,
        {
            proof {
                lemma_seen_step(results@, files@, i as nat, j as int);
                lemma_owners_push(
                    seen(results@, files@, i as nat, j as int),
                    (files@[i as int]@[j as int]@, results@[i as int]@.0),
                    path@,
                );
            }
            if crate::text::text_eq(list[j].as_str(), path.as_str()) {
                let id = results[i].id().clone();
                r.push(id);
                assert(id_views(r@) =~= id_views(r@.drop_last()).push(id@));
            }
            j = j + 1;
        }
        proof {
            lemma_seen_next(results@, files@, i as nat);
        }
        i = i + 1;
    }
    r
}

/// The files each result provides, grouped by relative path: every path
/// provided once, in path order, with the results providing it in the order
/// the results were given. `files[i]` lists what `results[i]` provides.
pub fn group_leaves(results: &Vec<PublishedResult>, files: &Vec<Vec<String>>) -> (r: Vec<
    (String, Vec<StoreResultId>),
>)
    requires
        files@.len() == results@.len(),
    ensures
        ({
            let pairs = provided(results@, files@, files@.len() as nat);
            &&& forall|a: int, b: int|
                0 <= a < b < r@.len() ==> path_before(#[trigger] r@[a].0@, #[trigger] r@[b].0@)
            &&& forall|x: Seq<char>| #[trigger] is_provided(pairs, x) <==> lists_leaf(r@, x)
            &&& forall|m: int|
                0 <= m < r@.len() ==> id_views(#[trigger] r@[m].1@) == owners(pairs, r@[m].0@)
        }),
{
    let mut paths: Vec<String> = Vec::new();
    let mut keys: Vec<Vec<u8>> = Vec::new();
    let mut i: usize = 0;
    while i < files.len()
        invariant
            i <= files@.len(),
            files@.len() == results@.len(),
            sorted_paths(paths@, keys@),
            forall|x: Seq<char>|
                #[trigger] is_provided(provided(results@, files@, i as nat), x) <==> lists_path(paths@, x),
        decreases files@.len() - i,
    {
        let list = &files[i];
        let mut j: usize = 0;
        assert(seen(results@, files@, i as nat, 0) =~= provided(results@, files@, i as nat));
        while j < list.len()
            invariant
                i < files@.len(),
                files@.len() == results@.len(),
                list@ == files@[i as int]@,
                j <= list@.len(),
                sorted_paths(paths@, keys@),
                forall|x: Seq<char>|
                    #[trigger] is_provided(seen(results@, files@, i as nat, j as int), x) <==> lists_path(
                        paths@,
                        x,
                    ),
            decreases list@.len() - j,
        {
            let ghost s0 = seen(results@, files@, i as nat, j as int);
            proof {
                lemma_seen_step(results@, files@, i as nat, j as int);
            }
            insert_path(&mut paths, &mut keys, &list[j]);
            proof {
                let s1 = seen(results@, files@, i as nat, j + 1);
                assert forall|x: Seq<char>| #[trigger] is_provided(s1, x) <==> (x == list@[j as int]@
                    || is_provided(s0, x)) by {
                    if is_provided(s1, x) {
                        let k = choose|k: int| 0 <= k < s1.len() && (#[trigger] s1[k]).0 == x;
                        if k < s0.len() {
                            assert(s1[k] == s0[k]);
                        }
                    }
                    if x == list@[j as int]@ {
                        assert(s1[s0.len() as int].0 == x);
                    }
                    if is_provided(s0, x) {
                        let k = choose|k: int| 0 <= k < s0.len() && (#[trigger] s0[k]).0 == x;
                        assert(s1[k] == s0[k]);
                    }
                }
            }
            j = j + 1;
        }
        proof {
            lemma_seen_next(results@, files@, i as nat);
        }
        i = i + 1;
    }
    let ghost pairs = provided(results@, files@, files@.len() as nat);
    let mut r: Vec<(String, Vec<StoreResultId>)> = Vec::new();
    let mut m: usize = 0;
    while m < paths.len()
        invariant
            m <= paths@.len(),
            files@.len() == results@.len(),
            pairs == provided(results@, files@, files@.len() as nat),
            sorted_paths(paths@, keys@),
            r@.len() == m,
            forall|a: int| 0 <= a < m ==> #[trigger] r@[a].0@ == paths@[a]@,
            forall|a: int| 0 <= a < m ==> id_views(#[trigger] r@[a].1@) == owners(pairs, r@[a].0@),
        decreases paths@.len() - m,
    {
        let owned = owners_of(results, files, &paths[m]);
        let path = paths[m].clone();
        assert(path@ == paths@[m as int]@);
        let ghost before = r@;
        r.push((path, owned));
        assert forall|a: int| 0 <= a < m + 1 implies #[trigger] r@[a].0@ == paths@[a]@ by {
            if a < m {
                assert(r@[a] == before[a]);
            }
        }
        m = m + 1;
    }
    proof {
        assert forall|a: int, b: int| 0 <= a < b < r@.len() implies path_before(
            #[trigger] r@[a].0@,
            #[trigger] r@[b].0@,
        ) by {
            assert(bytes_lt(keys@[a]@, keys@[b]@));
        }
        assert forall|x: Seq<char>| #[trigger] is_provided(pairs, x) <==> lists_leaf(r@, x) by {
            if is_provided(pairs, x) {
                let k = choose|k: int| 0 <= k < paths@.len() && #[trigger] paths@[k]@ == x;
                assert(r@[k].0@ == x);
            }
            if lists_leaf(r@, x) {
                let k = choose|k: int| 0 <= k < r@.len() && #[trigger] r@[k].0@ == x;
                assert(paths@[k]@ == x);
            }
        }
    }
    r
}

/// The leaves as paths with the texts of their owners.
pub open spec fn leaf_views(leaves: Seq<(String, Vec<StoreResultId>)>) -> Seq<(Seq<char>, Seq<Seq<char>>)> {
    leaves.map_values(|l: (String, Vec<StoreResultId>)| (l.0@, id_views(l.1@)))
}

/// The collisions of a plan as paths with the texts of their owners.
pub open spec fn collision_views(c: Seq<ActivationCollision>) -> Seq<(Seq<char>, Seq<Seq<char>>)> {
    c.map_values(|x: ActivationCollision| collision_view(x))
}

/// Whether some collision is for path `x`.
pub open spec fn collides(c: Seq<(Seq<char>, Seq<Seq<char>>)>, x: Seq<char>) -> bool {
    exists|m: int| 0 <= m < c.len() && (#[trigger] c[m]).0 == x
}

proof fn lemma_collisions_members(lv: Seq<(Seq<char>, Seq<Seq<char>>)>)
    ensures
        forall|y: (Seq<char>, Seq<Seq<char>>)|
            #[trigger] collisions_of(lv).contains(y) <==> (lv.contains(y) && y.1.len() > 1),
    decreases lv.len(),
{
    if lv.len() > 0 {
        let d = lv.drop_last();
        lemma_collisions_members(d);
        let tail = if lv.last().1.len() > 1 {
            seq![lv.last()]
        } else {
            Seq::<(Seq<char>, Seq<Seq<char>>)>::empty()
        };
        assert(collisions_of(lv) == collisions_of(d) + tail);
        assert forall|y: (Seq<char>, Seq<Seq<char>>)|
            #[trigger] collisions_of(lv).contains(y) <==> (lv.contains(y) && y.1.len() > 1) by {
            let c = collisions_of(lv);
            let cd = collisions_of(d);
            if c.contains(y) {
                let k = choose|k: int| 0 <= k < c.len() && c[k] == y;
                if k < cd.len() {
                    assert(cd[k] == y);
                    assert(cd.contains(y));
                    let j = choose|j: int| 0 <= j < d.len() && d[j] == y;
                    assert(lv[j] == y);
                } else {
                    assert(tail[k - cd.len()] == y);
                    assert(lv[lv.len() - 1] == y);
                }
            }
            if lv.contains(y) && y.1.len() > 1 {
                let j = choose|j: int| 0 <= j < lv.len() && lv[j] == y;
                if j < d.len() {
                    assert(d[j] == y);
                    assert(d.contains(y));
                    assert(collisions_of(d).contains(y));
                    let k = choose|k: int| 0 <= k < cd.len() && cd[k] == y;
                    assert(c[k] == y);
                } else {
                    assert(c[cd.len() as int] == y);
                }
            }
        }
    } else {
        assert(collisions_of(lv).len() == 0);
    }
}

proof fn lemma_collisions_sorted(lv: Seq<(Seq<char>, Seq<Seq<char>>)>)
    requires
        forall|a: int, b: int| 0 <= a < b < lv.len() ==> path_before(#[trigger] lv[a].0, #[trigger] lv[b].0),
    ensures
        forall|a: int, b: int|
            0 <= a < b < collisions_of(lv).len() ==> path_before(
                #[trigger] collisions_of(lv)[a].0,
                #[trigger] collisions_of(lv)[b].0,
            ),
    decreases lv.len(),
{
    if lv.len() > 0 {
        let d = lv.drop_last();
        assert forall|a: int, b: int| 0 <= a < b < d.len() implies path_before(
            #[trigger] d[a].0,
            #[trigger] d[b].0,
        ) by {
            assert(d[a] == lv[a] && d[b] == lv[b]);
        }
        lemma_collisions_sorted(d);
        lemma_collisions_members(d);
        let cd = collisions_of(d);
        let c = collisions_of(lv);
        if lv.last().1.len() > 1 {
            assert(c == cd.push(lv.last()));
            assert forall|a: int, b: int| 0 <= a < b < c.len() implies path_before(
                #[trigger] c[a].0,
                #[trigger] c[b].0,
            ) by {
                if b < cd.len() {
                    assert(c[a] == cd[a] && c[b] == cd[b]);
                } else {
                    assert(c[a] == cd[a]);
                    assert(cd.contains(cd[a]));
                    let j = choose|j: int| 0 <= j < d.len() && d[j] == cd[a];
                    assert(lv[j] == d[j]);
                    assert(path_before(lv[j].0, lv[lv.len() - 1].0));
                }
            }
        } else {
            assert(c =~= cd);
        }
    }
}

proof fn lemma_owners_provided(pairs: Seq<(Seq<char>, Seq<char>)>, x: Seq<char>)
    requires
        owners(pairs, x).len() > 0,
    ensures
        is_provided(pairs, x),
    decreases pairs.len(),
{
    let d = pairs.drop_last();
    if pairs.last().0 == x {
        assert(pairs[pairs.len() - 1].0 == x);
    } else {
        lemma_owners_provided(d, x);
        let k = choose|k: int| 0 <= k < d.len() && (#[trigger] d[k]).0 == x;
        assert(pairs[k] == d[k]);
    }
}

impl ActivationPlan {
    /// Plans the activation of `results` from what reading the store found:
    /// each result's output check and prefix layout, and the files each
    /// provides (or why they could not be listed). A result repeating an
    /// earlier one, or whose output is invalid, refuses the plan; then a
    /// failure to list the files does. Otherwise the plan puts each result's
    /// `bin` directory on `PATH` and its pkg-config directories on
    /// `PKG_CONFIG_PATH`, every prefix on `CMAKE_PREFIX_PATH`, in the order
    /// given, and reports, in path order, every file more than one result
    /// provides, with those results in the order given.
    pub fn from_provided(
        results: &Vec<PublishedResult>,
        tree_checks: Vec<Result<(), StoreError>>,
        layouts: &Vec<PrefixLayout>,
        files: Result<Vec<Vec<String>>, StoreError>,
    ) -> (r: Result<ActivationPlan, StoreError>)
        requires
            tree_checks@.len() == results@.len(),
            layouts@.len() == results@.len(),
            files matches Ok(f) ==> f@.len() == results@.len(),
        ensures
            match first_refused(results@, tree_checks@, results@.len() as nat) {
                Some(i) => {
                    if repeats_earlier(results@, i) {
                        r matches Err(StoreError::Activation(m)) && m@ == "duplicate result sha256:"@
                            + results@[i]@.0 + " in activation plan"@
                    } else {
                        match tree_checks@[i] {
                            Err(e) => r == Err::<ActivationPlan, StoreError>(e),
                            Ok(_) => false,
                        }
                    }
                },
                None => match files {
                    Err(e) => r == Err::<ActivationPlan, StoreError>(e),
                    Ok(f) => r matches Ok(plan) && {
                        let pairs = provided(results@, f@, f@.len() as nat);
                        let c = collision_views(plan.collisions@);
                        &&& texts(plan.path_entries@) == bin_entries(results@, layouts@)
                        &&& texts(plan.cmake_prefixes@) == results@.map_values(
                            |p: PublishedResult| p@.2,
                        )
                        &&& texts(plan.pkg_config_paths@) == pkg_config_entries(results@, layouts@)
                        &&& forall|a: int, b: int|
                            0 <= a < b < c.len() ==> path_before(#[trigger] c[a].0, #[trigger] c[b].0)
                        &&& forall|x: Seq<char>|
                            #[trigger] collides(c, x) <==> owners(pairs, x).len() > 1
                        &&& forall|m: int| 0 <= m < c.len() ==> (#[trigger] c[m]).1 == owners(pairs, c[m].0)
                    },
                },
            },
    {
        let ghost files_g = files;
        let leaves = match files {
            Ok(f) => Ok(group_leaves(results, &f)),
            Err(e) => Err(e),
        };
        let ghost leaves_g = leaves;
        let r = ActivationPlan::from_results(results, tree_checks, layouts, leaves);
        let ghost r_g = r;
        proof {
            if let Ok(f) = files_g {
                if let Ok(l) = leaves_g {
                    let pairs = provided(results@, f@, f@.len() as nat);
                    let lv = leaf_views(l@);
                    assert(lv =~= l@.map_values(
                        |x: (String, Vec<StoreResultId>)| (x.0@, id_views(x.1@)),
                    ));
                    assert forall|a: int, b: int| 0 <= a < b < lv.len() implies path_before(
                        #[trigger] lv[a].0,
                        #[trigger] lv[b].0,
                    ) by {
                        assert(lv[a].0 == l@[a].0@ && lv[b].0 == l@[b].0@);
                    }
                    lemma_collisions_sorted(lv);
                    lemma_collisions_members(lv);
                    if let Ok(plan) = r_g {
                        let c = collision_views(plan.collisions@);
                        assert(c == collisions_of(lv));
                        assert forall|m: int| 0 <= m < c.len() implies (#[trigger] c[m]).1 == owners(
                            pairs,
                            c[m].0,
                        ) by {
                            assert(collisions_of(lv).contains(c[m]));
                            let j = choose|j: int| 0 <= j < lv.len() && lv[j] == c[m];
                            assert(lv[j] == (l@[j].0@, id_views(l@[j].1@)));
                        }
                        assert forall|x: Seq<char>| #[trigger] collides(c, x) <==> owners(pairs, x).len() > 1 by {
                            if collides(c, x) {
                                let m = choose|m: int| 0 <= m < c.len() && (#[trigger] c[m]).0 == x;
                                assert(collisions_of(lv).contains(c[m]));
                                let j = choose|j: int| 0 <= j < lv.len() && lv[j] == c[m];
                                assert(lv[j] == (l@[j].0@, id_views(l@[j].1@)));
                            }
                            if owners(pairs, x).len() > 1 {
                                lemma_owners_provided(pairs, x);
                                assert(is_provided(pairs, x));
                                assert(lists_leaf(l@, x));
                                let j = choose|j: int| 0 <= j < l@.len() && #[trigger] l@[j].0@ == x;
                                assert(lv[j] == (l@[j].0@, id_views(l@[j].1@)));
                                assert(lv.contains(lv[j]));
                                assert(collisions_of(lv).contains(lv[j]));
                                let m = choose|m: int| 0 <= m < c.len() && c[m] == lv[j];
                                assert(c[m].0 == x);
                            }
                        }
                    }
                }
            }
        }
        r
    }
}

/// How many of the first `n` layouts have `lib/pkgconfig`.
pub open spec fn lib_pkgconfig_count(layouts: Seq<PrefixLayout>, n: nat) -> nat
    decreases n,
{
    if n == 0 {
        0
    } else {
        lib_pkgconfig_count(layouts, (n - 1) as nat) + if layouts[n - 1].has_lib_pkgconfig {
            1nat
        } else {
            0nat
        }
    }
}

/// How many of the first `n` layouts have `share/pkgconfig`.
pub open spec fn share_pkgconfig_count(layouts: Seq<PrefixLayout>, n: nat) -> nat
    decreases n,
{
    if n == 0 {
        0
    } else {
        share_pkgconfig_count(layouts, (n - 1) as nat) + if layouts[n - 1].has_share_pkgconfig {
            1nat
        } else {
            0nat
        }
    }
}

/// The pkg-config paths follow each result's own layout: a result's
/// `lib/pkgconfig` is listed when it has that directory, its
/// `share/pkgconfig` when it has that one, each independently of the other,
/// and nothing else is listed.
pub proof fn law_pkg_config_paths_follow_layouts(results: Seq<PublishedResult>, layouts: Seq<PrefixLayout>)
    requires
        layouts.len() >= results.len(),
    ensures
        pkg_config_entries(results, layouts).len() == lib_pkgconfig_count(layouts, results.len())
            + share_pkgconfig_count(layouts, results.len()),
        forall|i: int|
            0 <= i < results.len() && (#[trigger] layouts[i]).has_lib_pkgconfig ==> pkg_config_entries(
                results,
                layouts,
            ).contains(join_path(results[i]@.2, "lib/pkgconfig"@)),
        forall|i: int|
            0 <= i < results.len() && (#[trigger] layouts[i]).has_share_pkgconfig ==> pkg_config_entries(
                results,
                layouts,
            ).contains(join_path(results[i]@.2, "share/pkgconfig"@)),
    decreases results.len(),
{
    if results.len() > 0 {
        let n = results.len() - 1;
        let d = results.drop_last();
        law_pkg_config_paths_follow_layouts(d, layouts);
        let e = pkg_config_entries(results, layouts);
        let ed = pkg_config_entries(d, layouts);
        let p = results[n]@.2;
        let lib = if layouts[n].has_lib_pkgconfig {
            seq![join_path(p, "lib/pkgconfig"@)]
        } else {
            Seq::<Seq<char>>::empty()
        };
        let share = if layouts[n].has_share_pkgconfig {
            seq![join_path(p, "share/pkgconfig"@)]
        } else {
            Seq::<Seq<char>>::empty()
        };
        assert(e == ed + lib + share);
        assert forall|i: int|
            0 <= i < results.len() && (#[trigger] layouts[i]).has_lib_pkgconfig implies e.contains(
                join_path(results[i]@.2, "lib/pkgconfig"@),
            ) by {
            if i < n {
                assert(d[i] == results[i]);
                let x = join_path(results[i]@.2, "lib/pkgconfig"@);
                assert(ed.contains(x));
                let k = choose|k: int| 0 <= k < ed.len() && ed[k] == x;
                assert(e[k] == x);
            } else {
                assert(e[ed.len() as int] == join_path(p, "lib/pkgconfig"@));
            }
        }
        assert forall|i: int|
            0 <= i < results.len() && (#[trigger] layouts[i]).has_share_pkgconfig implies e.contains(
                join_path(results[i]@.2, "share/pkgconfig"@),
            ) by {
            if i < n {
                assert(d[i] == results[i]);
                let x = join_path(results[i]@.2, "share/pkgconfig"@);
                assert(ed.contains(x));
                let k = choose|k: int| 0 <= k < ed.len() && ed[k] == x;
                assert(e[k] == x);
            } else {
                assert(e[(ed.len() + lib.len()) as int] == join_path(p, "share/pkgconfig"@));
            }
        }
    }
}

} // verus!
