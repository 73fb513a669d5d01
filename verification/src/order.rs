//! Ordering items by a text key, as the normal forms of manifests and
//! lockfiles require.
use crate::manifest::{DependencyDeclaration, LockedPackage, PackageName, PluginName};
use crate::text::{compare_text, lemma_text_lt_asymmetric, lemma_text_lt_total, lemma_text_lt_transitive, text_lt, TextOrder};
use vstd::multiset::Multiset;
use vstd::prelude::*;

verus! {

/// An item ordered by a text key.
pub trait Keyed {
    spec fn key_view(&self) -> Seq<char>;

    fn key(&self) -> (r: &str)
        ensures
            r@ == self.key_view(),
    ;
}

impl Keyed for PackageName {
    open spec fn key_view(&self) -> Seq<char> {
        self@
    }

    fn key(&self) -> (r: &str) {
        self.as_str()
    }
}

impl Keyed for PluginName {
    open spec fn key_view(&self) -> Seq<char> {
        self@
    }

    fn key(&self) -> (r: &str) {
        self.as_str()
    }
}

impl Keyed for DependencyDeclaration {
    open spec fn key_view(&self) -> Seq<char> {
        self.name@
    }

    fn key(&self) -> (r: &str) {
        self.name.as_str()
    }
}

impl Keyed for LockedPackage {
    open spec fn key_view(&self) -> Seq<char> {
        self.name@
    }

    fn key(&self) -> (r: &str) {
        self.name.as_str()
    }
}

/// Whether no later key of `s` is below an earlier one.
pub open spec fn key_ordered<T: Keyed>(s: Seq<T>) -> bool {
    forall|i: int, j: int|
        0 <= i < j < s.len() ==> !text_lt(#[trigger] s[j].key_view(), #[trigger] s[i].key_view())
}

/// The position of a least key of `v`.
fn least_key_index<T: Keyed>(v: &Vec<T>) -> (k: usize)
    requires
        v@.len() > 0,
    ensures
        k < v@.len(),
        forall|i: int| 0 <= i < v@.len() ==> !text_lt(#[trigger] v@[i].key_view(), v@[k as int].key_view()),
{
    let mut k: usize = 0;
    let mut i: usize = 1;
    proof {
        crate::text::lemma_text_lt_irreflexive(v@[0].key_view());
    }
    while i < v.len()
        invariant
            1 <= i <= v@.len(),
            k < i,
            forall|m: int| 0 <= m < i ==> !text_lt(#[trigger] v@[m].key_view(), v@[k as int].key_view()),
        decreases v@.len() - i,
    {
        if compare_text(v[i].key(), v[k].key()) == TextOrder::Less {
            proof {
                assert forall|m: int| 0 <= m < i + 1 implies !text_lt(
                    #[trigger] v@[m].key_view(),
                    v@[i as int].key_view(),
                ) by {
                    if m < i {
                        if text_lt(v@[m].key_view(), v@[i as int].key_view()) {
                            lemma_text_lt_transitive(
                                v@[m].key_view(),
                                v@[i as int].key_view(),
                                v@[k as int].key_view(),
                            );
                        }
                    } else {
                        crate::text::lemma_text_lt_irreflexive(v@[i as int].key_view());
                    }
                }
            }
            k = i;
        }
        i = i + 1;
    }
    k
}

/// `items` ordered by key: the same items, no later key below an earlier one.
pub fn sort_by_key<T: Keyed>(items: Vec<T>) -> (r: Vec<T>)
    ensures
        r@.to_multiset() == items@.to_multiset(),
        key_ordered(r@),
{
    broadcast use vstd::seq_lib::group_to_multiset_ensures, vstd::multiset::group_multiset_axioms;

    let ghost all = items@;
    let mut rest = items;
    let mut out: Vec<T> = Vec::new();
    assert(out@.to_multiset().add(rest@.to_multiset()) =~= all.to_multiset());
    while rest.len() > 0
        invariant
            out@.to_multiset().add(rest@.to_multiset()) == all.to_multiset(),
            key_ordered(out@),
            forall|i: int, j: int|
                0 <= i < out@.len() && 0 <= j < rest@.len() ==> !text_lt(
                    #[trigger] rest@[j].key_view(),
                    #[trigger] out@[i].key_view(),
                ),
        decreases rest@.len(),
    {
        let k = least_key_index(&rest);
        let ghost before_rest = rest@;
        let ghost before_out = out@;
        let x = rest.remove(k);
        proof {
            before_rest.to_multiset_ensures();
            assert(x == before_rest[k as int]);
            assert(before_rest.contains(x));
        }
        assert(before_rest.remove(k as int).to_multiset() =~= before_rest.to_multiset().remove(x));
        assert(before_rest.to_multiset().count(x) > 0);
        out.push(x);
        proof {
            before_out.to_multiset_ensures();
            assert(out@ == before_out.push(x));
        }
        assert(out@.to_multiset() =~= before_out.to_multiset().insert(x));
        assert(out@.to_multiset().add(rest@.to_multiset()) =~= all.to_multiset());
        assert forall|i: int, j: int| 0 <= i < j < out@.len() implies !text_lt(
            #[trigger] out@[j].key_view(),
            #[trigger] out@[i].key_view(),
        ) by {
            if j == out@.len() - 1 {
                assert(out@[j] == before_rest[k as int]);
                assert(out@[i] == before_out[i]);
            } else {
                assert(out@[i] == before_out[i] && out@[j] == before_out[j]);
            }
        }
        assert forall|i: int, j: int|
            0 <= i < out@.len() && 0 <= j < rest@.len() implies !text_lt(
            #[trigger] rest@[j].key_view(),
            #[trigger] out@[i].key_view(),
        ) by {
            let jj = if j < k {
                j
            } else {
                j + 1
            };
            assert(rest@[j] == before_rest[jj]);
            if i == out@.len() - 1 {
                assert(out@[i] == before_rest[k as int]);
            } else {
                assert(out@[i] == before_out[i]);
            }
        }
    }
    assert(rest@.to_multiset() =~= Multiset::<T>::empty());
    assert(out@.to_multiset().add(Multiset::<T>::empty()) =~= out@.to_multiset());
    out
}

/// An ordering by distinct keys is strict.
pub proof fn lemma_distinct_keys_strict<T: Keyed>(s: Seq<T>)
    requires
        key_ordered(s),
        s.map_values(|x: T| x.key_view()).no_duplicates(),
    ensures
        crate::text::strictly_keyed(s, |x: T| x.key_view()),
{
    assert forall|i: int, j: int| 0 <= i < j < s.len() implies text_lt(
        (|x: T| x.key_view())(#[trigger] s[i]),
        (|x: T| x.key_view())(#[trigger] s[j]),
    ) by {
        let keys = s.map_values(|x: T| x.key_view());
        assert(keys[i] == s[i].key_view() && keys[j] == s[j].key_view());
        assert(keys[i] != keys[j]);
        lemma_text_lt_total(s[i].key_view(), s[j].key_view());
    }
}

} // verus!
