//! An ordered map from text keys to text values: each key at most once, keys in
//! the order of `str`, as a `BTreeMap<String, String>` holds them.
use crate::text::{
    compare_text, lemma_text_lt_asymmetric, lemma_text_lt_irreflexive, lemma_text_lt_total,
    lemma_text_lt_transitive, text_lt, TextOrder,
};
use vstd::prelude::*;

verus! {

/// Entries whose keys strictly increase.
pub open spec fn keys_increasing(e: Seq<(Seq<char>, Seq<char>)>) -> bool {
    forall|i: int, j: int| 0 <= i < j < e.len() ==> text_lt(#[trigger] e[i].0, #[trigger] e[j].0)
}

/// The map that entries describe.
pub open spec fn entries_map(e: Seq<(Seq<char>, Seq<char>)>) -> Map<Seq<char>, Seq<char>>
    decreases e.len(),
{
    if e.len() == 0 {
        Map::empty()
    } else {
        entries_map(e.drop_last()).insert(e.last().0, e.last().1)
    }
}

/// The map obtained by inserting `pairs` in order, later pairs replacing earlier
/// ones with the same key.
pub open spec fn pairs_map(pairs: Seq<(Seq<char>, Seq<char>)>) -> Map<Seq<char>, Seq<char>> {
    entries_map(pairs)
}

/// A text map, kept sorted by key.
#[derive(Debug, PartialEq, Eq)]
pub struct TextMap {
    entries: Vec<(String, String)>,
}

pub open spec fn pair_view(p: (String, String)) -> (Seq<char>, Seq<char>) {
    (p.0@, p.1@)
}

impl View for TextMap {
    type V = Seq<(Seq<char>, Seq<char>)>;

    closed spec fn view(&self) -> Seq<(Seq<char>, Seq<char>)> {
        self.entries@.map_values(|p: (String, String)| pair_view(p))
    }
}

proof fn lemma_entries_map_increasing(e: Seq<(Seq<char>, Seq<char>)>, k: Seq<char>)
    requires
        keys_increasing(e),
    ensures
        entries_map(e).contains_key(k) <==> exists|i: int| 0 <= i < e.len() && e[i].0 == k,
        forall|i: int| 0 <= i < e.len() ==> entries_map(e)[#[trigger] e[i].0] == e[i].1,
    decreases e.len(),
{
    if e.len() > 0 {
        let d = e.drop_last();
        assert(keys_increasing(d)) by {
            assert forall|i: int, j: int| 0 <= i < j < d.len() implies text_lt(
                #[trigger] d[i].0,
                #[trigger] d[j].0,
            ) by {
                assert(d[i] == e[i] && d[j] == e[j]);
            }
        }
        lemma_entries_map_increasing(d, k);
        lemma_entries_map_increasing(d, e.last().0);
        assert forall|i: int| 0 <= i < e.len() implies entries_map(e)[#[trigger] e[i].0]
            == e[i].1 by {
            if i < e.len() - 1 {
                assert(d[i] == e[i]);
                assert(text_lt(e[i].0, e[e.len() - 1].0));
                if e[i].0 == e.last().0 {
                    lemma_text_lt_irreflexive(e[i].0);
                }
            }
        }
        if exists|i: int| 0 <= i < d.len() && d[i].0 == k {
            let i = choose|i: int| 0 <= i < d.len() && d[i].0 == k;
            assert(e[i].0 == k);
        }
        if exists|i: int| 0 <= i < e.len() && e[i].0 == k {
            let i = choose|i: int| 0 <= i < e.len() && e[i].0 == k;
            if i < e.len() - 1 {
                assert(d[i].0 == k);
            }
        }
    }
}

impl TextMap {
    #[verifier::type_invariant]
    closed spec fn sorted(self) -> bool {
        keys_increasing(self@)
    }

    /// The map this value describes.
    pub closed spec fn map(&self) -> Map<Seq<char>, Seq<char>> {
        entries_map(self@)
    }

    pub fn new() -> (r: Self)
        ensures
            r@.len() == 0,
            r.map() == Map::<Seq<char>, Seq<char>>::empty(),
    {
        let r = TextMap { entries: Vec::new() };
        assert(r@ =~= Seq::<(Seq<char>, Seq<char>)>::empty());
        r
    }

    /// The number of entries; entries are in increasing key order.
    pub fn len(&self) -> (r: usize)
        ensures
            r == self@.len(),
            keys_increasing(self@),
            self.map() == entries_map(self@),
    {
        proof {
            use_type_invariant(self);
        }
        self.entries.len()
    }

    /// The key and value of the `i`-th entry in key order.
    pub fn entry(&self, i: usize) -> (r: (&str, &str))
        requires
            i < self@.len(),
        ensures
            r.0@ == self@[i as int].0,
            r.1@ == self@[i as int].1,
    {
        let p = &self.entries[i];
        (p.0.as_str(), p.1.as_str())
    }

    /// The value stored under `key`, if any.
    pub fn get(&self, key: &str) -> (r: Option<&str>)
        ensures
            match r {
                Some(v) => self.map().contains_key(key@) && self.map()[key@] == v@,
                None => !self.map().contains_key(key@),
            },
    {
        proof {
            use_type_invariant(self);
            lemma_entries_map_increasing(self@, key@);
        }
        let mut i: usize = 0;
        while i < self.entries.len()
            invariant
                i <= self@.len(),
                self@.len() == self.entries@.len(),
                forall|k: int| 0 <= k < i ==> self@[k].0 != key@,
            decreases self@.len() - i,
        {
            let p = &self.entries[i];
            if crate::text::text_eq(p.0.as_str(), key) {
                assert(self@[i as int] == pair_view(self.entries@[i as int]));
                proof {
                    use_type_invariant(self);
                    lemma_entries_map_increasing(self@, key@);
                }
                return Some(p.1.as_str());
            }
            assert(self@[i as int] == pair_view(self.entries@[i as int]));
            i = i + 1;
        }
        None
    }

    /// Sets `key` to `value`, replacing any earlier value.
    pub fn insert(&mut self, key: String, value: String)
        ensures
            final(self).map() == old(self).map().insert(key@, value@),
    {
        proof {
            use_type_invariant(&*self);
        }
        let mut entries: Vec<(String, String)> = Vec::new();
        std::mem::swap(&mut entries, &mut self.entries);
        let ghost e = entries@.map_values(|p: (String, String)| pair_view(p));
        assert(keys_increasing(e));
        // The first position whose key is not below `key`.
        let mut j: usize = 0;
        while j < entries.len()
            invariant
                j <= entries@.len(),
                e == entries@.map_values(|p: (String, String)| pair_view(p)),
                forall|k: int| 0 <= k < j ==> text_lt(#[trigger] e[k].0, key@),
            ensures
                j <= entries@.len(),
                forall|k: int| 0 <= k < j ==> text_lt(#[trigger] e[k].0, key@),
                j < entries@.len() ==> !text_lt(e[j as int].0, key@),
            decreases entries@.len() - j,
        {
            let ord = compare_text(entries[j].0.as_str(), key.as_str());
            assert(e[j as int] == pair_view(entries@[j as int]));
            if ord != TextOrder::Less {
                break;
            }
            j = j + 1;
        }
        let ghost e_old = e;
        if j < entries.len() && crate::text::text_eq(entries[j].0.as_str(), key.as_str()) {
            assert(e[j as int] == pair_view(entries@[j as int]));
            let mut slot = (key, value);
            entries.set_and_swap(j, &mut slot);
            let ghost e2 = entries@.map_values(|p: (String, String)| pair_view(p));
            proof {
                assert(e2 =~= e.update(j as int, (slot.0@, value@)));
                lemma_replace_keeps_map(e, j as int, value@);
            }
        } else {
            proof {
                if j < entries.len() {
                    assert(e[j as int] == pair_view(entries@[j as int]));
                    assert(!text_lt(e[j as int].0, key@));
                    assert(e[j as int].0 != key@);
                    lemma_text_lt_total(e[j as int].0, key@);
                }
            }
            entries.insert(j, (key, value));
            let ghost e2 = entries@.map_values(|p: (String, String)| pair_view(p));
            proof {
                assert(e2 =~= e.take(j as int).push((key@, value@)) + e.skip(j as int));
                lemma_insert_new_key(e, j as int, key@, value@);
            }
        }
        self.entries = entries;
    }

    /// The map of `pairs` inserted in order.
    pub fn from_pairs(pairs: Vec<(String, String)>) -> (r: Self)
        ensures
            r.map() == pairs_map(pairs@.map_values(|p: (String, String)| pair_view(p))),
    {
        let ghost ps = pairs@.map_values(|p: (String, String)| pair_view(p));
        let mut r = TextMap::new();
        let mut i: usize = 0;
        while i < pairs.len()
            invariant
                i <= pairs@.len(),
                ps == pairs@.map_values(|p: (String, String)| pair_view(p)),
                r.map() == entries_map(ps.take(i as int)),
            decreases pairs@.len() - i,
        {
            let k = pairs[i].0.clone();
            let v = pairs[i].1.clone();
            assert(ps.take(i + 1).drop_last() =~= ps.take(i as int));
            assert(ps[i as int] == pair_view(pairs@[i as int]));
            r.insert(k, v);
            i = i + 1;
        }
        assert(ps.take(pairs@.len() as int) =~= ps);
        r
    }
}

impl Clone for TextMap {
    fn clone(&self) -> (r: Self)
        ensures
            r@ == self@,
            r.map() == self.map(),
    {
        proof {
            use_type_invariant(self);
        }
        let mut entries: Vec<(String, String)> = Vec::new();
        let mut i: usize = 0;
        while i < self.entries.len()
            invariant
                i <= self.entries@.len(),
                keys_increasing(self@),
                entries@.map_values(|p: (String, String)| pair_view(p)) =~= self@.take(i as int),
            decreases self.entries@.len() - i,
        {
            let k = self.entries[i].0.clone();
            let v = self.entries[i].1.clone();
            assert(self@[i as int] == pair_view(self.entries@[i as int]));
            let ghost old_e = entries@;
            entries.push((k, v));
            assert(entries@.map_values(|p: (String, String)| pair_view(p)) =~= old_e.map_values(
                |p: (String, String)| pair_view(p),
            ).push(pair_view((k, v))));
            assert(self@.take(i + 1) =~= self@.take(i as int).push(self@[i as int]));
            i = i + 1;
        }
        assert(self@.take(self@.len() as int) =~= self@);
        let r = TextMap { entries };
        proof {
            assert(r@ =~= self@);
        }
        r
    }
}

impl Default for TextMap {
    fn default() -> (r: Self)
        ensures
            r@.len() == 0,
            r.map() == Map::<Seq<char>, Seq<char>>::empty(),
    {
        TextMap::new()
    }
}

proof fn lemma_entries_map_finite(e: Seq<(Seq<char>, Seq<char>)>)
    ensures
        entries_map(e).dom().finite(),
    decreases e.len(),
{
    if e.len() > 0 {
        lemma_entries_map_finite(e.drop_last());
    }
}

proof fn lemma_replace_keeps_map(e: Seq<(Seq<char>, Seq<char>)>, j: int, v: Seq<char>)
    requires
        keys_increasing(e),
        0 <= j < e.len(),
    ensures
        keys_increasing(e.update(j, (e[j].0, v))),
        entries_map(e.update(j, (e[j].0, v))) == entries_map(e).insert(e[j].0, v),
{
    let e2 = e.update(j, (e[j].0, v));
    assert(keys_increasing(e2)) by {
        assert forall|a: int, b: int| 0 <= a < b < e2.len() implies text_lt(
            #[trigger] e2[a].0,
            #[trigger] e2[b].0,
        ) by {
            assert(e2[a].0 == e[a].0 && e2[b].0 == e[b].0);
        }
    }
    assert forall|k: Seq<char>| #[trigger] entries_map(e2).contains_key(k) == entries_map(e).insert(
        e[j].0,
        v,
    ).contains_key(k) by {
        lemma_entries_map_increasing(e, k);
        lemma_entries_map_increasing(e2, k);
        if exists|i: int| 0 <= i < e.len() && e[i].0 == k {
            let i = choose|i: int| 0 <= i < e.len() && e[i].0 == k;
            assert(e2[i].0 == k);
        }
        if exists|i: int| 0 <= i < e2.len() && e2[i].0 == k {
            let i = choose|i: int| 0 <= i < e2.len() && e2[i].0 == k;
            assert(e[i].0 == k);
        }
    }
    assert forall|k: Seq<char>| #[trigger] entries_map(e2).contains_key(k) implies entries_map(e2)[k]
        == entries_map(e).insert(e[j].0, v)[k] by {
        lemma_entries_map_increasing(e, k);
        lemma_entries_map_increasing(e2, k);
        let i = choose|i: int| 0 <= i < e2.len() && e2[i].0 == k;
        if i == j {
        } else {
            assert(e2[i] == e[i]);
            if k == e[j].0 {
                if i < j {
                    assert(text_lt(e[i].0, e[j].0));
                } else {
                    assert(text_lt(e[j].0, e[i].0));
                }
                lemma_text_lt_irreflexive(k);
            }
        }
    }
    assert(entries_map(e2) =~= entries_map(e).insert(e[j].0, v));
}

proof fn lemma_insert_new_key(
    e: Seq<(Seq<char>, Seq<char>)>,
    j: int,
    k0: Seq<char>,
    v: Seq<char>,
)
    requires
        keys_increasing(e),
        0 <= j <= e.len(),
        forall|k: int| 0 <= k < j ==> text_lt(#[trigger] e[k].0, k0),
        j < e.len() ==> text_lt(k0, e[j].0),
    ensures
        keys_increasing(e.take(j).push((k0, v)) + e.skip(j)),
        entries_map(e.take(j).push((k0, v)) + e.skip(j)) == entries_map(e).insert(k0, v),
{
    let e2 = e.take(j).push((k0, v)) + e.skip(j);
    assert forall|a: int| 0 <= a < e2.len() implies (#[trigger] e2[a]) == (if a < j {
        e[a]
    } else if a == j {
        (k0, v)
    } else {
        e[a - 1]
    }) by {}
    assert(keys_increasing(e2)) by {
        assert forall|a: int, b: int| 0 <= a < b < e2.len() implies text_lt(
            #[trigger] e2[a].0,
            #[trigger] e2[b].0,
        ) by {
            if a < j && b == j {
            } else if a < j && b > j {
                assert(text_lt(e[a].0, e[b - 1].0));
            } else if a == j && b > j {
                if b - 1 > j {
                    assert(text_lt(e[j].0, e[b - 1].0));
                    lemma_text_lt_transitive(k0, e[j].0, e[b - 1].0);
                }
            } else if a > j {
                assert(text_lt(e[a - 1].0, e[b - 1].0));
            } else {
                assert(text_lt(e[a].0, e[b].0));
            }
        }
    }
    assert forall|k: Seq<char>| #[trigger] entries_map(e2).contains_key(k) == entries_map(e).insert(
        k0,
        v,
    ).contains_key(k) by {
        lemma_entries_map_increasing(e, k);
        lemma_entries_map_increasing(e2, k);
        if exists|i: int| 0 <= i < e.len() && e[i].0 == k {
            let i = choose|i: int| 0 <= i < e.len() && e[i].0 == k;
            if i < j {
                assert(e2[i].0 == k);
            } else {
                assert(e2[i + 1].0 == k);
            }
        }
        if k == k0 {
            assert(e2[j].0 == k);
        }
    }
    assert forall|k: Seq<char>| #[trigger] entries_map(e2).contains_key(k) implies entries_map(e2)[k]
        == entries_map(e).insert(k0, v)[k] by {
        lemma_entries_map_increasing(e, k);
        lemma_entries_map_increasing(e2, k);
        let i = choose|i: int| 0 <= i < e2.len() && e2[i].0 == k;
        if i == j {
        } else {
            let i0 = if i < j {
                i
            } else {
                i - 1
            };
            assert(e2[i] == e[i0]);
            if k == k0 {
                if i < j {
                    assert(text_lt(e[i].0, k0));
                } else {
                    assert(text_lt(k0, e[j].0));
                    if i0 > j {
                        assert(text_lt(e[j].0, e[i0].0));
                        lemma_text_lt_transitive(k0, e[j].0, e[i0].0);
                    }
                }
                lemma_text_lt_irreflexive(k0);
            }
        }
    }
    assert(entries_map(e2) =~= entries_map(e).insert(k0, v));
}

} // verus!
