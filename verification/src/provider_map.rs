use vstd::prelude::*;

verus! {

/// The key/value pairs a map or a parsed source holds, as mathematical
/// values: each key a sequence of characters, each entry an opaque value.
pub type EntrySeq = Seq<(Seq<char>, serde_json::Value)>;

/// The mathematical model of a configuration map.
pub type EntryMap = Map<Seq<char>, serde_json::Value>;

/// Whether some pair of `s` has key `k`.
pub open spec fn key_in(s: EntrySeq, k: Seq<char>) -> bool {
    exists|i: int| 0 <= i < s.len() && s[i].0 == k
}

/// The value of the last pair of `s` whose key is `k`: the one that wins
/// when the pairs are folded in order.
pub open spec fn last_value_of(s: EntrySeq, k: Seq<char>) -> serde_json::Value
    decreases s.len(),
{
    if s.len() == 0 {
        arbitrary()
    } else if s.last().0 == k {
        s.last().1
    } else {
        last_value_of(s.drop_last(), k)
    }
}

/// Folding pairs into a map, first to last, each insertion replacing any
/// prior entry for the same key wholesale.
pub open spec fn fold_pairs(m: EntryMap, s: EntrySeq) -> EntryMap
    decreases s.len(),
{
    if s.len() == 0 {
        m
    } else {
        fold_pairs(m, s.drop_last()).insert(s.last().0, s.last().1)
    }
}

/// The map a sequence of pairs denotes on its own: a fold over the empty map.
pub open spec fn map_of_seq(s: EntrySeq) -> EntryMap {
    fold_pairs(Map::empty(), s)
}

/// No two pairs of `s` share a key.
pub open spec fn unique_keys(s: EntrySeq) -> bool {
    forall|i: int, j: int| 0 <= i < j < s.len() ==> s[i].0 != s[j].0
}

/// How a fold reads back: a key is present after the fold exactly when it
/// was present before or some pair carries it, a key the pairs carry ends at
/// the last value folded for it, and a key they do not carry keeps its old
/// value. This is the last-writer-wins discipline in one statement.
pub proof fn lemma_fold_pairs_properties(m: EntryMap, s: EntrySeq)
    ensures
        forall|k: Seq<char>| #[trigger]
            fold_pairs(m, s).contains_key(k) <==> (m.contains_key(k) || key_in(s, k)),
        forall|k: Seq<char>| key_in(s, k) ==> #[trigger] fold_pairs(m, s)[k] == last_value_of(s, k),
        forall|k: Seq<char>|
            !key_in(s, k) && m.contains_key(k) ==> #[trigger] fold_pairs(m, s)[k] == m[k],
    decreases s.len(),
{
    if s.len() == 0 {
        assert(forall|k: Seq<char>| !key_in(s, k));
    } else {
        let t = s.drop_last();
        lemma_fold_pairs_properties(m, t);
        let k0 = s.last().0;
        let v0 = s.last().1;
        assert(s[s.len() - 1] == s.last());
        assert(key_in(s, k0));
        assert(fold_pairs(m, s) == fold_pairs(m, t).insert(k0, v0));
        assert forall|k: Seq<char>| #[trigger]
            fold_pairs(m, s).contains_key(k) implies (m.contains_key(k) || key_in(s, k)) by {
            if k != k0 {
                assert(fold_pairs(m, t).contains_key(k));
                if key_in(t, k) {
                    let i = choose|i: int| 0 <= i < t.len() && t[i].0 == k;
                    assert(s[i].0 == k);
                }
            }
        }
        assert forall|k: Seq<char>|
            m.contains_key(k) || key_in(s, k) implies #[trigger]
            fold_pairs(m, s).contains_key(k) by {
            if k != k0 && key_in(s, k) {
                let i = choose|i: int| 0 <= i < s.len() && s[i].0 == k;
                assert(i < s.len() - 1);
                assert(t[i].0 == k);
                assert(key_in(t, k));
            }
        }
        assert forall|k: Seq<char>| key_in(s, k) implies #[trigger] fold_pairs(m, s)[k]
            == last_value_of(s, k) by {
            if k != k0 {
                let i = choose|i: int| 0 <= i < s.len() && s[i].0 == k;
                assert(i < s.len() - 1);
                assert(t[i].0 == k);
                assert(key_in(t, k));
                assert(fold_pairs(m, s)[k] == fold_pairs(m, t)[k]);
                assert(last_value_of(s, k) == last_value_of(t, k));
            }
        }
        assert forall|k: Seq<char>|
            !key_in(s, k) && m.contains_key(k) implies #[trigger] fold_pairs(m, s)[k] == m[k] by {
            assert(k != k0);
            if key_in(t, k) {
                let i = choose|i: int| 0 <= i < t.len() && t[i].0 == k;
                assert(s[i].0 == k);
            }
        }
    }
}

/// Folding is the same as overriding with the map the pairs denote: the
/// right-hand side wins on every shared key.
pub proof fn lemma_fold_pairs_union(m: EntryMap, s: EntrySeq)
    ensures
        fold_pairs(m, s) == m.union_prefer_right(map_of_seq(s)),
    decreases s.len(),
{
    if s.len() == 0 {
        assert(m.union_prefer_right(Map::empty()) =~= m);
    } else {
        let t = s.drop_last();
        lemma_fold_pairs_union(m, t);
        assert(m.union_prefer_right(map_of_seq(t)).insert(s.last().0, s.last().1)
            =~= m.union_prefer_right(map_of_seq(t).insert(s.last().0, s.last().1)));
    }
}

/// With unique keys, the pair at `i` is the one the denoted map holds for
/// its key.
pub proof fn lemma_unique_last_value(s: EntrySeq, i: int)
    requires
        unique_keys(s),
        0 <= i < s.len(),
    ensures
        last_value_of(s, s[i].0) == s[i].1,
    decreases s.len(),
{
    if i < s.len() - 1 {
        assert(s.last().0 != s[i].0);
        assert(s.drop_last()[i] == s[i]);
        lemma_unique_last_value(s.drop_last(), i);
    }
}

/// Removing the one pair that carries key `k` removes exactly `k` from the
/// denoted map.
pub proof fn lemma_unique_remove(s: EntrySeq, i: int)
    requires
        unique_keys(s),
        0 <= i < s.len(),
    ensures
        map_of_seq(s.remove(i)) == map_of_seq(s).remove(s[i].0),
    decreases s.len(),
{
    let k = s[i].0;
    let t = s.drop_last();
    lemma_fold_pairs_properties(Map::empty(), t);
    if i == s.len() - 1 {
        assert(s.remove(i) =~= t);
        assert(!key_in(t, k));
        assert(!map_of_seq(t).contains_key(k));
        assert(map_of_seq(t) =~= map_of_seq(t).insert(k, s[i].1).remove(k));
    } else {
        assert(s.remove(i).drop_last() =~= t.remove(i));
        assert(s.remove(i).last() == s.last());
        lemma_unique_remove(t, i);
        assert(t[i] == s[i]);
        assert(s.last().0 != k);
        assert(map_of_seq(t).remove(k).insert(s.last().0, s.last().1)
            =~= map_of_seq(t).insert(s.last().0, s.last().1).remove(k));
        assert(map_of_seq(s.remove(i)) == map_of_seq(t.remove(i)).insert(s.last().0, s.last().1));
    }
}

/// With unique keys, the denoted map has exactly one entry per pair.
pub proof fn lemma_unique_dom_len(s: EntrySeq)
    requires
        unique_keys(s),
    ensures
        map_of_seq(s).dom().finite(),
        map_of_seq(s).dom().len() == s.len(),
    decreases s.len(),
{
    if s.len() > 0 {
        let t = s.drop_last();
        lemma_unique_dom_len(t);
        lemma_fold_pairs_properties(Map::empty(), t);
        assert(!key_in(t, s.last().0));
        assert(!map_of_seq(t).dom().contains(s.last().0));
        assert(map_of_seq(s).dom() =~= map_of_seq(t).dom().insert(s.last().0));
    }
}

/// Whole-entry replacement. After a fold, a key the pairs carry maps to
/// the last entry folded for it, and to nothing of what the map held for
/// that key before: the result is the same over any two prior maps, so an
/// entry is replaced in full, never merged field by field with its
/// predecessor.
pub proof fn lemma_whole_entry_replace(m1: EntryMap, m2: EntryMap, s: EntrySeq, k: Seq<char>)
    requires
        key_in(s, k),
    ensures
        fold_pairs(m1, s).contains_key(k),
        fold_pairs(m1, s)[k] == last_value_of(s, k),
        fold_pairs(m1, s)[k] == fold_pairs(m2, s)[k],
{
    lemma_fold_pairs_properties(m1, s);
    lemma_fold_pairs_properties(m2, s);
}

/// Folding the same pairs twice in a row yields the same map as folding
/// them once.
pub proof fn lemma_fold_idempotent(m: EntryMap, s: EntrySeq)
    ensures
        fold_pairs(fold_pairs(m, s), s) == fold_pairs(m, s),
{
    lemma_fold_pairs_properties(m, s);
    lemma_fold_pairs_properties(fold_pairs(m, s), s);
    assert(fold_pairs(fold_pairs(m, s), s) =~= fold_pairs(m, s));
}

/// One resolved configuration map from `"<provider>/<model>"` keys to opaque
/// entries. An insertion for an existing key replaces the prior entry in
/// full; fields are never merged.
pub struct ProviderMap {
    entries: Vec<(String, serde_json::Value)>,
}

impl View for ProviderMap {
    type V = EntryMap;

    closed spec fn view(&self) -> EntryMap {
        map_of_seq(self.entry_seq())
    }
}

impl ProviderMap {
    /// The stored pairs, in insertion order.
    pub closed spec fn entry_seq(&self) -> EntrySeq {
        self.entries@.map_values(|p: (String, serde_json::Value)| (p.0@, p.1))
    }

    /// Internal well-formedness: one stored pair per key.
    pub closed spec fn wf(&self) -> bool {
        unique_keys(self.entry_seq())
    }

    /// An empty map.
    pub fn new() -> (r: ProviderMap)
        ensures
            r.wf(),
            r@ == EntryMap::empty(),
            r.entry_seq() == EntrySeq::empty(),
    {
        let r = ProviderMap { entries: Vec::new() };
        proof {
            assert(r.entry_seq() =~= EntrySeq::empty());
        }
        r
    }

    fn index_of_key(entries: &Vec<(String, serde_json::Value)>, key: &String) -> (r: Option<usize>)
        ensures
            match r {
                Some(i) => 0 <= i < entries@.len() && entries@[i as int].0@ == key@,
                None => forall|j: int| 0 <= j < entries@.len() ==> entries@[j].0@ != key@,
            },
    {
        let n = entries.len();
        let mut i: usize = 0;
        while i < n
            invariant
                i <= n,
                n == entries@.len(),
                forall|j: int| 0 <= j < i ==> entries@[j].0@ != key@,
            decreases n - i,
        {
            if entries[i].0 == *key {
                return Some(i);
            }
            i = i + 1;
        }
        None
    }

    /// Insert an entry, replacing any prior entry for the same key in full.
    pub fn insert(&mut self, key: String, value: serde_json::Value)
        requires
            old(self).wf(),
        ensures
            final(self).wf(),
            final(self)@ == old(self)@.insert(key@, value),
    {
        let ghost s0 = self.entry_seq();
        match Self::index_of_key(&self.entries, &key) {
            Some(i) => {
                proof {
                    assert(s0[i as int].0 == key@);
                    lemma_unique_remove(s0, i as int);
                }
                self.entries.remove(i);
                proof {
                    assert(self.entry_seq() =~= s0.remove(i as int));
                    assert(self@ =~= map_of_seq(s0).remove(key@));
                }
            },
            None => {},
        }
        let ghost s1 = self.entry_seq();
        proof {
            assert(forall|j: int| 0 <= j < s1.len() ==> s1[j].0 != key@);
        }
        self.entries.push((key, value));
        proof {
            assert(self.entry_seq() =~= s1.push((key@, value)));
            assert(self.entry_seq().drop_last() =~= s1);
            assert(self@ == map_of_seq(s1).insert(key@, value));
            lemma_fold_pairs_properties(Map::empty(), s0);
            lemma_fold_pairs_properties(Map::empty(), s1);
            assert(self@ =~= map_of_seq(s0).insert(key@, value));
        }
    }

    /// Whether the map holds an entry for `key`.
    pub fn contains_key(&self, key: &str) -> (r: bool)
        ensures
            r == self@.contains_key(key@),
    {
        let owned = key.to_owned();
        proof {
            lemma_fold_pairs_properties(Map::empty(), self.entry_seq());
        }
        match Self::index_of_key(&self.entries, &owned) {
            Some(i) => {
                proof {
                    assert(self.entry_seq()[i as int].0 == key@);
                }
                true
            },
            None => {
                proof {
                    assert(!key_in(self.entry_seq(), key@));
                }
                false
            },
        }
    }

    /// The entry for `key`, when the map holds one.
    pub fn get(&self, key: &str) -> (r: Option<&serde_json::Value>)
        requires
            self.wf(),
        ensures
            match r {
                Some(v) => self@.contains_key(key@) && *v == self@[key@],
                None => !self@.contains_key(key@),
            },
    {
        let owned = key.to_owned();
        proof {
            lemma_fold_pairs_properties(Map::empty(), self.entry_seq());
        }
        match Self::index_of_key(&self.entries, &owned) {
            Some(i) => {
                proof {
                    assert(self.entry_seq()[i as int].0 == key@);
                    lemma_unique_last_value(self.entry_seq(), i as int);
                }
                Some(&self.entries[i].1)
            },
            None => {
                proof {
                    assert(!key_in(self.entry_seq(), key@));
                }
                None
            },
        }
    }

    /// How many entries the map holds.
    pub fn len(&self) -> (r: usize)
        requires
            self.wf(),
        ensures
            r == self@.dom().len(),
    {
        proof {
            lemma_unique_dom_len(self.entry_seq());
        }
        self.entries.len()
    }

    /// Whether the map holds no entry at all.
    pub fn is_empty(&self) -> (r: bool)
        ensures
            r == (self@ == EntryMap::empty()),
    {
        if self.entries.len() == 0 {
            proof {
                assert(self.entry_seq() =~= EntrySeq::empty());
            }
            true
        } else {
            proof {
                lemma_fold_pairs_properties(Map::empty(), self.entry_seq());
                assert(self.entry_seq()[0].0 == self.entry_seq()[0].0);
                assert(key_in(self.entry_seq(), self.entry_seq()[0].0));
                assert(self@.contains_key(self.entry_seq()[0].0));
            }
            false
        }
    }

    /// Fold every entry of `other` into this map, in `other`'s stored order,
    /// each one overwriting any prior entry for its key: `other` wins every
    /// tie.
    pub fn merge_from(&mut self, other: &ProviderMap)
        requires
            old(self).wf(),
        ensures
            final(self).wf(),
            final(self)@ == old(self)@.union_prefer_right(other@),
    {
        let ghost m0 = self@;
        let ghost s = other.entry_seq();
        let n = other.entries.len();
        let mut i: usize = 0;
        while i < n
            invariant
                i <= n,
                n == other.entries@.len(),
                s == other.entry_seq(),
                self.wf(),
                self@ == fold_pairs(m0, s.take(i as int)),
            decreases n - i,
        {
            let key = other.entries[i].0.clone();
            let value = other.entries[i].1.clone();
            proof {
                assert(s[i as int] == (key@, value));
            }
            self.insert(key, value);
            proof {
                assert(s.take(i + 1 as int).drop_last() =~= s.take(i as int));
                assert(s.take(i + 1 as int).last() == s[i as int]);
            }
            i = i + 1;
        }
        proof {
            assert(s.take(n as int) =~= s);
            lemma_fold_pairs_union(m0, s);
        }
    }

    /// Fold a parsed source's pairs into this map, first to last: within one
    /// source a later pair for the same key overwrites an earlier one.
    pub fn fold_in(&mut self, pairs: Vec<(String, serde_json::Value)>)
        requires
            old(self).wf(),
        ensures
            final(self).wf(),
            final(self)@ == fold_pairs(
                old(self)@,
                pairs@.map_values(|p: (String, serde_json::Value)| (p.0@, p.1)),
            ),
    {
        let ghost m0 = self@;
        let ghost s = pairs@.map_values(|p: (String, serde_json::Value)| (p.0@, p.1));
        let n = pairs.len();
        let mut i: usize = 0;
        while i < n
            invariant
                i <= n,
                n == pairs@.len(),
                s == pairs@.map_values(|p: (String, serde_json::Value)| (p.0@, p.1)),
                self.wf(),
                self@ == fold_pairs(m0, s.take(i as int)),
            decreases n - i,
        {
            let key = pairs[i].0.clone();
            let value = pairs[i].1.clone();
            proof {
                assert(s[i as int] == (key@, value));
            }
            self.insert(key, value);
            proof {
                assert(s.take(i + 1 as int).drop_last() =~= s.take(i as int));
                assert(s.take(i + 1 as int).last() == s[i as int]);
            }
            i = i + 1;
        }
        proof {
            assert(s.take(n as int) =~= s);
        }
    }

    /// Hand the stored entries out, in insertion order.
    pub fn into_entries(self) -> (r: Vec<(String, serde_json::Value)>)
        ensures
            r@.map_values(|p: (String, serde_json::Value)| (p.0@, p.1)) == self.entry_seq(),
            map_of_seq(r@.map_values(|p: (String, serde_json::Value)| (p.0@, p.1))) == self@,
    {
        self.entries
    }
}

} // verus!
