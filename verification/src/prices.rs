//! Maps keyed by asset name.
use vstd::prelude::*;
use crate::decimal::Dec;

verus! {

/// Values by asset name. Each name occurs at most once.
pub struct AssetMap<V: Copy> {
    entries: Vec<(String, V)>,
}

/// Prices by asset name.
pub type PriceMap = AssetMap<Dec>;

impl<V: Copy> View for AssetMap<V> {
    type V = Map<Seq<char>, V>;

    /// The values as a map from asset name.
    closed spec fn view(&self) -> Map<Seq<char>, V> {
        Map::new(
            |k: Seq<char>| exists|i: int| self.has_key_at(k, i),
            |k: Seq<char>| self.entries@[choose|i: int| self.has_key_at(k, i)].1,
        )
    }
}

impl<V: Copy> AssetMap<V> {
    #[verifier::type_invariant]
    spec fn keys_distinct(self) -> bool {
        forall|i: int, j: int|
            0 <= i < j < self.entries@.len() ==> #[trigger] self.entries@[i].0@ != #[trigger] self.entries@[j].0@
    }

    spec fn has_key_at(self, k: Seq<char>, i: int) -> bool {
        0 <= i < self.entries@.len() && self.entries@[i].0@ == k
    }

    /// An empty map.
    pub fn new() -> (r: AssetMap<V>)
        ensures
            r.view() == Map::<Seq<char>, V>::empty(),
    {
        let r = AssetMap { entries: Vec::new() };
        assert(r.view() =~= Map::<Seq<char>, V>::empty());
        r
    }

    /// Number of assets with a price.
    pub fn len(&self) -> (r: usize)
        ensures
            r == self.view().dom().len(),
    {
        proof {
            use_type_invariant(self);
            self.lemma_len();
        }
        self.entries.len()
    }

    proof fn lemma_len(&self)
        requires
            forall|i: int, j: int|
                0 <= i < j < self.entries@.len() ==> #[trigger] self.entries@[i].0@ != #[trigger] self.entries@[j].0@,
        ensures
            self.view().dom().len() == self.entries@.len(),
            self.view().dom().finite(),
    {
        let keys = self.entries@.map_values(|e: (String, V)| e.0@);
        assert forall|i: int, j: int| 0 <= i < j < keys.len() implies keys[i] != keys[j] by {
            assert(self.entries@[i].0@ != self.entries@[j].0@);
        }
        assert(keys.no_duplicates());
        keys.unique_seq_to_set();
        assert(self.view().dom() =~= keys.to_set()) by {
            assert forall|k: Seq<char>| self.view().dom().contains(k) implies keys.to_set().contains(k) by {
                let i = choose|i: int| self.has_key_at(k, i);
                assert(keys[i] == k);
            }
            assert forall|k: Seq<char>| keys.to_set().contains(k) implies self.view().dom().contains(k) by {
                let i = choose|i: int| 0 <= i < keys.len() && keys[i] == k;
                assert(self.has_key_at(k, i));
            }
        }
    }

    /// The price of `key`, if present.
    pub fn get(&self, key: &str) -> (r: Option<V>)
        ensures
            r == (if self.view().contains_key(key@) {
                Some(self.view()[key@])
            } else {
                None
            }),
    {
        proof {
            use_type_invariant(self);
        }
        let mut i: usize = 0;
        while i < self.entries.len()
            invariant
                i <= self.entries@.len(),
                forall|j: int| 0 <= j < i ==> self.entries@[j].0@ != key@,
                forall|a: int, b: int|
                    0 <= a < b < self.entries@.len() ==> #[trigger] self.entries@[a].0@ != #[trigger] self.entries@[b].0@,
            decreases self.entries@.len() - i,
        {
            if crate::text::str_equal(self.entries[i].0.as_str(), key) {
                proof {
                    assert(self.has_key_at(key@, i as int));
                    let c = choose|c: int| self.has_key_at(key@, c);
                    assert(c == i);
                }
                let v = self.entries[i].1;
                return Some(v);
            }
            i = i + 1;
        }
        None
    }

    /// Sets the price of `key`, replacing any earlier price for it.
    pub fn insert(&mut self, key: String, value: V)
        ensures
            final(self).view() == old(self).view().insert(key@, value),
    {
        proof {
            use_type_invariant(&*self);
        }
        let ghost old_entries = self.entries@;
        let mut i: usize = 0;
        while i < self.entries.len()
            invariant
                self.entries@ == old_entries,
                old(self).entries@ == old_entries,
                i <= self.entries@.len(),
                forall|j: int| 0 <= j < i ==> self.entries@[j].0@ != key@,
                forall|a: int, b: int|
                    0 <= a < b < self.entries@.len() ==> #[trigger] self.entries@[a].0@ != #[trigger] self.entries@[b].0@,
            decreases self.entries@.len() - i,
        {
            if crate::text::str_equal(self.entries[i].0.as_str(), key.as_str()) {
                let ghost kv = key@;
                let mut entries: Vec<(String, V)> = Vec::new();
                core::mem::swap(&mut entries, &mut self.entries);
                assert(entries@ == old_entries);
                entries.set(i, (key, value));
                assert(entries@[i as int].0@ == kv);
                assert(forall|c: int| 0 <= c < entries@.len() && c != i ==> entries@[c] == old_entries[c]);
                assert(old(self).entries@ == old_entries);
                proof {
                    assert forall|a: int, b: int| 0 <= a < b < entries@.len() implies #[trigger] entries@[a].0@ != #[trigger] entries@[b].0@ by {
                        assert(old_entries[a].0@ != old_entries[b].0@);
                    }
                }
                self.entries = entries;
                assert(self.view() =~= old(self).view().insert(key@, value)) by {
                    assert forall|k: Seq<char>| #[trigger] self.view().contains_key(k) <==> old(self).view().insert(key@, value).contains_key(k) by {
                        if self.view().contains_key(k) {
                            let c = choose|c: int| self.has_key_at(k, c);
                            if k != key@ {
                                assert(old(self).has_key_at(k, c));
                            }
                        }
                        if old(self).view().contains_key(k) {
                            let c = choose|c: int| old(self).has_key_at(k, c);
                            assert(self.has_key_at(k, c) || k == key@);
                        }
                        if k == key@ {
                            assert(self.has_key_at(k, i as int));
                        }
                    }
                    assert forall|k: Seq<char>| self.view().contains_key(k) implies #[trigger] self.view()[k] == old(self).view().insert(key@, value)[k] by {
                        let c = choose|c: int| self.has_key_at(k, c);
                        if k == key@ {
                            assert(self.has_key_at(k, i as int));
                        } else {
                            assert(old(self).has_key_at(k, c));
                            let d = choose|d: int| old(self).has_key_at(k, d);
                            assert(d == c);
                        }
                    }
                }
                return;
            }
            i = i + 1;
        }
        let mut entries: Vec<(String, V)> = Vec::new();
        core::mem::swap(&mut entries, &mut self.entries);
        entries.push((key, value));
        self.entries = entries;
        assert(self.view() =~= old(self).view().insert(key@, value)) by {
            let n = old_entries.len();
            assert forall|k: Seq<char>| #[trigger] self.view().contains_key(k) <==> old(self).view().insert(key@, value).contains_key(k) by {
                if self.view().contains_key(k) {
                    let c = choose|c: int| self.has_key_at(k, c);
                    if c < n {
                        assert(old(self).has_key_at(k, c));
                    }
                }
                if old(self).view().contains_key(k) {
                    let c = choose|c: int| old(self).has_key_at(k, c);
                    assert(self.has_key_at(k, c));
                }
                if k == key@ {
                    assert(self.has_key_at(k, n as int));
                }
            }
            assert forall|k: Seq<char>| self.view().contains_key(k) implies #[trigger] self.view()[k] == old(self).view().insert(key@, value)[k] by {
                let c = choose|c: int| self.has_key_at(k, c);
                if k == key@ {
                    assert(self.has_key_at(k, n as int));
                } else {
                    assert(c < n);
                    assert(old(self).has_key_at(k, c));
                    let d = choose|d: int| old(self).has_key_at(k, d);
                    assert(d == c);
                }
            }
        }
    }
}

impl<A: Copy, B: Copy> AssetMap<(A, B)> {
    /// The map keeping the second component of each value.
    pub fn seconds(&self) -> (r: AssetMap<B>)
        ensures
            r.view() == self.view().map_values(|v: (A, B)| v.1),
    {
        proof {
            use_type_invariant(self);
        }
        let mut out: Vec<(String, B)> = Vec::new();
        let mut i: usize = 0;
        while i < self.entries.len()
            invariant
                i <= self.entries@.len(),
                out@.len() == i,
                forall|k: int| 0 <= k < i ==> (#[trigger] out@[k]).0@ == self.entries@[k].0@ && out@[k].1 == self.entries@[k].1.1,
                forall|a: int, b: int|
                    0 <= a < b < self.entries@.len() ==> #[trigger] self.entries@[a].0@ != #[trigger] self.entries@[b].0@,
            decreases self.entries@.len() - i,
        {
            let key = self.entries[i].0.clone();
            let v = self.entries[i].1;
            out.push((key, v.1));
            i = i + 1;
        }
        proof {
            assert forall|a: int, b: int| 0 <= a < b < out@.len() implies #[trigger] out@[a].0@ != #[trigger] out@[b].0@ by {
                assert(self.entries@[a].0@ != self.entries@[b].0@);
            }
        }
        let r = AssetMap { entries: out };
        assert(r.view() =~= self.view().map_values(|v: (A, B)| v.1)) by {
            assert forall|k: Seq<char>| #[trigger] r.view().contains_key(k) <==> self.view().contains_key(k) by {
                if r.view().contains_key(k) {
                    let c = choose|c: int| r.has_key_at(k, c);
                    assert(self.has_key_at(k, c));
                }
                if self.view().contains_key(k) {
                    let c = choose|c: int| self.has_key_at(k, c);
                    assert(r.has_key_at(k, c));
                }
            }
            assert forall|k: Seq<char>| r.view().contains_key(k) implies #[trigger] r.view()[k] == self.view()[k].1 by {
                let c = choose|c: int| r.has_key_at(k, c);
                assert(self.has_key_at(k, c));
                let d = choose|d: int| self.has_key_at(k, d);
                assert(d == c);
            }
        }
        r
    }
}

} // verus!
