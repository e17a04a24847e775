//! The object-data region: the resident entries, one per key.

use vstd::prelude::*;
use crate::bytes::{bytes_eq, bytes_to_vec};

verus! {

/// A resident object: its key and its value.
pub struct CacheEntry {
    pub key: Vec<u8>,
    pub value: Vec<u8>,
}

/// Whether some entry of `entries` is stored under `key`.
pub open spec fn holds_key(entries: Seq<CacheEntry>, key: Seq<u8>) -> bool {
    exists|i: int| 0 <= i < entries.len() && (#[trigger] entries[i]).key@ == key
}

/// No two entries share a key.
pub open spec fn distinct_keys(entries: Seq<CacheEntry>) -> bool {
    forall|i: int, j: int|
        0 <= i < entries.len() && 0 <= j < entries.len() && i != j
            ==> (#[trigger] entries[i]).key@ != (#[trigger] entries[j]).key@
}

/// The position of the entry stored under `key`.
pub open spec fn position_of(entries: Seq<CacheEntry>, key: Seq<u8>) -> int {
    choose|i: int| 0 <= i < entries.len() && (#[trigger] entries[i]).key@ == key
}

/// The map from key to value that a list of entries stands for.
pub open spec fn entries_map(entries: Seq<CacheEntry>) -> Map<Seq<u8>, Seq<u8>> {
    Map::new(
        |key: Seq<u8>| holds_key(entries, key),
        |key: Seq<u8>| entries[position_of(entries, key)].value@,
    )
}

/// With distinct keys, every entry is found in the map under its own key.
pub proof fn lemma_entries_map_at(entries: Seq<CacheEntry>, i: int)
    requires
        distinct_keys(entries),
        0 <= i < entries.len(),
    ensures
        entries_map(entries).contains_key(entries[i].key@),
        entries_map(entries)[entries[i].key@] == entries[i].value@,
{
    let key = entries[i].key@;
    assert(holds_key(entries, key));
    let p = position_of(entries, key);
    assert(0 <= p < entries.len() && entries[p].key@ == key);
    assert(p == i);
}

/// The object-data region of the store: at most one value per key.
pub struct ObjectData {
    entries: Vec<CacheEntry>,
}

impl View for ObjectData {
    type V = Map<Seq<u8>, Seq<u8>>;

    closed spec fn view(&self) -> Map<Seq<u8>, Seq<u8>> {
        entries_map(self.entries@)
    }
}

impl ObjectData {
    /// The representation invariant: no key is stored twice.
    pub closed spec fn inv(&self) -> bool {
        distinct_keys(self.entries@)
    }

    /// An empty region.
    pub fn new() -> (region: Self)
        ensures
            region.inv(),
            region@ == Map::<Seq<u8>, Seq<u8>>::empty(),
    {
        let region = ObjectData { entries: Vec::new() };
        assert(region@ =~= Map::<Seq<u8>, Seq<u8>>::empty());
        region
    }

    /// The number of resident entries.
    pub fn len(&self) -> (n: usize)
        requires
            self.inv(),
        ensures
            self@.dom().finite(),
            n == self@.dom().len(),
    {
        proof {
            lemma_entries_map_len(self.entries@);
        }
        self.entries.len()
    }

    fn find(&self, key: &[u8]) -> (found: Option<usize>)
        ensures
            match found {
                Some(i) => i < self.entries@.len() && self.entries@[i as int].key@ == key@,
                None => !holds_key(self.entries@, key@),
            },
    {
        let mut i: usize = 0;
        while i < self.entries.len()
            invariant
                i <= self.entries@.len(),
                forall|j: int| 0 <= j < i ==> (#[trigger] self.entries@[j]).key@ != key@,
            decreases self.entries@.len() - i,
        {
            if bytes_eq(self.entries[i].key.as_slice(), key) {
                return Some(i);
            }
            i += 1;
        }
        None
    }

    /// Point lookup: the value stored under `key`, if there is one.
    pub fn get(&self, key: &[u8]) -> (value: Option<&Vec<u8>>)
        requires
            self.inv(),
        ensures
            match value {
                Some(v) => self@.contains_key(key@) && v@ == self@[key@],
                None => !self@.contains_key(key@),
            },
    {
        match self.find(key) {
            Some(i) => {
                proof {
                    lemma_entries_map_at(self.entries@, i as int);
                }
                Some(&self.entries[i].value)
            },
            None => None,
        }
    }

    /// Stores `value` under `key` and returns the value it replaces, if any.
    pub fn insert(&mut self, key: &[u8], value: &[u8]) -> (previous: Option<Vec<u8>>)
        requires
            old(self).inv(),
        ensures
            final(self).inv(),
            final(self)@ == old(self)@.insert(key@, value@),
            match previous {
                Some(v) => old(self)@.contains_key(key@) && v@ == old(self)@[key@],
                None => !old(self)@.contains_key(key@),
            },
    {
        let previous = self.remove(key);
        let ghost mid = self.entries@;
        assert(!holds_key(mid, key@)) by {
            assert(!self@.contains_key(key@));
        }
        let entry = CacheEntry { key: bytes_to_vec(key), value: bytes_to_vec(value) };
        self.entries.push(entry);
        proof {
            lemma_entries_map_push(mid, entry);
            assert(old(self)@.remove(key@).insert(key@, value@) =~= old(self)@.insert(
                key@,
                value@,
            ));
        }
        previous
    }

    /// Removes the entry stored under `key` and returns its value, if there was one.
    pub fn remove(&mut self, key: &[u8]) -> (previous: Option<Vec<u8>>)
        requires
            old(self).inv(),
        ensures
            final(self).inv(),
            final(self)@ == old(self)@.remove(key@),
            match previous {
                Some(v) => old(self)@.contains_key(key@) && v@ == old(self)@[key@],
                None => !old(self)@.contains_key(key@),
            },
    {
        match self.find(key) {
            Some(i) => {
                proof {
                    lemma_entries_map_at(self.entries@, i as int);
                    lemma_entries_map_remove(self.entries@, i as int);
                }
                let entry = self.entries.remove(i);
                Some(entry.value)
            },
            None => {
                assert(self@.remove(key@) =~= self@);
                None
            },
        }
    }
}

/// Appending an entry under a key that is not yet held adds it to the map.
pub proof fn lemma_entries_map_push(entries: Seq<CacheEntry>, entry: CacheEntry)
    requires
        distinct_keys(entries),
        !holds_key(entries, entry.key@),
    ensures
        distinct_keys(entries.push(entry)),
        entries_map(entries.push(entry)) == entries_map(entries).insert(entry.key@, entry.value@),
{
    let after = entries.push(entry);
    assert(distinct_keys(after)) by {
        assert forall|i: int, j: int|
            0 <= i < after.len() && 0 <= j < after.len() && i != j implies (#[trigger] after[i]).key@
            != (#[trigger] after[j]).key@ by {
            if i < entries.len() {
                assert(after[i] == entries[i]);
            }
            if j < entries.len() {
                assert(after[j] == entries[j]);
            }
        }
    }
    let lhs = entries_map(after);
    let rhs = entries_map(entries).insert(entry.key@, entry.value@);
    assert forall|key: Seq<u8>| lhs.contains_key(key) <==> rhs.contains_key(key) by {
        if holds_key(after, key) {
            let i = position_of(after, key);
            if i < entries.len() {
                assert(entries[i].key@ == key);
            }
        }
        if holds_key(entries, key) {
            let i = position_of(entries, key);
            assert(after[i].key@ == key);
        }
        if key == entry.key@ {
            assert(after[entries.len() as int].key@ == key);
        }
    }
    assert forall|key: Seq<u8>| #[trigger] lhs.contains_key(key) implies lhs[key] == rhs[key] by {
        let i = position_of(after, key);
        lemma_entries_map_at(after, i);
        if i < entries.len() {
            assert(after[i] == entries[i]);
            lemma_entries_map_at(entries, i);
        }
    }
    assert(lhs =~= rhs);
}

/// Taking the entry at position `i` out removes its key from the map.
pub proof fn lemma_entries_map_remove(entries: Seq<CacheEntry>, i: int)
    requires
        distinct_keys(entries),
        0 <= i < entries.len(),
    ensures
        distinct_keys(entries.remove(i)),
        entries_map(entries.remove(i)) == entries_map(entries).remove(entries[i].key@),
{
    let after = entries.remove(i);
    assert forall|a: int| 0 <= a < after.len() implies #[trigger] after[a] == entries[if a < i {
        a
    } else {
        a + 1
    }] by {}
    assert(distinct_keys(after)) by {
        assert forall|a: int, b: int|
            0 <= a < after.len() && 0 <= b < after.len() && a != b implies (#[trigger] after[a]).key@
            != (#[trigger] after[b]).key@ by {
            let a0 = if a < i { a } else { a + 1 };
            let b0 = if b < i { b } else { b + 1 };
            assert(after[a] == entries[a0]);
            assert(after[b] == entries[b0]);
        }
    }
    let lhs = entries_map(after);
    let rhs = entries_map(entries).remove(entries[i].key@);
    assert forall|key: Seq<u8>| lhs.contains_key(key) <==> rhs.contains_key(key) by {
        if holds_key(after, key) {
            let a = position_of(after, key);
            let a0 = if a < i { a } else { a + 1 };
            assert(after[a] == entries[a0]);
            assert(entries[a0].key@ == key);
            assert(entries[a0].key@ != entries[i].key@);
        }
        if holds_key(entries, key) && key != entries[i].key@ {
            let p = position_of(entries, key);
            let a = if p < i { p } else { p - 1 };
            assert(after[a] == entries[p]);
        }
    }
    assert forall|key: Seq<u8>| #[trigger] lhs.contains_key(key) implies lhs[key] == rhs[key] by {
        let a = position_of(after, key);
        let a0 = if a < i { a } else { a + 1 };
        assert(after[a] == entries[a0]);
        lemma_entries_map_at(after, a);
        lemma_entries_map_at(entries, a0);
    }
    assert(lhs =~= rhs);
}

/// With distinct keys the map has as many keys as there are entries.
pub proof fn lemma_entries_map_len(entries: Seq<CacheEntry>)
    requires
        distinct_keys(entries),
    ensures
        entries_map(entries).dom().finite(),
        entries_map(entries).dom().len() == entries.len(),
    decreases entries.len(),
{
    if entries.len() == 0 {
        assert(entries_map(entries).dom() =~= Set::<Seq<u8>>::empty());
    } else {
        let last = entries.last();
        let front = entries.drop_last();
        assert forall|i: int, j: int|
            0 <= i < front.len() && 0 <= j < front.len() && i != j implies (#[trigger] front[i]).key@
            != (#[trigger] front[j]).key@ by {
            assert(front[i] == entries[i]);
            assert(front[j] == entries[j]);
        }
        assert(!holds_key(front, last.key@)) by {
            if holds_key(front, last.key@) {
                let i = position_of(front, last.key@);
                assert(front[i] == entries[i]);
                assert(entries[entries.len() - 1].key@ == last.key@);
            }
        }
        lemma_entries_map_len(front);
        lemma_entries_map_push(front, last);
        assert(front.push(last) =~= entries);
        assert(entries_map(entries).dom() =~= entries_map(front).dom().insert(last.key@));
    }
}

} // verus!
