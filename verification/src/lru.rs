//! The in-process tier: a byte-budgeted cache that evicts its oldest insertions.
//!
//! The tier has no synchronisation of its own: it has a single owner, or its
//! callers exclude one another.

use vstd::prelude::*;

verus! {

/// An entry of the in-process tier: a value, the key it is stored under and the
/// bytes it is accounted for.
pub struct LruEntry<T> {
    pub key: String,
    pub value: T,
    pub size: usize,
}

/// An entry as a mathematical value.
pub struct LruEntryView<T> {
    pub key: Seq<char>,
    pub value: T,
    pub size: nat,
}

/// The in-process tier as a mathematical value.
pub struct LruView<T> {
    /// The most bytes that the tier holds.
    pub capacity: nat,
    /// The bytes that it holds.
    pub usage: nat,
    /// Its entries in the order of their insertion, oldest first.
    pub entries: Seq<LruEntryView<T>>,
}

/// The bytes that the entries are accounted for, all together.
pub open spec fn held_bytes<T>(entries: Seq<LruEntryView<T>>) -> nat
    decreases entries.len(),
{
    if entries.len() == 0 {
        0
    } else {
        entries[0].size + held_bytes(entries.skip(1))
    }
}

/// Whether some entry is stored under `key`.
pub open spec fn lru_holds<T>(entries: Seq<LruEntryView<T>>, key: Seq<char>) -> bool {
    exists|i: int| 0 <= i < entries.len() && (#[trigger] entries[i]).key == key
}

/// The position of the entry stored under `key`.
pub open spec fn lru_position<T>(entries: Seq<LruEntryView<T>>, key: Seq<char>) -> int {
    choose|i: int| 0 <= i < entries.len() && (#[trigger] entries[i]).key == key
}

/// No two entries share a key.
pub open spec fn lru_distinct<T>(entries: Seq<LruEntryView<T>>) -> bool {
    forall|i: int, j: int|
        0 <= i < entries.len() && 0 <= j < entries.len() && i != j
            ==> (#[trigger] entries[i]).key != (#[trigger] entries[j]).key
}

/// The value stored under `key`, if there is one.
pub open spec fn lru_lookup<T>(entries: Seq<LruEntryView<T>>, key: Seq<char>) -> Option<T> {
    if lru_holds(entries, key) {
        Some(entries[lru_position(entries, key)].value)
    } else {
        None
    }
}

/// The entries without the one stored under `key`.
pub open spec fn lru_without<T>(entries: Seq<LruEntryView<T>>, key: Seq<char>) -> Seq<
    LruEntryView<T>,
> {
    if lru_holds(entries, key) {
        entries.remove(lru_position(entries, key))
    } else {
        entries
    }
}

/// The number of oldest entries that leave before `size` more bytes fit in
/// `capacity`: the least number whose leaving makes room.
pub open spec fn lru_victims<T>(entries: Seq<LruEntryView<T>>, size: nat, capacity: nat) -> nat
    decreases entries.len(),
{
    if held_bytes(entries) + size <= capacity || entries.len() == 0 {
        0
    } else {
        1 + lru_victims(entries.skip(1), size, capacity)
    }
}

impl<T> LruView<T> {
    /// The tier's invariants: the usage is the sum of the entries' sizes and
    /// within the capacity, and no key is stored twice.
    pub open spec fn wf(self) -> bool {
        &&& self.usage == held_bytes(self.entries)
        &&& self.usage <= self.capacity
        &&& lru_distinct(self.entries)
    }

    /// What storing `value` under `key`, accounted for `size` bytes, makes of
    /// the tier. A value larger than the capacity is dropped and nothing
    /// changes. Otherwise an entry already under `key` leaves, then the oldest
    /// entries leave until the value fits, and the value becomes the newest
    /// entry.
    pub open spec fn put(self, key: Seq<char>, value: T, size: nat) -> LruView<T> {
        if size > self.capacity {
            self
        } else {
            let base = lru_without(self.entries, key);
            let kept = base.skip(lru_victims(base, size, self.capacity) as int);
            LruView {
                capacity: self.capacity,
                usage: held_bytes(kept) + size,
                entries: kept.push(LruEntryView { key, value, size }),
            }
        }
    }
}

/// The bytes of two lists laid end to end are the bytes of each, added.
pub proof fn lemma_held_bytes_concat<T>(front: Seq<LruEntryView<T>>, back: Seq<LruEntryView<T>>)
    ensures
        held_bytes(front + back) == held_bytes(front) + held_bytes(back),
    decreases front.len(),
{
    if front.len() == 0 {
        assert(front + back =~= back);
    } else {
        assert((front + back).skip(1) =~= front.skip(1) + back);
        lemma_held_bytes_concat(front.skip(1), back);
    }
}

/// An entry appended adds its size.
pub proof fn lemma_held_bytes_push<T>(entries: Seq<LruEntryView<T>>, entry: LruEntryView<T>)
    ensures
        held_bytes(entries.push(entry)) == held_bytes(entries) + entry.size,
{
    assert(entries.push(entry) =~= entries + seq![entry]);
    lemma_held_bytes_concat(entries, seq![entry]);
    assert(seq![entry].skip(1) =~= Seq::<LruEntryView<T>>::empty());
    assert(held_bytes(seq![entry]) == entry.size) by {
        reveal_with_fuel(held_bytes, 2);
    }
}

/// An entry taken out takes its size with it.
pub proof fn lemma_held_bytes_remove<T>(entries: Seq<LruEntryView<T>>, i: int)
    requires
        0 <= i < entries.len(),
    ensures
        held_bytes(entries.remove(i)) + entries[i].size == held_bytes(entries),
{
    assert(entries.remove(i) =~= entries.take(i) + entries.skip(i + 1));
    lemma_held_bytes_concat(entries.take(i), entries.skip(i + 1));
    assert(entries.take(i) + entries.skip(i) =~= entries);
    lemma_held_bytes_concat(entries.take(i), entries.skip(i));
    assert(entries.skip(i).skip(1) =~= entries.skip(i + 1));
}

/// The count of victims is the least number of oldest entries whose leaving
/// makes room for `size` bytes.
pub proof fn lemma_lru_victims_is_least<T>(entries: Seq<LruEntryView<T>>, size: nat, capacity: nat)
    requires
        size <= capacity,
    ensures
        lru_victims(entries, size, capacity) <= entries.len(),
        held_bytes(entries.skip(lru_victims(entries, size, capacity) as int)) + size <= capacity,
        forall|m: int|
            0 <= m < lru_victims(entries, size, capacity) ==> held_bytes(#[trigger] entries.skip(m))
                + size > capacity,
    decreases entries.len(),
{
    let n = lru_victims(entries, size, capacity);
    assert(entries.skip(0) =~= entries);
    if held_bytes(entries) + size <= capacity || entries.len() == 0 {
    } else {
        let rest = entries.skip(1);
        lemma_lru_victims_is_least(rest, size, capacity);
        assert forall|m: int| 1 <= m <= rest.len() + 1 implies #[trigger] entries.skip(m)
            == rest.skip(m - 1) by {
            assert(entries.skip(m) =~= rest.skip(m - 1));
        }
        assert forall|m: int| 0 <= m < n implies held_bytes(#[trigger] entries.skip(m)) + size
            > capacity by {
            if m >= 1 {
                assert(entries.skip(m) == rest.skip(m - 1));
            }
        }
    }
}

/// The entries of a list, each as a mathematical value.
pub open spec fn lru_entry_views<T>(entries: Seq<LruEntry<T>>) -> Seq<LruEntryView<T>> {
    Seq::new(
        entries.len(),
        |i: int| LruEntryView { key: entries[i].key@, value: entries[i].value, size: entries[i].size as nat },
    )
}

/// The in-process tier: values by key, bounded by a byte capacity.
pub struct LruBytes<T> {
    capacity: usize,
    usage: usize,
    entries: Vec<LruEntry<T>>,
}

impl<T> View for LruBytes<T> {
    type V = LruView<T>;

    closed spec fn view(&self) -> LruView<T> {
        LruView {
            capacity: self.capacity as nat,
            usage: self.usage as nat,
            entries: lru_entry_views(self.entries@),
        }
    }
}

impl<T> LruBytes<T> {
    /// The tier is well formed.
    pub open spec fn wf(&self) -> bool {
        self@.wf()
    }

    /// An empty tier that holds at most `capacity` bytes.
    pub fn new(capacity: usize) -> (cache: Self)
        ensures
            cache.wf(),
            cache@ == (LruView::<T> { capacity: capacity as nat, usage: 0, entries: Seq::empty() }),
    {
        let cache = LruBytes { capacity, usage: 0, entries: Vec::new() };
        assert(cache@.entries =~= Seq::<LruEntryView<T>>::empty());
        cache
    }

    fn find(&self, key: &String) -> (found: Option<usize>)
        requires
            self.wf(),
        ensures
            match found {
                Some(i) => i < self@.entries.len() && lru_holds(self@.entries, key@) && i
                    == lru_position(self@.entries, key@),
                None => !lru_holds(self@.entries, key@),
            },
    {
        let mut i: usize = 0;
        while i < self.entries.len()
            invariant
                i <= self.entries@.len(),
                self.wf(),
                forall|j: int| 0 <= j < i ==> (#[trigger] self@.entries[j]).key != key@,
            decreases self.entries@.len() - i,
        {
            if self.entries[i].key == *key {
                proof {
                    assert(self@.entries[i as int].key == key@);
                    let p = lru_position(self@.entries, key@);
                    assert(self@.entries[p].key == self@.entries[i as int].key);
                }
                return Some(i);
            }
            i += 1;
        }
        None
    }

    /// Point lookup: the value stored under `key`, if there is one. Reading does
    /// not change the order in which entries are evicted.
    pub fn get(&self, key: &str) -> (value: Option<&T>)
        requires
            self.wf(),
        ensures
            match value {
                Some(v) => lru_lookup(self@.entries, key@) == Some(*v),
                None => lru_lookup(self@.entries, key@) is None,
            },
    {
        let key = key.to_owned();
        match self.find(&key) {
            Some(i) => Some(&self.entries[i].value),
            None => None,
        }
    }

    /// Stores `value` under `key`, accounted for `size` bytes.
    ///
    /// A value larger than the capacity is dropped: the tier is a best-effort
    /// accelerator, and this is no error. Otherwise the oldest entries are
    /// evicted until the value fits, and it becomes the newest entry.
    pub fn put(&mut self, key: String, value: T, size: usize)
        requires
            old(self).wf(),
        ensures
            final(self).wf(),
            final(self)@ == old(self)@.put(key@, value, size as nat),
    {
        if size > self.capacity {
            return ;
        }
        let ghost start = self@;
        // An entry under the same key makes way for the new one.
        match self.find(&key) {
            Some(i) => {
                proof {
                    lemma_held_bytes_remove(start.entries, i as int);
                }
                let replaced = self.entries.remove(i);
                self.usage -= replaced.size;
                proof {
                    assert(self@.entries =~= start.entries.remove(i as int));
                    let q = self@.entries;
                    assert forall|a: int, b: int|
                        0 <= a < q.len() && 0 <= b < q.len() && a != b implies (#[trigger] q[a]).key
                        != (#[trigger] q[b]).key by {
                        let a0 = if a < i { a } else { a + 1 };
                        let b0 = if b < i { b } else { b + 1 };
                        assert(q[a] == start.entries[a0]);
                        assert(q[b] == start.entries[b0]);
                    }
                    assert(!lru_holds(q, key@)) by {
                        if lru_holds(q, key@) {
                            let a = lru_position(q, key@);
                            let a0 = if a < i { a } else { a + 1 };
                            assert(q[a] == start.entries[a0]);
                            assert(start.entries[a0].key == start.entries[i as int].key);
                        }
                    }
                }
            },
            None => {},
        }
        let ghost base = self@.entries;
        assert(base == lru_without(start.entries, key@));
        let ghost n = lru_victims(base, size as nat, self.capacity as nat);
        let ghost mut k: int = 0;
        proof {
            assert(base.skip(0) =~= base);
        }
        // Evict items until we have enough space.
        while size > self.capacity - self.usage
            invariant
                size <= self.capacity,
                self.capacity == old(self).capacity,
                self.usage <= self.capacity,
                self.usage == held_bytes(self@.entries),
                0 <= k <= base.len(),
                self@.entries == base.skip(k),
                n == k + lru_victims(base.skip(k), size as nat, self.capacity as nat),
                lru_distinct(base),
                !lru_holds(base, key@),
            decreases self.entries@.len(),
        {
            let oldest = self.entries.remove(0);
            proof {
                assert(self@.entries =~= base.skip(k).skip(1));
                assert(base.skip(k).skip(1) =~= base.skip(k + 1));
                assert(base.skip(k)[0].size == oldest.size);
                k = k + 1;
            }
            self.usage -= oldest.size;
        }
        proof {
            let kept = base.skip(k);
            let newest = LruEntryView { key: key@, value, size: size as nat };
            lemma_held_bytes_push(kept, newest);
            assert forall|a: int, b: int|
                0 <= a < kept.len() + 1 && 0 <= b < kept.len() + 1 && a != b implies (
            #[trigger] kept.push(newest)[a]).key != (#[trigger] kept.push(newest)[b]).key by {
                if a < kept.len() {
                    assert(kept.push(newest)[a] == base[a + k]);
                }
                if b < kept.len() {
                    assert(kept.push(newest)[b] == base[b + k]);
                }
            }
        }
        self.entries.push(LruEntry { key, value, size });
        self.usage += size;
        proof {
            assert(self@.entries =~= base.skip(k).push(
                LruEntryView { key: key@, value, size: size as nat },
            ));
        }
    }
}

} // verus!
