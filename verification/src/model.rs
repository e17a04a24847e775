//! The persistent tier as a mathematical value: its three regions, the
//! invariants that tie them together, and what a write makes of them.

use vstd::prelude::*;
use crate::planner::{lemma_victim_count_is_least, victim_count};
use crate::recency::{
    ascending, distinct_record_keys, lemma_total_size_push, lemma_total_size_remove,
    lemma_total_size_split, record_keys, records_hold, total_size, RecordView,
};

verus! {

/// The state of the persistent tier between two writes.
pub struct CacheView {
    /// The memory budget that the store's own block cache is given, in bytes.
    pub memory_budget: nat,
    /// The ceiling on the resident bytes.
    pub disk_budget: nat,
    /// The object-data region: the resident values by key.
    pub data: Map<Seq<u8>, Seq<u8>>,
    /// The recency-index region: one record per resident entry, oldest first.
    pub recency: Seq<RecordView>,
    /// The usage-counter region: the resident bytes, once the counter is set up.
    pub usage: Option<nat>,
    /// The last recency token that was handed out.
    pub clock: nat,
}

impl CacheView {
    /// The resident bytes as the usage counter gives them: an absent counter
    /// reads as zero.
    pub open spec fn resident_bytes(self) -> nat {
        match self.usage {
            Some(bytes) => bytes,
            None => 0,
        }
    }

    /// The usage counter is the sum of the sizes of the resident entries.
    pub open spec fn accounts_exactly(self) -> bool {
        self.usage == Some(total_size(self.recency))
    }

    /// The resident bytes are within the disk budget.
    pub open spec fn within_budget(self) -> bool {
        total_size(self.recency) <= self.disk_budget
    }

    /// Keys and recency records correspond one to one, and each record holds
    /// the size of the value stored under its key.
    pub open spec fn indexed_exactly(self) -> bool {
        &&& distinct_record_keys(self.recency)
        &&& forall|key: Seq<u8>| #[trigger]
            self.data.contains_key(key) <==> records_hold(self.recency, key)
        &&& forall|i: int|
            0 <= i < self.recency.len() ==> (#[trigger] self.recency[i]).size
                == self.data[self.recency[i].key].len()
    }

    /// Tokens are unique, grow from the oldest record to the newest, and each is
    /// one that the clock has handed out: above zero and not ahead of the clock.
    pub open spec fn ordered_by_token(self) -> bool {
        &&& ascending(self.recency)
        &&& forall|i: int|
            0 <= i < self.recency.len() ==> 0 < (#[trigger] self.recency[i]).token <= self.clock
    }

    /// The invariants of the tier, which hold between any two writes.
    pub open spec fn wf(self) -> bool {
        &&& self.accounts_exactly()
        &&& self.within_budget()
        &&& self.indexed_exactly()
        &&& self.ordered_by_token()
    }
}

/// The tier with nothing resident.
pub open spec fn empty_cache(memory_budget: nat, disk_budget: nat) -> CacheView {
    CacheView {
        memory_budget,
        disk_budget,
        data: Map::empty(),
        recency: Seq::empty(),
        usage: Some(0nat),
        clock: 0,
    }
}

/// The position of the record that was written for `key`.
pub open spec fn record_position(records: Seq<RecordView>, key: Seq<u8>) -> int {
    choose|i: int| 0 <= i < records.len() && (#[trigger] records[i]).key == key
}

/// The tier once the entry under `key`, if there is one, has left it: its value,
/// its recency record and its bytes.
pub open spec fn retire(s: CacheView, key: Seq<u8>) -> CacheView {
    if records_hold(s.recency, key) {
        let i = record_position(s.recency, key);
        CacheView {
            data: s.data.remove(key),
            recency: s.recency.remove(i),
            usage: Some((s.resident_bytes() - s.recency[i].size) as nat),
            ..s
        }
    } else {
        s
    }
}

/// The bytes that must be freed before `size` more fit in the budget.
pub open spec fn excess(s: CacheView, size: nat) -> nat {
    if s.resident_bytes() + size > s.disk_budget {
        (s.resident_bytes() + size - s.disk_budget) as nat
    } else {
        0
    }
}

/// The tier once its `n` oldest entries have left it.
pub open spec fn evict_oldest(s: CacheView, n: nat) -> CacheView {
    CacheView {
        data: s.data.remove_keys(record_keys(s.recency.take(n as int))),
        recency: s.recency.skip(n as int),
        usage: Some((s.resident_bytes() - total_size(s.recency.take(n as int))) as nat),
        ..s
    }
}

/// The tier once `value` is stored under `key` as its newest entry, with the
/// recency token `token`.
pub open spec fn install_at(s: CacheView, token: nat, key: Seq<u8>, value: Seq<u8>) -> CacheView {
    CacheView {
        data: s.data.insert(key, value),
        recency: s.recency.push(RecordView { token, key, size: value.len() }),
        usage: Some(s.resident_bytes() + value.len()),
        clock: token,
        ..s
    }
}

/// The tier once `value` is stored under `key` as its newest entry, with the
/// next recency token.
pub open spec fn install(s: CacheView, key: Seq<u8>, value: Seq<u8>) -> CacheView {
    install_at(s, s.clock + 1, key, value)
}

/// Whether an entry that was resident before can be taken back as the newest
/// one: its token is ahead of the clock, its key is not resident, and its
/// value fits in what is left of the budget.
pub open spec fn can_restore(s: CacheView, token: nat, key: Seq<u8>, value: Seq<u8>) -> bool {
    &&& token > s.clock
    &&& !s.data.contains_key(key)
    &&& s.resident_bytes() + value.len() <= s.disk_budget
}

/// The tier once the `entries`, each a token, a key and a value, are taken back
/// in order; nothing where one of them cannot be.
pub open spec fn restore_all(s: CacheView, entries: Seq<(nat, Seq<u8>, Seq<u8>)>) -> Option<
    CacheView,
>
    decreases entries.len(),
{
    if entries.len() == 0 {
        Some(s)
    } else {
        let (token, key, value) = entries.last();
        match restore_all(s, entries.drop_last()) {
            Some(t) => if can_restore(t, token, key, value) {
                Some(install_at(t, token, key, value))
            } else {
                None
            },
            None => None,
        }
    }
}

/// What of a tier is kept on durable storage: each resident entry with its
/// token, its key and its value, oldest first.
pub open spec fn persisted(s: CacheView) -> Seq<(nat, Seq<u8>, Seq<u8>)> {
    Seq::new(
        s.recency.len(),
        |i: int| (s.recency[i].token, s.recency[i].key, s.data[s.recency[i].key]),
    )
}

/// The number of oldest entries that a write of `value` under `key` evicts.
pub open spec fn evicted_count(s: CacheView, key: Seq<u8>, value: Seq<u8>) -> nat {
    let base = retire(s, key);
    victim_count(base.recency, excess(base, value.len()))
}

/// What a write of `value` under `key` makes of the tier. A value larger than
/// the disk budget changes nothing. Otherwise an entry already stored under
/// `key` leaves first, then the oldest entries leave until the value fits,
/// and the value becomes the newest entry.
pub open spec fn put_spec(s: CacheView, key: Seq<u8>, value: Seq<u8>) -> CacheView {
    if value.len() > s.disk_budget {
        s
    } else {
        install(evict_oldest(retire(s, key), evicted_count(s, key, value)), key, value)
    }
}

/// The records that a write of `value` under `key` takes out of the tier: the
/// one it replaces, if any, and then the evicted ones from the oldest on.
pub open spec fn leaving(s: CacheView, key: Seq<u8>, value: Seq<u8>) -> Seq<RecordView> {
    let replaced = if records_hold(s.recency, key) {
        seq![s.recency[record_position(s.recency, key)]]
    } else {
        Seq::empty()
    };
    replaced + retire(s, key).recency.take(evicted_count(s, key, value) as int)
}

/// Retiring a key keeps the invariants and leaves no trace of the key.
pub proof fn lemma_retire(s: CacheView, key: Seq<u8>)
    requires
        s.wf(),
    ensures
        retire(s, key).wf(),
        !records_hold(retire(s, key).recency, key),
        !retire(s, key).data.contains_key(key),
        retire(s, key).clock == s.clock,
        retire(s, key).disk_budget == s.disk_budget,
        retire(s, key).memory_budget == s.memory_budget,
{
    let t = retire(s, key);
    if records_hold(s.recency, key) {
        let i = record_position(s.recency, key);
        let r = s.recency;
        let q = t.recency;
        assert(q == r.remove(i));
        assert forall|a: int| 0 <= a < q.len() implies #[trigger] q[a] == r[if a < i {
            a
        } else {
            a + 1
        }] by {}
        lemma_total_size_remove(r, i);
        assert(!records_hold(q, key)) by {
            if records_hold(q, key) {
                let a = record_position(q, key);
                let a0 = if a < i { a } else { a + 1 };
                assert(q[a] == r[a0]);
                assert(r[a0].key == r[i].key);
            }
        }
        assert(distinct_record_keys(q)) by {
            assert forall|a: int, b: int|
                0 <= a < q.len() && 0 <= b < q.len() && a != b implies (#[trigger] q[a]).key
                != (#[trigger] q[b]).key by {
                let a0 = if a < i { a } else { a + 1 };
                let b0 = if b < i { b } else { b + 1 };
                assert(q[a] == r[a0]);
                assert(q[b] == r[b0]);
            }
        }
        assert forall|k: Seq<u8>| #[trigger] t.data.contains_key(k) <==> records_hold(q, k) by {
            if records_hold(q, k) {
                let a = record_position(q, k);
                let a0 = if a < i { a } else { a + 1 };
                assert(q[a] == r[a0]);
                assert(records_hold(r, k));
                assert(s.data.contains_key(k));
            }
            if t.data.contains_key(k) {
                assert(s.data.contains_key(k));
                assert(records_hold(r, k));
                let p = record_position(r, k);
                let a = if p < i { p } else { p - 1 };
                assert(q[a] == r[p]);
            }
        }
        assert forall|a: int| 0 <= a < q.len() implies (#[trigger] q[a]).size == t.data[q[a].key].len() by {
            let a0 = if a < i { a } else { a + 1 };
            assert(q[a] == r[a0]);
            assert(r[a0].key != r[i].key);
        }
        assert(ascending(q)) by {
            assert forall|a: int, b: int| 0 <= a < b < q.len() implies (#[trigger] q[a]).token < (
            #[trigger] q[b]).token by {
                let a0 = if a < i { a } else { a + 1 };
                let b0 = if b < i { b } else { b + 1 };
                assert(q[a] == r[a0]);
                assert(q[b] == r[b0]);
            }
        }
        assert forall|a: int| 0 <= a < q.len() implies 0 < (#[trigger] q[a]).token <= t.clock by {
            let a0 = if a < i { a } else { a + 1 };
            assert(q[a] == r[a0]);
        }
    } else {
        assert(!s.data.contains_key(key));
    }
}

/// Evicting the records that the planner counts keeps the invariants and frees
/// at least the bytes that were in excess.
pub proof fn lemma_evict_oldest(s: CacheView, size: nat)
    requires
        s.wf(),
        size <= s.disk_budget,
    ensures
        evict_oldest(s, victim_count(s.recency, excess(s, size))).wf(),
        evict_oldest(s, victim_count(s.recency, excess(s, size))).resident_bytes() + size
            <= s.disk_budget,
        evict_oldest(s, victim_count(s.recency, excess(s, size))).clock == s.clock,
        evict_oldest(s, victim_count(s.recency, excess(s, size))).disk_budget == s.disk_budget,
{
    let n = victim_count(s.recency, excess(s, size));
    lemma_victim_count_is_least(s.recency, excess(s, size));
    lemma_evict_oldest_any(s, n);
    lemma_total_size_split(s.recency, n as int);
    if n == s.recency.len() {
        assert(s.recency.take(n as int) =~= s.recency);
    }
}

/// Evicting any number of the oldest records keeps the invariants.
pub proof fn lemma_evict_oldest_any(s: CacheView, n: nat)
    requires
        s.wf(),
        n <= s.recency.len(),
    ensures
        evict_oldest(s, n).wf(),
        evict_oldest(s, n).resident_bytes() + total_size(s.recency.take(n as int))
            == s.resident_bytes(),
        forall|key: Seq<u8>|
            records_hold(evict_oldest(s, n).recency, key) ==> #[trigger] records_hold(
                s.recency,
                key,
            ),
{
    let t = evict_oldest(s, n);
    let r = s.recency;
    let q = t.recency;
    let gone = r.take(n as int);
    lemma_total_size_split(r, n as int);
    assert forall|a: int| 0 <= a < q.len() implies #[trigger] q[a] == r[a + n] by {}
    assert forall|a: int| 0 <= a < gone.len() implies #[trigger] gone[a] == r[a] by {}
    assert forall|key: Seq<u8>| records_hold(q, key) implies #[trigger] records_hold(r, key) by {
        let a = record_position(q, key);
        assert(q[a] == r[a + n]);
    }
    assert(distinct_record_keys(q)) by {
        assert forall|a: int, b: int|
            0 <= a < q.len() && 0 <= b < q.len() && a != b implies (#[trigger] q[a]).key != (
        #[trigger] q[b]).key by {
            assert(q[a] == r[a + n]);
            assert(q[b] == r[b + n]);
        }
    }
    assert forall|k: Seq<u8>| #[trigger] t.data.contains_key(k) <==> records_hold(q, k) by {
        if records_hold(q, k) {
            let a = record_position(q, k);
            assert(q[a] == r[a + n]);
            assert(records_hold(r, k));
            if records_hold(gone, k) {
                let b = record_position(gone, k);
                assert(gone[b] == r[b]);
                assert(r[b].key == r[a + n].key);
            }
            assert(!record_keys(gone).contains(k));
        }
        if t.data.contains_key(k) {
            assert(s.data.contains_key(k));
            assert(!record_keys(gone).contains(k));
            assert(records_hold(r, k));
            let p = record_position(r, k);
            if p < n {
                assert(gone[p] == r[p]);
                assert(records_hold(gone, k));
            }
            assert(q[p - n] == r[p]);
        }
    }
    assert forall|a: int| 0 <= a < q.len() implies (#[trigger] q[a]).size == t.data[q[a].key].len() by {
        assert(q[a] == r[a + n]);
        assert(records_hold(q, q[a].key));
        assert(t.data.contains_key(q[a].key));
    }
    assert(ascending(q)) by {
        assert forall|a: int, b: int| 0 <= a < b < q.len() implies (#[trigger] q[a]).token < (
        #[trigger] q[b]).token by {
            assert(q[a] == r[a + n]);
            assert(q[b] == r[b + n]);
        }
    }
    assert forall|a: int| 0 <= a < q.len() implies 0 < (#[trigger] q[a]).token <= t.clock by {
        assert(q[a] == r[a + n]);
    }
}

/// Installing a value that fits, under a key that is not resident, keeps the
/// invariants.
pub proof fn lemma_install(s: CacheView, key: Seq<u8>, value: Seq<u8>)
    requires
        s.wf(),
        !records_hold(s.recency, key),
        s.resident_bytes() + value.len() <= s.disk_budget,
    ensures
        install(s, key, value).wf(),
{
    lemma_install_at(s, s.clock + 1, key, value);
}

/// Installing a value that fits, under a key that is not resident and with a
/// token ahead of the clock, keeps the invariants.
pub proof fn lemma_install_at(s: CacheView, token: nat, key: Seq<u8>, value: Seq<u8>)
    requires
        s.wf(),
        token > s.clock,
        !records_hold(s.recency, key),
        s.resident_bytes() + value.len() <= s.disk_budget,
    ensures
        install_at(s, token, key, value).wf(),
{
    let t = install_at(s, token, key, value);
    let r = s.recency;
    let q = t.recency;
    let newest = RecordView { token, key, size: value.len() };
    lemma_total_size_push(r, newest);
    assert forall|a: int| 0 <= a < r.len() implies #[trigger] q[a] == r[a] by {}
    assert(q[r.len() as int] == newest);
    assert(distinct_record_keys(q)) by {
        assert forall|a: int, b: int|
            0 <= a < q.len() && 0 <= b < q.len() && a != b implies (#[trigger] q[a]).key != (
        #[trigger] q[b]).key by {
            if a < r.len() {
                assert(q[a] == r[a]);
            }
            if b < r.len() {
                assert(q[b] == r[b]);
            }
        }
    }
    assert forall|k: Seq<u8>| #[trigger] t.data.contains_key(k) <==> records_hold(q, k) by {
        if records_hold(q, k) {
            let a = record_position(q, k);
            if a < r.len() {
                assert(q[a] == r[a]);
                assert(records_hold(r, k));
            }
        }
        if t.data.contains_key(k) {
            if k == key {
                assert(q[r.len() as int].key == k);
            } else {
                assert(s.data.contains_key(k));
                let p = record_position(r, k);
                assert(q[p] == r[p]);
            }
        }
    }
    assert forall|a: int| 0 <= a < q.len() implies (#[trigger] q[a]).size == t.data[q[a].key].len() by {
        if a < r.len() {
            assert(q[a] == r[a]);
            assert(records_hold(r, r[a].key));
        }
    }
    assert(ascending(q)) by {
        assert forall|a: int, b: int| 0 <= a < b < q.len() implies (#[trigger] q[a]).token < (
        #[trigger] q[b]).token by {
            assert(q[a] == r[a]);
            if b < r.len() {
                assert(q[b] == r[b]);
            }
        }
    }
    assert forall|a: int| 0 <= a < q.len() implies 0 < (#[trigger] q[a]).token <= t.clock by {
        if a < r.len() {
            assert(q[a] == r[a]);
        }
    }
}

/// A write keeps the invariants of the tier: the usage counter stays the sum of
/// the resident sizes and within the budget, and keys and recency records stay
/// in one-to-one correspondence.
pub proof fn lemma_put_keeps_invariants(s: CacheView, key: Seq<u8>, value: Seq<u8>)
    requires
        s.wf(),
    ensures
        put_spec(s, key, value).wf(),
        put_spec(s, key, value).disk_budget == s.disk_budget,
        put_spec(s, key, value).memory_budget == s.memory_budget,
{
    if value.len() <= s.disk_budget {
        let base = retire(s, key);
        lemma_retire(s, key);
        let n = evicted_count(s, key, value);
        lemma_evict_oldest(base, value.len());
        lemma_victim_count_is_least(base.recency, excess(base, value.len()));
        lemma_evict_oldest_any(base, n);
        let rest = evict_oldest(base, n);
        assert(!records_hold(rest.recency, key));
        lemma_install(rest, key, value);
    }
}

/// Where the first entries cannot be taken back, neither can all of them.
pub proof fn lemma_restore_all_prefix(
    s: CacheView,
    entries: Seq<(nat, Seq<u8>, Seq<u8>)>,
    n: int,
)
    requires
        0 <= n <= entries.len(),
        restore_all(s, entries.take(n)) is None,
    ensures
        restore_all(s, entries) is None,
    decreases entries.len(),
{
    if n == entries.len() {
        assert(entries.take(n) =~= entries);
    } else {
        assert(entries.drop_last().take(n) =~= entries.take(n));
        lemma_restore_all_prefix(s, entries.drop_last(), n);
    }
}

} // verus!
