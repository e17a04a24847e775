//! What holds of the persistent tier over whole sequences of writes.

use vstd::prelude::*;
use crate::model::{
    can_restore, empty_cache, evict_oldest, evicted_count, excess, install, install_at, leaving,
    lemma_evict_oldest_any, lemma_put_keeps_invariants, lemma_retire, persisted, put_spec,
    record_position, restore_all, retire, CacheView,
};
use crate::planner::{lemma_victim_count_is_least, still_required, victim_count};
use crate::recency::{
    distinct_record_keys, lemma_record_keys_take, lemma_total_size_push, lemma_total_size_split,
    record_keys, records_hold, total_size, RecordView,
};

verus! {

/// The tier after a sequence of writes, each a key and a value, made in order.
pub open spec fn put_all(s: CacheView, writes: Seq<(Seq<u8>, Seq<u8>)>) -> CacheView
    decreases writes.len(),
{
    if writes.len() == 0 {
        s
    } else {
        put_spec(put_all(s, writes.drop_last()), writes.last().0, writes.last().1)
    }
}

/// The bytes of the values that a region holds, all together.
pub open spec fn data_bytes(data: Map<Seq<u8>, Seq<u8>>) -> nat
    decreases data.dom().len(),
    when data.dom().finite()
{
    if data.dom().len() == 0 {
        0
    } else {
        let key = data.dom().choose();
        data[key].len() + data_bytes(data.remove(key))
    }
}

/// The bytes of a region are those of any one of its values and those of the
/// rest.
pub proof fn lemma_data_bytes_remove(data: Map<Seq<u8>, Seq<u8>>, key: Seq<u8>)
    requires
        data.dom().finite(),
        data.contains_key(key),
    ensures
        data_bytes(data) == data[key].len() + data_bytes(data.remove(key)),
    decreases data.dom().len(),
{
    let first = data.dom().choose();
    if data.dom().len() == 0 {
        assert(false);
    } else if first != key {
        let without_first = data.remove(first);
        let without_key = data.remove(key);
        assert(data.contains_key(first)) by {
            vstd::set_lib::lemma_set_empty_equivalency_len(data.dom());
        }
        lemma_data_bytes_remove(without_first, key);
        assert(without_key.dom().finite());
        assert(without_key.dom().len() > 0) by {
            assert(without_key.dom().contains(first));
            vstd::set_lib::lemma_set_empty_equivalency_len(without_key.dom());
        }
        lemma_data_bytes_remove(without_key, first);
        assert(without_first.remove(key) =~= without_key.remove(first));
    }
}

/// Keys and records correspond one to one, and each record holds the size of
/// the value stored under its key.
pub open spec fn indexed(data: Map<Seq<u8>, Seq<u8>>, records: Seq<RecordView>) -> bool {
    &&& distinct_record_keys(records)
    &&& forall|key: Seq<u8>| #[trigger] data.contains_key(key) <==> records_hold(records, key)
    &&& forall|i: int|
        0 <= i < records.len() ==> (#[trigger] records[i]).size == data[records[i].key].len()
}

/// Where keys and records correspond, the sizes in the records add up to the
/// bytes of the values that are stored.
pub proof fn lemma_records_account_for_data(data: Map<Seq<u8>, Seq<u8>>, records: Seq<RecordView>)
    requires
        indexed(data, records),
    ensures
        data.dom().finite(),
        data.dom().len() == records.len(),
        data_bytes(data) == total_size(records),
    decreases records.len(),
{
    if records.len() == 0 {
        assert(data.dom() =~= Set::<Seq<u8>>::empty()) by {
            assert forall|key: Seq<u8>| !data.dom().contains(key) by {
                if data.contains_key(key) {
                    assert(records_hold(records, key));
                }
            }
        }
    } else {
        let oldest = records[0];
        let rest = records.skip(1);
        let fewer = data.remove(oldest.key);
        assert forall|a: int| 0 <= a < rest.len() implies #[trigger] rest[a] == records[a + 1] by {}
        assert(indexed(fewer, rest)) by {
            assert forall|a: int, b: int|
                0 <= a < rest.len() && 0 <= b < rest.len() && a != b implies (#[trigger] rest[a]).key
                != (#[trigger] rest[b]).key by {
                assert(rest[a] == records[a + 1]);
                assert(rest[b] == records[b + 1]);
            }
            assert forall|key: Seq<u8>| #[trigger] fewer.contains_key(key) <==> records_hold(rest, key) by {
                if records_hold(rest, key) {
                    let a = record_position(rest, key);
                    assert(rest[a] == records[a + 1]);
                    assert(records[a + 1].key != records[0].key);
                    assert(records_hold(records, key));
                }
                if fewer.contains_key(key) {
                    assert(data.contains_key(key));
                    let p = record_position(records, key);
                    assert(p != 0);
                    assert(rest[p - 1] == records[p]);
                }
            }
            assert forall|a: int| 0 <= a < rest.len() implies (#[trigger] rest[a]).size
                == fewer[rest[a].key].len() by {
                assert(rest[a] == records[a + 1]);
                assert(records[a + 1].key != records[0].key);
            }
        }
        lemma_records_account_for_data(fewer, rest);
        assert(records_hold(records, oldest.key));
        assert(data.dom() =~= fewer.dom().insert(oldest.key));
        lemma_data_bytes_remove(data, oldest.key);
    }
}

/// Budget ceiling and exact accounting: whatever is written to a well-formed
/// tier, and in whatever order, afterwards the tier is well formed, its usage
/// counter is within the disk budget, and the counter is the sum of the sizes
/// of the values that the object data holds.
pub proof fn lemma_writes_keep_invariants(s: CacheView, writes: Seq<(Seq<u8>, Seq<u8>)>)
    requires
        s.wf(),
    ensures
        put_all(s, writes).wf(),
        put_all(s, writes).disk_budget == s.disk_budget,
        put_all(s, writes).resident_bytes() <= s.disk_budget,
        put_all(s, writes).data.dom().finite(),
        put_all(s, writes).usage == Some(data_bytes(put_all(s, writes).data)),
    decreases writes.len(),
{
    if writes.len() > 0 {
        lemma_writes_keep_invariants(s, writes.drop_last());
        lemma_put_keeps_invariants(
            put_all(s, writes.drop_last()),
            writes.last().0,
            writes.last().1,
        );
    }
    let t = put_all(s, writes);
    lemma_records_account_for_data(t.data, t.recency);
}

/// Oversized rejection: a value larger than the disk budget leaves the tier as
/// it was.
pub proof fn lemma_oversized_write_changes_nothing(s: CacheView, key: Seq<u8>, value: Seq<u8>)
    requires
        value.len() > s.disk_budget,
    ensures
        put_spec(s, key, value) == s,
{
}

/// No orphaning: after a write, the keys of the object data are exactly the
/// keys of the recency index, and the key of every record that left, unless the
/// write stored it anew, is in neither.
pub proof fn lemma_write_leaves_no_orphans(s: CacheView, key: Seq<u8>, value: Seq<u8>)
    requires
        s.wf(),
        value.len() <= s.disk_budget,
    ensures
        forall|k: Seq<u8>| #[trigger]
            put_spec(s, key, value).data.contains_key(k) <==> records_hold(
                put_spec(s, key, value).recency,
                k,
            ),
        forall|i: int|
            0 <= i < leaving(s, key, value).len() && (#[trigger] leaving(s, key, value)[i]).key
                != key ==> !put_spec(s, key, value).data.contains_key(leaving(s, key, value)[i].key)
                && !records_hold(put_spec(s, key, value).recency, leaving(s, key, value)[i].key),
{
    let t = put_spec(s, key, value);
    lemma_put_keeps_invariants(s, key, value);
    let base = retire(s, key);
    lemma_retire(s, key);
    let n = evicted_count(s, key, value);
    lemma_victim_count_is_least(base.recency, excess(base, value.len()));
    lemma_evict_oldest_any(base, n);
    let gone = leaving(s, key, value);
    let victims = base.recency.take(n as int);
    let kept = base.recency.skip(n as int);
    assert forall|i: int| 0 <= i < gone.len() && (#[trigger] gone[i]).key != key implies !t.data.contains_key(
        gone[i].key,
    ) && !records_hold(t.recency, gone[i].key) by {
        let k = gone[i].key;
        let offset = gone.len() - victims.len();
        if i < offset {
            assert(gone[i] == s.recency[record_position(s.recency, key)]);
        } else {
            let v = i - offset;
            assert(gone[i] == victims[v]);
            assert(victims[v] == base.recency[v]);
            if records_hold(t.recency, k) {
                let p = record_position(t.recency, k);
                assert(p < kept.len());
                assert(t.recency[p] == kept[p]);
                assert(kept[p] == base.recency[p + n]);
            }
        }
    }
}

/// Oldest first: every record that a write evicts is older than every record
/// that stays.
pub proof fn lemma_write_evicts_oldest_first(s: CacheView, key: Seq<u8>, value: Seq<u8>)
    requires
        s.wf(),
        value.len() <= s.disk_budget,
    ensures
        forall|i: int, j: int|
            0 <= i < evicted_count(s, key, value) && 0 <= j < put_spec(s, key, value).recency.len()
                ==> (#[trigger] retire(s, key).recency[i]).token < (#[trigger] put_spec(
                s,
                key,
                value,
            ).recency[j]).token,
{
    let t = put_spec(s, key, value);
    let base = retire(s, key);
    lemma_retire(s, key);
    let n = evicted_count(s, key, value);
    lemma_victim_count_is_least(base.recency, excess(base, value.len()));
    let kept = base.recency.skip(n as int);
    assert forall|i: int, j: int| 0 <= i < n && 0 <= j < t.recency.len() implies (
    #[trigger] base.recency[i]).token < (#[trigger] t.recency[j]).token by {
        if j < kept.len() {
            assert(t.recency[j] == kept[j]);
            assert(kept[j] == base.recency[j + n]);
        } else {
            assert(base.recency[i].token <= base.clock);
        }
    }
}

/// Records of one size account for as many times that size as there are
/// records.
pub proof fn lemma_total_size_uniform(records: Seq<RecordView>, size: nat)
    requires
        forall|i: int| 0 <= i < records.len() ==> (#[trigger] records[i]).size == size,
    ensures
        total_size(records) == records.len() * size,
    decreases records.len(),
{
    if records.len() > 0 {
        let rest = records.skip(1);
        assert forall|i: int| 0 <= i < rest.len() implies (#[trigger] rest[i]).size == size by {
            assert(rest[i] == records[i + 1]);
        }
        lemma_total_size_uniform(rest, size);
        assert(records.len() * size == size + rest.len() * size) by (nonlinear_arith)
            requires
                records.len() == rest.len() + 1,
        ;
    } else {
        assert(records.len() * size == 0) by (nonlinear_arith)
            requires
                records.len() == 0,
        ;
    }
}

/// The number of entries that are resident after `written` writes of one size
/// to an empty tier that fits `fit` of them.
pub open spec fn window(written: nat, fit: nat) -> nat {
    if written < fit {
        written
    } else {
        fit
    }
}

/// The state of a tier that started empty and took `writes`, all of distinct
/// keys and of one size: its records are those of the last writes, as many as
/// fit, in the order in which they were written.
pub open spec fn holds_last_writes(
    t: CacheView,
    writes: Seq<(Seq<u8>, Seq<u8>)>,
    fit: nat,
) -> bool {
    let resident = window(writes.len(), fit);
    &&& t.recency.len() == resident
    &&& forall|j: int|
        0 <= j < resident ==> (#[trigger] t.recency[j]).key == writes[writes.len() - resident + j].0
    &&& forall|j: int|
        0 <= j < resident ==> t.data[(#[trigger] writes[writes.len() - resident + j]).0]
            == writes[writes.len() - resident + j].1
}

/// The sliding window behind oldest-first eviction, for every number of
/// writes.
pub proof fn lemma_window_slides(
    memory_budget: nat,
    disk_budget: nat,
    writes: Seq<(Seq<u8>, Seq<u8>)>,
    size: nat,
    fit: nat,
)
    requires
        forall|i: int, j: int|
            0 <= i < writes.len() && 0 <= j < writes.len() && i != j ==> (#[trigger] writes[i]).0
                != (#[trigger] writes[j]).0,
        forall|i: int| 0 <= i < writes.len() ==> (#[trigger] writes[i]).1.len() == size,
        fit * size <= disk_budget < (fit + 1) * size,
    ensures
        put_all(empty_cache(memory_budget, disk_budget), writes).wf(),
        put_all(empty_cache(memory_budget, disk_budget), writes).disk_budget == disk_budget,
        holds_last_writes(put_all(empty_cache(memory_budget, disk_budget), writes), writes, fit),
    decreases writes.len(),
{
    assert(size > 0) by (nonlinear_arith)
        requires
            disk_budget < (fit + 1) * size,
    ;
    let start = empty_cache(memory_budget, disk_budget);
    assert(start.wf()) by {
        assert(total_size(start.recency) == 0);
    }
    lemma_writes_keep_invariants(start, writes);
    let t = put_all(start, writes);
    if writes.len() == 0 {
    } else {
        let earlier = writes.drop_last();
        let (key, value) = writes.last();
        assert forall|i: int| 0 <= i < earlier.len() implies #[trigger] earlier[i] == writes[i] by {}
        lemma_window_slides(memory_budget, disk_budget, earlier, size, fit);
        let s = put_all(start, earlier);
        let held = window(earlier.len(), fit);
        assert(t == put_spec(s, key, value));
        assert(value.len() == size);
        if fit == 0 {
            assert(size > disk_budget) by (nonlinear_arith)
                requires
                    disk_budget < (fit + 1) * size,
                    fit == 0,
            ;
        } else {
            assert(size <= fit * size) by (nonlinear_arith)
                requires
                    fit >= 1,
                    size >= 0,
            ;
            // The key is new to the tier: nothing is replaced.
            assert(!records_hold(s.recency, key)) by {
                if records_hold(s.recency, key) {
                    let p = record_position(s.recency, key);
                    assert(s.recency[p].key == earlier[earlier.len() - held + p].0);
                    assert(writes[earlier.len() - held + p].0 != writes[writes.len() - 1].0);
                }
            }
            assert(retire(s, key) == s);
            assert forall|i: int| 0 <= i < s.recency.len() implies (#[trigger] s.recency[i]).size
                == size by {
                assert(s.recency[i].key == earlier[earlier.len() - held + i].0);
                assert(s.data[earlier[earlier.len() - held + i].0] == earlier[earlier.len() - held
                    + i].1);
            }
            lemma_total_size_uniform(s.recency, size);
            assert(s.resident_bytes() == held * size);
            let required = excess(s, size);
            let n = victim_count(s.recency, required);
            if held < fit {
                assert(held * size + size <= fit * size) by (nonlinear_arith)
                    requires
                        held < fit,
                        size >= 0,
                ;
                assert(required == 0);
                assert(n == 0);
                assert(s.recency.skip(0) =~= s.recency);
                assert(s.recency.take(0) =~= Seq::<RecordView>::empty());
                assert(record_keys(s.recency.take(0)) =~= Set::<Seq<u8>>::empty());
                assert(s.data.remove_keys(Set::<Seq<u8>>::empty()) =~= s.data);
            } else {
                assert(held == fit);
                assert((fit + 1) * size == fit * size + size) by (nonlinear_arith);
                assert(0 < required <= size);
                assert(still_required(required, s.recency[0].size) == 0);
                assert(victim_count(s.recency.skip(1), 0) == 0);
                assert(n == 1);
                assert(record_keys(s.recency.take(1)) =~= set![s.recency[0].key]) by {
                    assert forall|k: Seq<u8>| record_keys(s.recency.take(1)).contains(k)
                        <==> k == s.recency[0].key by {
                        if records_hold(s.recency.take(1), k) {
                            let a = record_position(s.recency.take(1), k);
                            assert(a == 0);
                        }
                        if k == s.recency[0].key {
                            assert(s.recency.take(1)[0].key == k);
                        }
                    }
                }
            }
            let kept = evict_oldest(s, n);
            lemma_evict_oldest_any(s, n);
            assert(t == install(kept, key, value));
            let resident = window(writes.len(), fit);
            assert(t.recency.len() == resident);
            assert forall|j: int| 0 <= j < resident implies (#[trigger] t.recency[j]).key
                == writes[writes.len() - resident + j].0 by {
                if j < resident - 1 {
                    assert(t.recency[j] == kept.recency[j]);
                    assert(kept.recency[j] == s.recency[j + n]);
                    assert(s.recency[j + n].key == earlier[earlier.len() - held + j + n].0);
                }
            }
            assert forall|j: int| 0 <= j < resident implies t.data[(#[trigger] writes[writes.len()
                - resident + j]).0] == writes[writes.len() - resident + j].1 by {
                if j < resident - 1 {
                    let w = writes.len() - resident + j;
                    assert(earlier[w] == writes[w]);
                    assert(writes[w].0 != writes[writes.len() - 1].0);
                    assert(w == earlier.len() - held + (j + n));
                    assert(s.data[earlier[w].0] == earlier[w].1);
                    assert(kept.recency[j] == s.recency[j + n]);
                    assert(kept.recency[j].key == writes[w].0);
                    assert(records_hold(kept.recency, writes[w].0));
                    assert(kept.data.contains_key(writes[w].0));
                    assert(kept.data[writes[w].0] == s.data[writes[w].0]);
                }
            }
        }
    }
}

/// Oldest-first eviction: after writes under distinct keys, all of one size, to
/// an empty tier whose budget fits exactly `fit` of them and not all, the
/// resident entries are exactly the last `fit` that were written, each with its
/// value.
pub proof fn lemma_most_recent_writes_stay(
    memory_budget: nat,
    disk_budget: nat,
    writes: Seq<(Seq<u8>, Seq<u8>)>,
    size: nat,
    fit: nat,
)
    requires
        forall|i: int, j: int|
            0 <= i < writes.len() && 0 <= j < writes.len() && i != j ==> (#[trigger] writes[i]).0
                != (#[trigger] writes[j]).0,
        forall|i: int| 0 <= i < writes.len() ==> (#[trigger] writes[i]).1.len() == size,
        fit * size <= disk_budget < (fit + 1) * size,
        fit < writes.len(),
    ensures
        forall|k: Seq<u8>| #[trigger]
            put_all(empty_cache(memory_budget, disk_budget), writes).data.contains_key(k) <==> (
            exists|i: int| writes.len() - fit <= i < writes.len() && (#[trigger] writes[i]).0 == k),
        forall|i: int|
            writes.len() - fit <= i < writes.len() ==> put_all(
                empty_cache(memory_budget, disk_budget),
                writes,
            ).data[(#[trigger] writes[i]).0] == writes[i].1,
{
    lemma_window_slides(memory_budget, disk_budget, writes, size, fit);
    let t = put_all(empty_cache(memory_budget, disk_budget), writes);
    let first = writes.len() - fit;
    assert(window(writes.len(), fit) == fit);
    assert forall|k: Seq<u8>| #[trigger] t.data.contains_key(k) <==> (exists|i: int|
        first <= i < writes.len() && (#[trigger] writes[i]).0 == k) by {
        if t.data.contains_key(k) {
            let p = record_position(t.recency, k);
            assert(t.recency[p].key == writes[first + p].0);
        }
        if exists|i: int| first <= i < writes.len() && (#[trigger] writes[i]).0 == k {
            let i = choose|i: int| first <= i < writes.len() && (#[trigger] writes[i]).0 == k;
            assert(t.recency[i - first].key == k);
            assert(records_hold(t.recency, k));
        }
    }
    assert forall|i: int| first <= i < writes.len() implies t.data[(#[trigger] writes[i]).0]
        == writes[i].1 by {
        let j = i - first;
        assert(writes[writes.len() - fit + j] == writes[i]);
    }
}

/// The tier that holds the `n` oldest entries of `s` and nothing else, as it is
/// once they have been taken back into an empty tier.
pub open spec fn oldest_entries(s: CacheView, n: int) -> CacheView {
    CacheView {
        memory_budget: s.memory_budget,
        disk_budget: s.disk_budget,
        data: s.data.restrict(record_keys(s.recency.take(n))),
        recency: s.recency.take(n),
        usage: Some(total_size(s.recency.take(n))),
        clock: if n == 0 {
            0
        } else {
            s.recency[n - 1].token
        },
    }
}

/// Taking back the first `n` of the entries that a well-formed tier keeps on
/// durable storage gives the tier of its `n` oldest entries.
pub proof fn lemma_restore_oldest_entries(s: CacheView, n: int)
    requires
        s.wf(),
        0 <= n <= s.recency.len(),
    ensures
        restore_all(empty_cache(s.memory_budget, s.disk_budget), persisted(s).take(n)) == Some(
            oldest_entries(s, n),
        ),
    decreases n,
{
    let start = empty_cache(s.memory_budget, s.disk_budget);
    let stored = persisted(s);
    if n == 0 {
        assert(stored.take(0) =~= Seq::<(nat, Seq<u8>, Seq<u8>)>::empty());
        assert(s.recency.take(0) =~= Seq::<RecordView>::empty());
        assert(record_keys(s.recency.take(0)) =~= Set::<Seq<u8>>::empty());
        assert(s.data.restrict(Set::<Seq<u8>>::empty()) =~= Map::<Seq<u8>, Seq<u8>>::empty());
        assert(oldest_entries(s, 0) == start);
    } else {
        lemma_restore_oldest_entries(s, n - 1);
        let t = oldest_entries(s, n - 1);
        let record = s.recency[n - 1];
        let value = s.data[record.key];
        assert(stored.take(n).drop_last() =~= stored.take(n - 1));
        assert(stored.take(n).last() == (record.token, record.key, value));
        assert(records_hold(s.recency, record.key));
        assert(s.recency.take(n) =~= s.recency.take(n - 1).push(record));
        lemma_total_size_push(s.recency.take(n - 1), record);
        lemma_total_size_split(s.recency, n);
        lemma_record_keys_take(s.recency, n - 1);
        assert(!t.data.contains_key(record.key)) by {
            if records_hold(s.recency.take(n - 1), record.key) {
                let a = record_position(s.recency.take(n - 1), record.key);
                assert(s.recency.take(n - 1)[a] == s.recency[a]);
            }
        }
        if n >= 2 {
            assert(s.recency[n - 2].token < s.recency[n - 1].token);
        }
        assert(can_restore(t, record.token, record.key, value));
        let next = install_at(t, record.token, record.key, value);
        assert(next.data =~= oldest_entries(s, n).data);
        assert(next == oldest_entries(s, n));
    }
}

/// Re-opening: the entries that a well-formed tier keeps on durable storage,
/// taken back into an empty tier of the same budgets, give the same object
/// data, the same recency index and the same usage counter.
pub proof fn lemma_reopening_preserves_state(s: CacheView)
    requires
        s.wf(),
    ensures
        restore_all(empty_cache(s.memory_budget, s.disk_budget), persisted(s)) is Some,
        restore_all(empty_cache(s.memory_budget, s.disk_budget), persisted(s))->Some_0.data
            == s.data,
        restore_all(empty_cache(s.memory_budget, s.disk_budget), persisted(s))->Some_0.recency
            == s.recency,
        restore_all(empty_cache(s.memory_budget, s.disk_budget), persisted(s))->Some_0.usage
            == s.usage,
        restore_all(empty_cache(s.memory_budget, s.disk_budget), persisted(s))->Some_0.disk_budget
            == s.disk_budget,
{
    let n = s.recency.len() as int;
    lemma_restore_oldest_entries(s, n);
    assert(persisted(s).take(n) =~= persisted(s));
    assert(s.recency.take(n) =~= s.recency);
    assert(s.data.restrict(record_keys(s.recency)) =~= s.data);
}

} // verus!
