//! The persistent tier's eviction engine: a byte-budgeted store that evicts its
//! oldest entries to make room, and accounts for every resident byte.

use vstd::prelude::*;
use crate::bytes::bytes_to_vec;
use crate::error::CreedmoorError;
use crate::model::{
    can_restore, empty_cache, evict_oldest, excess, install_at, leaving, lemma_evict_oldest,
    lemma_install_at, lemma_put_keeps_invariants, lemma_restore_all_prefix, lemma_retire,
    persisted, put_spec, record_position, restore_all, retire, CacheView,
};
use crate::object_data::ObjectData;
use crate::planner::{gather_keys_for_eviction, lemma_victim_count_is_least, victim_count};
use crate::recency::{
    lemma_record_keys_take, lemma_total_size_remove, lemma_total_size_split, record_keys,
    record_views, records_hold,
    RecencyIndex, RecencyRecord, RecordView,
};

verus! {

/// The direction in which the usage counter moves.
#[derive(Debug, Clone, Copy, PartialEq, Eq)]
pub enum Op {
    Add,
    Sub,
}

impl Op {
    /// The counter after `value` bytes are added to it or taken from it.
    pub open spec fn spec_apply(self, current: nat, value: nat) -> int {
        match self {
            Op::Add => current as int + value as int,
            Op::Sub => current as int - value as int,
        }
    }

    /// Moves a usage counter by `value` bytes. The result must be a counter
    /// again: not below zero and within the machine's range.
    pub fn apply(self, current: u64, value: u64) -> (new_value: u64)
        requires
            0 <= self.spec_apply(current as nat, value as nat) <= u64::MAX,
        ensures
            new_value == self.spec_apply(current as nat, value as nat),
    {
        match self {
            Op::Add => current + value,
            Op::Sub => current - value,
        }
    }
}

/// What one successful write did to the three regions, for whoever mirrors them
/// on durable storage: all of it belongs to one atomic transaction.
pub struct Commit {
    /// The records that left, with the keys whose values left with them: the
    /// replaced entry first, if there was one, then the evicted ones from the
    /// oldest on.
    pub evicted: Vec<RecencyRecord>,
    /// The recency token of the new entry.
    pub token: u128,
    /// The usage counter after the write.
    pub usage: u64,
}

/// A resident entry as durable storage keeps it: its recency token, its key and
/// its value.
pub struct StoredEntry {
    pub token: u128,
    pub key: Vec<u8>,
    pub value: Vec<u8>,
}

/// Stored entries as mathematical values.
pub open spec fn stored_views(entries: Seq<StoredEntry>) -> Seq<(nat, Seq<u8>, Seq<u8>)> {
    Seq::new(entries.len(), |i: int| (entries[i].token as nat, entries[i].key@, entries[i].value@))
}

/// The persistent tier: object data, recency index and usage counter under one
/// disk budget.
pub struct MultiLayerCache {
    memory_budget: usize,
    disk_budget: usize,
    object_data: ObjectData,
    object_lru: RecencyIndex,
    disk_usage: Option<u64>,
    last_token: u128,
}

impl View for MultiLayerCache {
    type V = CacheView;

    closed spec fn view(&self) -> CacheView {
        CacheView {
            memory_budget: self.memory_budget as nat,
            disk_budget: self.disk_budget as nat,
            data: self.object_data@,
            recency: self.object_lru@,
            usage: match self.disk_usage {
                Some(bytes) => Some(bytes as nat),
                None => None,
            },
            clock: self.last_token as nat,
        }
    }
}

impl MultiLayerCache {
    /// The invariants of the regions' representations.
    pub closed spec fn inv(&self) -> bool {
        self.object_data.inv() && self.object_lru.inv()
    }

    /// The tier is well formed: its regions are, and its state satisfies the
    /// invariants of the model.
    pub open spec fn wf(&self) -> bool {
        self.inv() && self@.wf()
    }

    /// A tier with nothing resident and its usage counter set to zero.
    pub fn new(memory_budget: usize, disk_budget: usize) -> (cache: Self)
        ensures
            cache.wf(),
            cache@ == empty_cache(memory_budget as nat, disk_budget as nat),
    {
        let mut cache = MultiLayerCache {
            memory_budget,
            disk_budget,
            object_data: ObjectData::new(),
            object_lru: RecencyIndex::new(),
            disk_usage: None,
            last_token: 0,
        };
        cache.populate_disk_usage();
        cache
    }

    fn get_disk_usage_(&self) -> (current: Option<u64>)
        ensures
            current == self.disk_usage,
    {
        match self.disk_usage {
            Some(current) => Some(current),
            None => None,
        }
    }

    fn populate_disk_usage(&mut self) -> (current: u64)
        ensures
            current == old(self)@.resident_bytes(),
            *final(self) == (MultiLayerCache { disk_usage: Some(current), ..*old(self) }),
    {
        let current = match self.get_disk_usage_() {
            Some(current) => current,
            None => {
                self.disk_usage = Some(0);
                0
            },
        };
        current
    }

    fn get_disk_usage(&mut self) -> (current: u64)
        ensures
            current == old(self)@.resident_bytes(),
            *final(self) == (MultiLayerCache { disk_usage: Some(current), ..*old(self) }),
    {
        self.populate_disk_usage()
    }

    fn update_disk_usage(&mut self, operand: Op, value: u64) -> (new_value: u64)
        requires
            0 <= operand.spec_apply(old(self)@.resident_bytes(), value as nat) <= u64::MAX,
        ensures
            new_value == operand.spec_apply(old(self)@.resident_bytes(), value as nat),
            *final(self) == (MultiLayerCache { disk_usage: Some(new_value), ..*old(self) }),
    {
        let current = match self.disk_usage {
            Some(current) => current,
            None => 0,
        };
        let new_value = operand.apply(current, value);
        self.disk_usage = Some(new_value);
        new_value
    }

    fn fetch_add_disk_usage(&mut self, add: u64) -> (new_value: u64)
        requires
            old(self)@.resident_bytes() + add <= u64::MAX,
        ensures
            new_value == old(self)@.resident_bytes() + add,
            *final(self) == (MultiLayerCache { disk_usage: Some(new_value), ..*old(self) }),
    {
        self.update_disk_usage(Op::Add, add)
    }

    fn fetch_sub_disk_usage(&mut self, sub: u64) -> (new_value: u64)
        requires
            sub <= old(self)@.resident_bytes(),
        ensures
            new_value == old(self)@.resident_bytes() - sub,
            *final(self) == (MultiLayerCache { disk_usage: Some(new_value), ..*old(self) }),
    {
        self.update_disk_usage(Op::Sub, sub)
    }

    fn evict_bytes(&mut self, keys_to_evict: &Vec<Vec<u8>>, total_to_evict: u64) -> (evicted: Vec<
        RecencyRecord,
    >)
        requires
            old(self).inv(),
            keys_to_evict@.len() <= old(self)@.recency.len(),
            forall|i: int|
                0 <= i < keys_to_evict@.len() ==> (#[trigger] keys_to_evict@[i])@ == old(
                    self,
                )@.recency[i].key,
            total_to_evict <= old(self)@.resident_bytes(),
        ensures
            final(self).inv(),
            record_views(evicted@) == old(self)@.recency.take(keys_to_evict@.len() as int),
            final(self)@ == (CacheView {
                data: old(self)@.data.remove_keys(
                    record_keys(old(self)@.recency.take(keys_to_evict@.len() as int)),
                ),
                recency: old(self)@.recency.skip(keys_to_evict@.len() as int),
                usage: Some((old(self)@.resident_bytes() - total_to_evict) as nat),
                ..old(self)@
            }),
    {
        let ghost before = self@;
        let mut evicted: Vec<RecencyRecord> = Vec::new();
        let mut i: usize = 0;
        proof {
            assert(before.recency.skip(0) =~= before.recency);
            assert(before.recency.take(0) =~= Seq::<RecordView>::empty());
            assert(record_views(evicted@) =~= before.recency.take(0));
            assert(record_keys(before.recency.take(0)) =~= Set::<Seq<u8>>::empty());
            assert(before.data.remove_keys(Set::<Seq<u8>>::empty()) =~= before.data);
        }
        while i < keys_to_evict.len()
            invariant
                i <= keys_to_evict@.len(),
                keys_to_evict@.len() <= before.recency.len(),
                forall|j: int|
                    0 <= j < keys_to_evict@.len() ==> (#[trigger] keys_to_evict@[j])@
                        == before.recency[j].key,
                self.inv(),
                record_views(evicted@) == before.recency.take(i as int),
                self@ == (CacheView {
                    data: before.data.remove_keys(record_keys(before.recency.take(i as int))),
                    recency: before.recency.skip(i as int),
                    ..before
                }),
            decreases keys_to_evict@.len() - i,
        {
            let ghost data_before = self.object_data@;
            let ghost evicted_before = evicted@;
            let oldest = self.object_lru.pop_min();
            let _value = self.object_data.remove(keys_to_evict[i].as_slice());
            match oldest {
                Some(record) => {
                    evicted.push(record);
                },
                None => {},
            }
            proof {
                let key = before.recency[i as int].key;
                assert(before.recency.skip(i as int).skip(1) =~= before.recency.skip(i + 1));
                assert(before.recency.skip(i as int)[0] == before.recency[i as int]);
                assert(record_views(evicted@) =~= before.recency.take(i + 1)) by {
                    assert(evicted@ == evicted_before.push(oldest->Some_0));
                    assert(record_views(evicted@) =~= record_views(evicted_before).push(
                        oldest->Some_0@,
                    ));
                }
                lemma_record_keys_take(before.recency, i as int);
                assert(data_before.remove(key) =~= before.data.remove_keys(
                    record_keys(before.recency.take(i + 1)),
                ));
            }
            i += 1;
        }
        self.fetch_sub_disk_usage(total_to_evict);
        evicted
    }

    /// The ceiling on the resident bytes.
    pub fn disk_budget(&self) -> (budget: usize)
        ensures
            budget == self@.disk_budget,
    {
        self.disk_budget
    }

    /// The memory budget that the store's own block cache is given.
    pub fn memory_budget(&self) -> (budget: usize)
        ensures
            budget == self@.memory_budget,
    {
        self.memory_budget
    }

    /// The resident bytes as the usage counter gives them.
    pub fn disk_usage(&self) -> (usage: u64)
        ensures
            usage == self@.resident_bytes(),
    {
        match self.get_disk_usage_() {
            Some(current) => current,
            None => 0,
        }
    }

    /// The last recency token that was handed out.
    pub fn last_token(&self) -> (token: u128)
        ensures
            token == self@.clock,
    {
        self.last_token
    }

    /// The recency index: one record per resident entry, oldest first.
    pub fn recency(&self) -> (index: &RecencyIndex)
        ensures
            index@ == self@.recency,
    {
        &self.object_lru
    }

    /// The number of resident entries.
    pub fn len(&self) -> (n: usize)
        ensures
            n == self@.recency.len(),
    {
        self.object_lru.len()
    }

    /// Takes back an entry that was resident before, as the newest one and with
    /// the token it had. The entry is refused, and nothing changes, where its
    /// token is not ahead of the clock, its key is resident already, or its value
    /// does not fit in what is left of the budget.
    pub fn restore_entry(&mut self, token: u128, key: &[u8], value: &[u8]) -> (restored: bool)
        requires
            old(self).wf(),
        ensures
            final(self).wf(),
            restored == can_restore(old(self)@, token as nat, key@, value@),
            restored ==> final(self)@ == install_at(old(self)@, token as nat, key@, value@),
            !restored ==> *final(self) == *old(self),
    {
        let usage = self.disk_usage();
        if token <= self.last_token || value.len() > self.disk_budget - usage as usize {
            return false;
        }
        if self.object_data.get(key).is_some() {
            return false;
        }
        let size = value.len() as u64;
        proof {
            lemma_install_at(self@, token as nat, key@, value@);
            assert forall|i: int| 0 <= i < self.object_lru@.len() implies (
            #[trigger] self.object_lru@[i]).token < token by {
                assert(self@.recency[i].token <= self@.clock);
            }
        }
        self.fetch_add_disk_usage(size);
        let _previous = self.object_data.insert(key, value);
        self.object_lru.push(token, key, size);
        self.last_token = token;
        true
    }

    /// The tier that durable storage describes: the stored usage counter, absent
    /// before the first write, and the stored entries from the oldest on.
    ///
    /// Nothing is returned where what is stored is not a state of the tier:
    /// where tokens do not grow from entry to entry, a key occurs twice, the
    /// values do not fit in the budget, or the counter is not their sum.
    pub fn restore(
        memory_budget: usize,
        disk_budget: usize,
        usage: Option<u64>,
        entries: &Vec<StoredEntry>,
    ) -> (cache: Option<Self>)
        ensures
            match cache {
                Some(tier) => {
                    &&& tier.wf()
                    &&& restore_all(
                        empty_cache(memory_budget as nat, disk_budget as nat),
                        stored_views(entries@),
                    ) == Some(tier@)
                    &&& tier@.resident_bytes() == match usage {
                        Some(bytes) => bytes as nat,
                        None => 0,
                    }
                },
                None => match restore_all(
                    empty_cache(memory_budget as nat, disk_budget as nat),
                    stored_views(entries@),
                ) {
                    Some(state) => state.resident_bytes() != match usage {
                        Some(bytes) => bytes as nat,
                        None => 0,
                    },
                    None => true,
                },
            },
    {
        let mut tier = MultiLayerCache::new(memory_budget, disk_budget);
        let ghost start = tier@;
        let ghost stored = stored_views(entries@);
        let mut i: usize = 0;
        proof {
            assert(stored.take(0) =~= Seq::<(nat, Seq<u8>, Seq<u8>)>::empty());
        }
        while i < entries.len()
            invariant
                i <= entries@.len(),
                stored == stored_views(entries@),
                start == empty_cache(memory_budget as nat, disk_budget as nat),
                tier.wf(),
                restore_all(start, stored.take(i as int)) == Some(tier@),
            decreases entries@.len() - i,
        {
            let entry = &entries[i];
            proof {
                assert(stored.take(i + 1).drop_last() =~= stored.take(i as int));
                assert(stored.take(i + 1).last() == stored[i as int]);
            }
            let restored = tier.restore_entry(
                entry.token,
                entry.key.as_slice(),
                entry.value.as_slice(),
            );
            if !restored {
                proof {
                    let prefix = stored.take(i + 1);
                    assert(restore_all(start, prefix.drop_last()) == Some(tier@));
                    assert(prefix.last() == (entry.token as nat, entry.key@, entry.value@));
                    assert(restore_all(start, prefix) is None);
                    lemma_restore_all_prefix(start, stored, i + 1);
                }
                return None;
            }
            i += 1;
        }
        proof {
            assert(stored.take(i as int) =~= stored);
        }
        let expected = match usage {
            Some(bytes) => bytes,
            None => 0,
        };
        if tier.disk_usage() != expected {
            return None;
        }
        Some(tier)
    }

    /// What durable storage keeps of the tier: every resident entry with its
    /// token, its key and its value, from the oldest on.
    pub fn stored_entries(&self) -> (entries: Vec<StoredEntry>)
        requires
            self.wf(),
        ensures
            stored_views(entries@) == persisted(self@),
    {
        let mut entries: Vec<StoredEntry> = Vec::new();
        let mut i: usize = 0;
        while i < self.object_lru.len()
            invariant
                i <= self@.recency.len(),
                self.wf(),
                stored_views(entries@) == persisted(self@).take(i as int),
            decreases self@.recency.len() - i,
        {
            let record = self.object_lru.record(i);
            let ghost before = entries@;
            assert(records_hold(self@.recency, self@.recency[i as int].key));
            let value = match self.object_data.get(record.key.as_slice()) {
                Some(value) => bytes_to_vec(value.as_slice()),
                None => Vec::new(),
            };
            entries.push(
                StoredEntry { token: record.token, key: bytes_to_vec(record.key.as_slice()), value },
            );
            proof {
                assert(stored_views(entries@) =~= stored_views(before).push(
                    persisted(self@)[i as int],
                ));
                assert(persisted(self@).take(i + 1) =~= persisted(self@).take(i as int).push(
                    persisted(self@)[i as int],
                ));
            }
            i += 1;
        }
        proof {
            assert(persisted(self@).take(i as int) =~= persisted(self@));
        }
        entries
    }

    /// Point lookup in the object data. Reading does not touch the recency order.
    pub fn get(&self, key: &[u8]) -> (value: Option<&Vec<u8>>)
        requires
            self.wf(),
        ensures
            match value {
                Some(v) => self@.data.contains_key(key@) && v@ == self@.data[key@],
                None => !self@.data.contains_key(key@),
            },
    {
        self.object_data.get(key)
    }

    /// Stores `value` under `key`.
    ///
    /// A value larger than the disk budget is refused and nothing changes. Any
    /// other value is stored: an entry already under `key` is replaced, the
    /// oldest entries are evicted until the value fits, and value, recency record
    /// and usage counter are updated together. No other failure occurs: a
    /// well-formed tier always holds enough bytes to evict.
    pub fn put(&mut self, key: &[u8], value: &[u8]) -> (result: Result<Commit, CreedmoorError>)
        requires
            old(self).wf(),
            old(self)@.clock < u128::MAX,
        ensures
            final(self).wf(),
            match result {
                Ok(commit) => {
                    &&& value@.len() <= old(self)@.disk_budget
                    &&& final(self)@ == put_spec(old(self)@, key@, value@)
                    &&& record_views(commit.evicted@) == leaving(old(self)@, key@, value@)
                    &&& commit.token == old(self)@.clock + 1
                    &&& Some(commit.usage as nat) == final(self)@.usage
                },
                Err(e) => {
                    &&& value@.len() > old(self)@.disk_budget
                    &&& e == CreedmoorError::CacheObjectSizeTooLarge(value.len())
                    &&& *final(self) == *old(self)
                },
            },
    {
        let size = value.len();
        if size > self.disk_budget {
            return Err(CreedmoorError::CacheObjectSizeTooLarge(size));
        }
        let size = size as u64;
        let ghost start = self@;
        proof {
            lemma_retire(start, key@);
            lemma_put_keeps_invariants(start, key@, value@);
        }
        let mut evicted: Vec<RecencyRecord> = Vec::new();
        match self.object_lru.remove_key(key) {
            Some(record) => {
                proof {
                    let i = choose|i: int|
                        {
                            &&& 0 <= i < start.recency.len()
                            &&& #[trigger] start.recency[i] == record@
                            &&& record@.key == key@
                            &&& self.object_lru@ == start.recency.remove(i)
                        };
                    let p = record_position(start.recency, key@);
                    assert(start.recency[p].key == start.recency[i].key);
                    assert(p == i);
                    lemma_total_size_remove(start.recency, i);
                }
                let _value = self.object_data.remove(key);
                self.fetch_sub_disk_usage(record.size);
                evicted.push(record);
                assert(record_views(evicted@) =~= seq![start.recency[record_position(start.recency, key@)]]);
            },
            None => {
                assert(record_views(evicted@) =~= Seq::<RecordView>::empty());
            },
        }
        let ghost base = self@;
        assert(base == retire(start, key@));
        let disk_usage = self.get_disk_usage();
        assert(self@ == base);
        let disk_budget = self.disk_budget as u64;
        let room = disk_budget - disk_usage;
        let required = if size > room {
            size - room
        } else {
            0
        };
        assert(required == excess(base, size as nat));
        let ghost n = victim_count(base.recency, required as nat);
        proof {
            lemma_victim_count_is_least(base.recency, required as nat);
            lemma_total_size_split(base.recency, n as int);
            lemma_evict_oldest(base, size as nat);
            if n == base.recency.len() {
                assert(base.recency.take(n as int) =~= base.recency);
            }
        }
        match gather_keys_for_eviction(&self.object_lru, required) {
            Ok((total_to_evict, keys_to_evict)) => {
                let mut victims = self.evict_bytes(&keys_to_evict, total_to_evict as u64);
                assert(self@ == evict_oldest(base, n));
                let ghost replaced = evicted@;
                evicted.append(&mut victims);
                assert(record_views(evicted@) =~= record_views(replaced) + base.recency.take(
                    n as int,
                ));
            },
            Err(shortfall) => {
                // The guard against an index that runs out. A well-formed tier
                // never takes it: its records account for every byte of the
                // usage counter, and the value fits in the budget.
                return Err(shortfall);
            },
        }
        let ghost rest = self@;
        let usage = self.fetch_add_disk_usage(size);
        let _previous = self.object_data.insert(key, value);
        let token = self.last_token + 1;
        proof {
            assert forall|i: int| 0 <= i < self.object_lru@.len() implies (
            #[trigger] self.object_lru@[i]).token < token by {
                assert(rest.recency[i].token <= rest.clock);
            }
        }
        self.object_lru.push(token, key, size);
        self.last_token = token;
        assert(self@ == put_spec(start, key@, value@));
        Ok(Commit { evicted, token, usage })
    }
}

} // verus!
