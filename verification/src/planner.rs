//! The eviction planner: which records leave to free a given number of bytes.

use vstd::prelude::*;
use crate::bytes::bytes_to_vec;
use crate::error::CreedmoorError;
use crate::recency::{
    lemma_total_size_split, total_size, RecencyIndex, RecordView,
};

verus! {

/// The bytes still to be freed after `freed` of the `required` ones are.
pub open spec fn still_required(required: nat, freed: nat) -> nat {
    if freed >= required {
        0
    } else {
        (required - freed) as nat
    }
}

/// The number of records that leave to free `required` bytes: records are taken
/// from the oldest on, until those taken account for `required` bytes or none
/// is left.
pub open spec fn victim_count(records: Seq<RecordView>, required: nat) -> nat
    decreases records.len(),
{
    if required == 0 || records.len() == 0 {
        0
    } else {
        1 + victim_count(records.skip(1), still_required(required, records[0].size))
    }
}

/// The count of victims is the least number of oldest records that frees the
/// required bytes, and the whole index where even that is not enough.
pub proof fn lemma_victim_count_is_least(records: Seq<RecordView>, required: nat)
    ensures
        victim_count(records, required) <= records.len(),
        total_size(records.take(victim_count(records, required) as int)) >= required
            || victim_count(records, required) == records.len(),
        forall|m: int|
            0 <= m < victim_count(records, required) ==> total_size(#[trigger] records.take(m))
                < required,
    decreases records.len(),
{
    let n = victim_count(records, required);
    if required == 0 || records.len() == 0 {
        assert(records.take(0) =~= Seq::<RecordView>::empty());
    } else {
        let rest = records.skip(1);
        let left = still_required(required, records[0].size);
        lemma_victim_count_is_least(rest, left);
        let k = victim_count(rest, left);
        assert forall|m: int| 0 <= m <= k + 1 && m >= 1 implies total_size(
            #[trigger] records.take(m),
        ) == records[0].size + total_size(rest.take(m - 1)) by {
            assert(records.take(m).skip(1) =~= rest.take(m - 1));
        }
        assert(records.take(0) =~= Seq::<RecordView>::empty());
        assert forall|m: int| 0 <= m < n implies total_size(#[trigger] records.take(m))
            < required by {
            if m >= 1 {
                assert(total_size(rest.take(m - 1)) < left);
            }
        }
    }
}

/// The oldest records of `lru` that must leave to free `excess` bytes: their
/// sizes added up, and their keys from the oldest on. Nothing is taken out of the
/// index. Where all its records together account for fewer than `excess` bytes,
/// the shortfall is reported.
pub fn gather_keys_for_eviction(lru: &RecencyIndex, excess: u64) -> (result: Result<
    (u128, Vec<Vec<u8>>),
    CreedmoorError,
>)
    ensures
        match result {
            Ok((total, keys)) => {
                &&& total_size(lru@) >= excess
                &&& keys@.len() == victim_count(lru@, excess as nat)
                &&& forall|i: int| 0 <= i < keys@.len() ==> (#[trigger] keys@[i])@ == lru@[i].key
                &&& total == total_size(lru@.take(keys@.len() as int))
            },
            Err(e) => e == CreedmoorError::EvictionShortfall && total_size(lru@) < excess,
        },
{
    let mut total: u128 = 0;
    let mut keys: Vec<Vec<u8>> = Vec::new();
    let mut i: usize = 0;
    proof {
        assert(lru@.take(0) =~= Seq::<RecordView>::empty());
        assert(lru@.skip(0) =~= lru@);
    }
    while total < excess as u128 && i < lru.len()
        invariant
            i <= lru@.len(),
            keys@.len() == i,
            forall|j: int| 0 <= j < i ==> (#[trigger] keys@[j])@ == lru@[j].key,
            total == total_size(lru@.take(i as int)),
            victim_count(lru@, excess as nat) == i + victim_count(
                lru@.skip(i as int),
                still_required(excess as nat, total as nat),
            ),
        decreases lru@.len() - i,
    {
        let record = lru.record(i);
        proof {
            let rest = lru@.skip(i as int);
            assert(rest[0] == lru@[i as int]);
            assert(rest.skip(1) =~= lru@.skip(i + 1));
            assert(lru@.take(i + 1) =~= lru@.take(i as int).push(lru@[i as int]));
            crate::recency::lemma_total_size_push(lru@.take(i as int), lru@[i as int]);
        }
        total = total + record.size as u128;
        keys.push(bytes_to_vec(record.key.as_slice()));
        i += 1;
    }
    proof {
        lemma_total_size_split(lru@, i as int);
        assert(victim_count(lru@.skip(i as int), still_required(excess as nat, total as nat)) == 0);
    }
    if total < excess as u128 {
        proof {
            assert(lru@.take(i as int) =~= lru@);
        }
        Err(CreedmoorError::EvictionShortfall)
    } else {
        Ok((total, keys))
    }
}

} // verus!
