//! The recency-index region: one record per write, oldest first.

use vstd::prelude::*;
use crate::bytes::{bytes_eq, bytes_to_vec};

verus! {

/// What the recency index keeps of one write: the token that orders it, the key
/// it wrote and the number of bytes it made resident.
pub struct RecencyRecord {
    pub token: u128,
    pub key: Vec<u8>,
    pub size: u64,
}

/// A recency record as a mathematical value.
pub struct RecordView {
    pub token: nat,
    pub key: Seq<u8>,
    pub size: nat,
}

impl View for RecencyRecord {
    type V = RecordView;

    open spec fn view(&self) -> RecordView {
        RecordView { token: self.token as nat, key: self.key@, size: self.size as nat }
    }
}

/// The records of a list, each as a mathematical value.
pub open spec fn record_views(records: Seq<RecencyRecord>) -> Seq<RecordView> {
    Seq::new(records.len(), |i: int| records[i]@)
}

/// Tokens grow strictly from each record to the next: they are unique, and the
/// first record is the oldest write.
pub open spec fn ascending(records: Seq<RecordView>) -> bool {
    forall|i: int, j: int|
        0 <= i < j < records.len() ==> (#[trigger] records[i]).token < (#[trigger] records[j]).token
}

/// The bytes that the records account for, all together.
pub open spec fn total_size(records: Seq<RecordView>) -> nat
    decreases records.len(),
{
    if records.len() == 0 {
        0
    } else {
        records[0].size + total_size(records.skip(1))
    }
}

/// Whether some record of the list was written for `key`.
pub open spec fn records_hold(records: Seq<RecordView>, key: Seq<u8>) -> bool {
    exists|i: int| 0 <= i < records.len() && (#[trigger] records[i]).key == key
}

/// The keys that the records were written for.
pub open spec fn record_keys(records: Seq<RecordView>) -> Set<Seq<u8>> {
    Set::new(|key: Seq<u8>| records_hold(records, key))
}

/// No two records were written for the same key.
pub open spec fn distinct_record_keys(records: Seq<RecordView>) -> bool {
    forall|i: int, j: int|
        0 <= i < records.len() && 0 <= j < records.len() && i != j
            ==> (#[trigger] records[i]).key != (#[trigger] records[j]).key
}

/// The bytes of two lists laid end to end are the bytes of each, added.
pub proof fn lemma_total_size_concat(front: Seq<RecordView>, back: Seq<RecordView>)
    ensures
        total_size(front + back) == total_size(front) + total_size(back),
    decreases front.len(),
{
    if front.len() == 0 {
        assert(front + back =~= back);
    } else {
        assert((front + back).skip(1) =~= front.skip(1) + back);
        lemma_total_size_concat(front.skip(1), back);
    }
}

/// Cutting a list in two at `n` keeps the bytes.
pub proof fn lemma_total_size_split(records: Seq<RecordView>, n: int)
    requires
        0 <= n <= records.len(),
    ensures
        total_size(records) == total_size(records.take(n)) + total_size(records.skip(n)),
{
    assert(records.take(n) + records.skip(n) =~= records);
    lemma_total_size_concat(records.take(n), records.skip(n));
}

/// A record appended adds its size.
pub proof fn lemma_total_size_push(records: Seq<RecordView>, record: RecordView)
    ensures
        total_size(records.push(record)) == total_size(records) + record.size,
{
    assert(records.push(record) =~= records + seq![record]);
    lemma_total_size_concat(records, seq![record]);
    assert(seq![record].skip(1) =~= Seq::<RecordView>::empty());
    assert(total_size(seq![record]) == record.size) by {
        reveal_with_fuel(total_size, 2);
    }
}

/// A record taken out takes its size with it.
pub proof fn lemma_total_size_remove(records: Seq<RecordView>, i: int)
    requires
        0 <= i < records.len(),
    ensures
        total_size(records.remove(i)) + records[i].size == total_size(records),
{
    assert(records.remove(i) =~= records.take(i) + records.skip(i + 1));
    lemma_total_size_concat(records.take(i), records.skip(i + 1));
    lemma_total_size_split(records, i);
    assert(records.skip(i).skip(1) =~= records.skip(i + 1));
}

/// The keys of the first `i + 1` records are those of the first `i` and the key
/// of the record at `i`.
pub proof fn lemma_record_keys_take(records: Seq<RecordView>, i: int)
    requires
        0 <= i < records.len(),
    ensures
        record_keys(records.take(i + 1)) == record_keys(records.take(i)).insert(records[i].key),
{
    let shorter = records.take(i);
    let longer = records.take(i + 1);
    assert forall|key: Seq<u8>|
        record_keys(longer).contains(key) <==> record_keys(shorter).insert(
            records[i].key,
        ).contains(key) by {
        if records_hold(longer, key) {
            let a = choose|a: int| 0 <= a < longer.len() && (#[trigger] longer[a]).key == key;
            if a < i {
                assert(shorter[a].key == key);
            }
        }
        if records_hold(shorter, key) {
            let a = choose|a: int| 0 <= a < shorter.len() && (#[trigger] shorter[a]).key == key;
            assert(longer[a].key == key);
        }
        if key == records[i].key {
            assert(longer[i].key == key);
        }
    }
    assert(record_keys(longer) =~= record_keys(shorter).insert(records[i].key));
}

/// The recency-index region of the store: the records in ascending token order.
pub struct RecencyIndex {
    records: Vec<RecencyRecord>,
}

impl View for RecencyIndex {
    type V = Seq<RecordView>;

    closed spec fn view(&self) -> Seq<RecordView> {
        record_views(self.records@)
    }
}

impl RecencyIndex {
    /// The region's invariant: tokens are unique and ascending.
    pub open spec fn inv(&self) -> bool {
        ascending(self@)
    }

    /// An empty index.
    pub fn new() -> (index: Self)
        ensures
            index.inv(),
            index@ == Seq::<RecordView>::empty(),
    {
        let index = RecencyIndex { records: Vec::new() };
        assert(index@ =~= Seq::<RecordView>::empty());
        index
    }

    /// The number of records.
    pub fn len(&self) -> (n: usize)
        ensures
            n == self@.len(),
    {
        self.records.len()
    }

    /// The record at position `i`, counted from the oldest.
    pub fn record(&self, i: usize) -> (record: &RecencyRecord)
        requires
            i < self@.len(),
        ensures
            record@ == self@[i as int],
    {
        &self.records[i]
    }

    /// Appends the record of a write that is newer than all that the index holds.
    pub fn push(&mut self, token: u128, key: &[u8], size: u64)
        requires
            old(self).inv(),
            forall|i: int| 0 <= i < old(self)@.len() ==> (#[trigger] old(self)@[i]).token < token,
        ensures
            final(self).inv(),
            final(self)@ == old(self)@.push(
                RecordView { token: token as nat, key: key@, size: size as nat },
            ),
    {
        let record = RecencyRecord { token, key: bytes_to_vec(key), size };
        self.records.push(record);
        assert(self@ =~= old(self)@.push(record@));
    }

    /// Takes the record with the smallest token out of the index: the oldest write.
    pub fn pop_min(&mut self) -> (oldest: Option<RecencyRecord>)
        requires
            old(self).inv(),
        ensures
            final(self).inv(),
            match oldest {
                Some(record) => {
                    &&& old(self)@.len() > 0
                    &&& record@ == old(self)@[0]
                    &&& final(self)@ == old(self)@.skip(1)
                    &&& forall|i: int|
                        0 <= i < old(self)@.len() - 1 ==> record@.token < (#[trigger] old(self)@[i + 1]).token
                },
                None => old(self)@.len() == 0 && final(self)@ == old(self)@,
            },
    {
        if self.records.len() == 0 {
            return None;
        }
        let record = self.records.remove(0);
        proof {
            assert(self@ =~= old(self)@.skip(1));
            assert forall|i: int, j: int| 0 <= i < j < self@.len() implies (#[trigger] self@[i]).token
                < (#[trigger] self@[j]).token by {
                assert(self@[i] == old(self)@[i + 1]);
                assert(self@[j] == old(self)@[j + 1]);
            }
        }
        Some(record)
    }

    /// Takes the record that was written for `key` out of the index: the oldest
    /// such record, if there are several.
    pub fn remove_key(&mut self, key: &[u8]) -> (removed: Option<RecencyRecord>)
        requires
            old(self).inv(),
        ensures
            final(self).inv(),
            match removed {
                Some(record) => exists|i: int|
                    {
                        &&& 0 <= i < old(self)@.len()
                        &&& #[trigger] old(self)@[i] == record@
                        &&& record@.key == key@
                        &&& forall|j: int| 0 <= j < i ==> (#[trigger] old(self)@[j]).key != key@
                        &&& final(self)@ == old(self)@.remove(i)
                    },
                None => !records_hold(old(self)@, key@) && final(self)@ == old(self)@,
            },
    {
        let mut i: usize = 0;
        while i < self.records.len()
            invariant
                i <= self.records@.len(),
                self.records@ == old(self).records@,
                ascending(old(self)@),
                forall|j: int| 0 <= j < i ==> (#[trigger] old(self)@[j]).key != key@,
            decreases self.records@.len() - i,
        {
            if bytes_eq(self.records[i].key.as_slice(), key) {
                let record = self.records.remove(i);
                proof {
                    assert(self@ =~= old(self)@.remove(i as int));
                    assert(old(self)@[i as int] == record@);
                    assert forall|a: int, b: int| 0 <= a < b < self@.len() implies (#[trigger] self@[a]).token
                        < (#[trigger] self@[b]).token by {
                        let a0 = if a < i { a } else { a + 1 };
                        let b0 = if b < i { b } else { b + 1 };
                        assert(self@[a] == old(self)@[a0]);
                        assert(self@[b] == old(self)@[b0]);
                        assert(old(self)@[a0].token < old(self)@[b0].token);
                    }
                    assert(self@ == old(self)@.remove(i as int));
                }
                return Some(record);
            }
            i += 1;
        }
        None
    }
}

} // verus!
