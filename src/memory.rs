//! The in-memory backend.
use crate::engine::{
    bump, byte_len, distinct_keys, key_in, lemma_map_of_at, lemma_map_of_push, lemma_map_of_remove,
    lemma_map_of_update, map_of, pos_of, Stats, StorageEngine, Value, ValueMetadata,
};
use crate::error::{owned, StorageError, StorageResult};
use crate::validation::{key_valid, validate_key, validate_value, value_valid};
use vstd::prelude::*;

verus! {

/// Every stored key and value passed validation, and each value's size is
/// the byte length of its text.
pub open spec fn stored_valid(s: Seq<(String, Value)>) -> bool {
    forall|i: int|
        0 <= i < s.len() ==> key_valid(#[trigger] s[i].0@) && value_valid(s[i].1.value@)
            && s[i].1.metadata.size == byte_len(s[i].1.value@)
}

/// Estimated memory of the pairs `s`: the bytes of each key and value plus
/// a fixed overhead per pair.
pub open spec fn usage_of(s: Seq<(String, Value)>) -> nat
    decreases s.len(),
{
    if s.len() == 0 {
        0
    } else {
        usage_of(s.drop_last()) + byte_len(s.last().0@) + byte_len(s.last().1.value@)
            + vstd::layout::size_of::<Value>()
    }
}

fn add_capped(a: usize, b: usize) -> (r: usize)
    ensures
        r == if a + b > usize::MAX { usize::MAX as int } else { a + b },
{
    a.saturating_add(b)
}

/// A key-value store held in memory.
///
/// Pairs are kept in a vector with distinct keys; counters of get, put and
/// delete calls saturate at `u64::MAX`. The store is not shared: callers
/// that use it from several threads put it behind a lock.
#[derive(Debug, Default)]
pub struct MemoryStorage {
    data: Vec<(String, Value)>,
    get_ops: u64,
    put_ops: u64,
    delete_ops: u64,
}

fn key_position(data: &Vec<(String, Value)>, key: &str) -> (r: Option<usize>)
    requires
        distinct_keys(data@),
    ensures
        r is None <==> !key_in(data@, key@),
        r matches Some(i) ==> i < data@.len() && data@[i as int].0@ == key@ && pos_of(data@, key@) == i,
{
    let k = owned(key);
    let mut i: usize = 0;
    while i < data.len()
        invariant
            distinct_keys(data@),
            k@ == key@,
            0 <= i <= data@.len(),
            forall|j: int| 0 <= j < i ==> data@[j].0@ != key@,
        decreases data@.len() - i,
    {
        if data[i].0 == k {
            proof {
                lemma_map_of_at(data@, i as int);
                let p = pos_of(data@, key@);
                assert(data@[p].0@ == key@);
                if p < i {
                } else if p > i {
                    assert(data@[i as int].0@ != data@[p].0@);
                }
            }
            return Some(i);
        }
        i = i + 1;
    }
    None
}

impl MemoryStorage {
    /// An empty store.
    pub fn new() -> (r: MemoryStorage)
        ensures
            r.inv(),
            r.snapshot() == Seq::<(String, Value)>::empty(),
            r.counts() == (0u64, 0u64, 0u64),
    {
        MemoryStorage { data: Vec::new(), get_ops: 0, put_ops: 0, delete_ops: 0 }
    }

    /// An empty store with room reserved for `capacity` pairs.
    pub fn with_capacity(capacity: usize) -> (r: MemoryStorage)
        ensures
            r.inv(),
            r.snapshot() == Seq::<(String, Value)>::empty(),
            r.counts() == (0u64, 0u64, 0u64),
    {
        MemoryStorage { data: Vec::with_capacity(capacity), get_ops: 0, put_ops: 0, delete_ops: 0 }
    }

    /// Estimated memory of `data`, capped at `usize::MAX`: per pair the
    /// bytes of the key and of the value plus the size of a [`Value`].
    pub fn calculate_memory_usage(data: &[(String, Value)]) -> (r: usize)
        ensures
            r == if usage_of(data@) > usize::MAX { usize::MAX as nat } else { usage_of(data@) },
    {
        let overhead = core::mem::size_of::<Value>();
        let mut total: usize = 0;
        let mut i: usize = 0;
        while i < data.len()
            invariant
                0 <= i <= data@.len(),
                overhead == vstd::layout::size_of::<Value>(),
                total == if usage_of(data@.subrange(0, i as int)) > usize::MAX {
                    usize::MAX as nat
                } else {
                    usage_of(data@.subrange(0, i as int))
                },
            decreases data@.len() - i,
        {
            let k = data[i].0.as_str().as_bytes().len();
            let v = data[i].1.value.as_str().as_bytes().len();
            assert(data@.subrange(0, i + 1).drop_last() =~= data@.subrange(0, i as int));
            total = add_capped(add_capped(add_capped(total, k), v), overhead);
            i = i + 1;
        }
        assert(data@.subrange(0, i as int) =~= data@);
        total
    }

    /// The stored pairs have distinct, valid keys and valid values.
    pub proof fn lemma_snapshot_valid(&self)
        requires
            self.inv(),
        ensures
            distinct_keys(self.snapshot()),
            stored_valid(self.snapshot()),
    {
    }

    /// Clears every pair without logging anything, for replay.
    pub(crate) fn clear_all(&mut self)
        requires
            old(self).inv(),
        ensures
            final(self).inv(),
            final(self).snapshot() == Seq::<(String, Value)>::empty(),
            final(self).counts() == old(self).counts(),
    {
        self.data.clear();
    }
}

impl StorageEngine for MemoryStorage {
    closed spec fn snapshot(&self) -> Seq<(String, Value)> {
        self.data@
    }

    closed spec fn counts(&self) -> (u64, u64, u64) {
        (self.get_ops, self.put_ops, self.delete_ops)
    }

    closed spec fn usage(&self) -> nat {
        usage_of(self.data@)
    }

    closed spec fn inv(&self) -> bool {
        distinct_keys(self.data@) && stored_valid(self.data@)
    }

    fn put(&mut self, key: &str, value: &str) -> (r: StorageResult<bool>) {
        validate_key(key)?;
        validate_value(value)?;
        let ghost before = self.data@;
        let size = value.as_bytes().len();
        match key_position(&self.data, key) {
            Some(i) => {
                let created_at = self.data[i].1.metadata.created_at.clone();
                let mut metadata = ValueMetadata::new(size);
                metadata.created_at = created_at;
                let stored = Value { value: owned(value), metadata };
                let (k, _previous) = self.data.remove(i);
                self.data.insert(i, (k, stored));
                proof {
                    assert(self.data@ =~= before.update(i as int, (k, stored)));
                    assert forall|j: int| 0 <= j < self.data@.len() implies key_valid(#[trigger] self.data@[j].0@)
                        && value_valid(self.data@[j].1.value@) && self.data@[j].1.metadata.size == byte_len(
                        self.data@[j].1.value@,
                    ) by {
                        if j != i {
                            assert(self.data@[j] == before[j]);
                        }
                    }
                    lemma_map_of_at(before, i as int);
                    lemma_map_of_update(before, i as int, k, stored);
                    assert(map_of(self.data@)[key@] == stored);
                }
                self.put_ops = self.put_ops.saturating_add(1);
                Ok(false)
            },
            None => {
                let stored = Value { value: owned(value), metadata: ValueMetadata::new(size) };
                let k = owned(key);
                proof {
                    lemma_map_of_push(before, k, stored);
                }
                self.data.push((k, stored));
                assert(stored_valid(self.data@)) by {
                    assert forall|j: int| 0 <= j < self.data@.len() implies key_valid(#[trigger] self.data@[j].0@)
                        && value_valid(self.data@[j].1.value@) && self.data@[j].1.metadata.size == byte_len(
                        self.data@[j].1.value@,
                    ) by {
                        if j < before.len() {
                            assert(self.data@[j] == before[j]);
                        }
                    }
                }
                self.put_ops = self.put_ops.saturating_add(1);
                Ok(true)
            },
        }
    }

    fn get(&mut self, key: &str) -> (r: StorageResult<Value>) {
        validate_key(key)?;
        self.get_ops = self.get_ops.saturating_add(1);
        match key_position(&self.data, key) {
            Some(i) => {
                proof {
                    lemma_map_of_at(self.data@, i as int);
                }
                Ok(self.data[i].1.duplicate())
            },
            None => Err(StorageError::KeyNotFound(owned(key))),
        }
    }

    fn delete(&mut self, key: &str) -> (r: StorageResult<bool>) {
        validate_key(key)?;
        self.delete_ops = self.delete_ops.saturating_add(1);
        match key_position(&self.data, key) {
            Some(i) => {
                proof {
                    lemma_map_of_remove(self.data@, i as int);
                }
                let ghost before = self.data@;
                let _removed = self.data.remove(i);
                assert(stored_valid(self.data@)) by {
                    assert forall|j: int| 0 <= j < self.data@.len() implies key_valid(#[trigger] self.data@[j].0@)
                        && value_valid(self.data@[j].1.value@) && self.data@[j].1.metadata.size == byte_len(
                        self.data@[j].1.value@,
                    ) by {
                        if j < i {
                            assert(self.data@[j] == before[j]);
                        } else {
                            assert(self.data@[j] == before[j + 1]);
                        }
                    }
                }
                Ok(true)
            },
            None => {
                assert(map_of(self.data@) =~= map_of(self.data@).remove(key@));
                Ok(false)
            },
        }
    }

    fn key_exists(&self, key: &str) -> (r: StorageResult<bool>) {
        validate_key(key)?;
        match key_position(&self.data, key) {
            Some(i) => {
                proof {
                    lemma_map_of_at(self.data@, i as int);
                }
                Ok(true)
            },
            None => Ok(false),
        }
    }

    fn keys(&self) -> (r: StorageResult<Vec<String>>) {
        let mut r: Vec<String> = Vec::new();
        let mut i: usize = 0;
        while i < self.data.len()
            invariant
                0 <= i <= self.data@.len(),
                r@ == self.data@.subrange(0, i as int).map_values(|p: (String, Value)| p.0),
            decreases self.data@.len() - i,
        {
            r.push(self.data[i].0.clone());
            i = i + 1;
            assert(r@ =~= self.data@.subrange(0, i as int).map_values(|p: (String, Value)| p.0));
        }
        assert(self.data@.subrange(0, i as int) =~= self.data@);
        Ok(r)
    }

    fn values(&self) -> (r: StorageResult<Vec<Value>>) {
        let mut r: Vec<Value> = Vec::new();
        let mut i: usize = 0;
        while i < self.data.len()
            invariant
                0 <= i <= self.data@.len(),
                r@ == self.data@.subrange(0, i as int).map_values(|p: (String, Value)| p.1),
            decreases self.data@.len() - i,
        {
            r.push(self.data[i].1.duplicate());
            i = i + 1;
            assert(r@ =~= self.data@.subrange(0, i as int).map_values(|p: (String, Value)| p.1));
        }
        assert(self.data@.subrange(0, i as int) =~= self.data@);
        Ok(r)
    }

    fn all(&self) -> (r: StorageResult<Vec<(String, Value)>>) {
        let mut r: Vec<(String, Value)> = Vec::new();
        let mut i: usize = 0;
        while i < self.data.len()
            invariant
                0 <= i <= self.data@.len(),
                r@ == self.data@.subrange(0, i as int),
            decreases self.data@.len() - i,
        {
            r.push((self.data[i].0.clone(), self.data[i].1.duplicate()));
            i = i + 1;
            assert(r@ =~= self.data@.subrange(0, i as int));
        }
        assert(self.data@.subrange(0, i as int) =~= self.data@);
        Ok(r)
    }

    fn clear(&mut self) -> (r: StorageResult<()>) {
        self.data.clear();
        Ok(())
    }

    fn stats(&self) -> (r: StorageResult<Stats>) {
        Ok(
            Stats {
                key_count: self.data.len(),
                memory_usage: Self::calculate_memory_usage(self.data.as_slice()),
                get_operations_count: self.get_ops,
                put_operations_count: self.put_ops,
                delete_operations_count: self.delete_ops,
            },
        )
    }

    fn size_of_value(&self, key: &str) -> (r: StorageResult<usize>) {
        validate_key(key)?;
        match key_position(&self.data, key) {
            Some(i) => {
                proof {
                    lemma_map_of_at(self.data@, i as int);
                }
                Ok(self.data[i].1.metadata.size)
            },
            None => Err(StorageError::KeyNotFound(owned(key))),
        }
    }
}

/// A new in-memory store.
pub fn storage() -> (r: MemoryStorage)
    ensures
        r.inv(),
        r.snapshot() == Seq::<(String, Value)>::empty(),
{
    MemoryStorage::new()
}

/// A new in-memory store with room reserved for `capacity` pairs.
pub fn storage_with_capacity(capacity: usize) -> (r: MemoryStorage)
    ensures
        r.inv(),
        r.snapshot() == Seq::<(String, Value)>::empty(),
{
    MemoryStorage::with_capacity(capacity)
}

} // verus!
