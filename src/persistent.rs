//! The persistent backend: an in-memory store whose every change is first
//! written to the write-ahead log, and which is rebuilt from the log when
//! opened.
//!
//! The log file belongs to the caller. A change goes in two steps:
//! [`PersistentStorage::prepare`] checks the operation and gives the entry
//! to log; the caller appends [`log_line`] of it to the file and flushes;
//! only then does [`PersistentStorage::apply_logged`] apply it to memory. A
//! failed append is simply never applied.
use crate::engine::{
    distinct_keys, lemma_map_of_len, lemma_map_of_push, map_of, texts_of, Stats, StorageEngine, Value,
};
use crate::error::{owned, StorageError, StorageResult};
use crate::memory::{stored_valid, MemoryStorage};
use crate::validation::{key_valid, validate_key, validate_value, value_valid};
use crate::wal::{
    checksum_holds, lemma_read_log_text, log_text, max_seq, read_log, views, EntryModel, OpModel, WalEntry,
    WalManager, WalOperation,
};
use vstd::prelude::*;

verus! {

/// The text map after one logged operation. An operation that the store
/// would reject changes nothing.
pub open spec fn apply_op(m: Map<Seq<char>, Seq<char>>, op: OpModel) -> Map<Seq<char>, Seq<char>> {
    match op {
        OpModel::Put(k, v) => if key_valid(k) && value_valid(v) {
            m.insert(k, v)
        } else {
            m
        },
        OpModel::Delete(k) => if key_valid(k) {
            m.remove(k)
        } else {
            m
        },
        OpModel::Clear => Map::empty(),
    }
}

/// The text map after the operations `ops`, in order.
pub open spec fn replay(m: Map<Seq<char>, Seq<char>>, ops: Seq<OpModel>) -> Map<Seq<char>, Seq<char>>
    decreases ops.len(),
{
    if ops.len() == 0 {
        m
    } else {
        apply_op(replay(m, ops.drop_last()), ops.last())
    }
}

/// The store accepts the operation: its key, and a put's value, are valid.
pub open spec fn accepted(op: OpModel) -> bool {
    match op {
        OpModel::Put(k, v) => key_valid(k) && value_valid(v),
        OpModel::Delete(k) => key_valid(k),
        OpModel::Clear => true,
    }
}

/// How many of the operations `ops` the store accepts.
pub open spec fn count_accepted(ops: Seq<OpModel>) -> nat
    decreases ops.len(),
{
    if ops.len() == 0 {
        0
    } else {
        count_accepted(ops.drop_last()) + if accepted(ops.last()) {
            1nat
        } else {
            0nat
        }
    }
}

pub open spec fn ops_of(es: Seq<EntryModel>) -> Seq<OpModel> {
    es.map_values(|e: EntryModel| e.op)
}

/// What a store opened on the log `log` holds: the replay of its entries
/// on an empty map, or `None` when the log cannot be read.
pub open spec fn recovered(log: Seq<u8>) -> Option<Map<Seq<char>, Seq<char>>> {
    match read_log(log) {
        Some(es) => Some(replay(Map::empty(), ops_of(es))),
        None => None,
    }
}

/// The line appended to the log for an entry.
pub open spec fn line_of(e: EntryModel) -> Seq<u8> {
    crate::wal::record(e) + seq![10u8]
}

/// The entry's record followed by a line break, as appended to the log.
pub fn log_line(entry: &WalEntry) -> (r: Vec<u8>)
    ensures
        r@ == line_of(entry@),
{
    let mut r = entry.to_record();
    r.push(10);
    r
}

/// Counts of a recovery: entries applied, and entries the store rejected.
#[derive(Debug, Clone, Copy, PartialEq, Eq)]
pub struct RecoveryCounts {
    pub recovered: u64,
    pub failed: u64,
}

/// Statistics with the log's state.
#[derive(Debug, Clone, PartialEq)]
pub struct DetailedStats {
    /// Statistics of the in-memory store.
    pub memory_stats: Stats,
    /// Path of the log file.
    pub wal_file_path: String,
    /// Sequence number of the last logged entry.
    pub wal_sequence_number: u64,
}

/// Outcome of a compaction.
#[derive(Debug, Clone, PartialEq)]
pub struct CompactionResult {
    /// Entries in the log before compaction.
    pub entries_before: usize,
    /// Entries in the compacted log.
    pub entries_after: usize,
}

/// A store kept in memory and made durable by the write-ahead log.
pub struct PersistentStorage {
    memory_storage: MemoryStorage,
    wal_manager: WalManager,
    recovery: RecoveryCounts,
    /// What the store held when it was opened or last compacted.
    base: Ghost<Map<Seq<char>, Seq<char>>>,
    /// Entries applied since then, in order.
    logged: Ghost<Seq<EntryModel>>,
    /// The sequence number at that point.
    base_seq: Ghost<u64>,
}

impl PersistentStorage {
    /// The text stored under each key.
    pub open spec fn texts(&self) -> Map<Seq<char>, Seq<char>> {
        texts_of(map_of(self.snapshot()))
    }

    pub closed spec fn snapshot(&self) -> Seq<(String, Value)> {
        self.memory_storage.snapshot()
    }

    pub closed spec fn base_texts(&self) -> Map<Seq<char>, Seq<char>> {
        self.base@
    }

    /// The entries applied since the store was opened or compacted.
    pub closed spec fn logged(&self) -> Seq<EntryModel> {
        self.logged@
    }

    pub closed spec fn recovered_counts(&self) -> RecoveryCounts {
        self.recovery
    }

    /// The sequence number when the store was opened or compacted.
    pub closed spec fn base_seq(&self) -> u64 {
        self.base_seq@
    }

    /// Counters of get, put and delete calls.
    pub closed spec fn counts(&self) -> (u64, u64, u64) {
        self.memory_storage.counts()
    }

    /// Estimated memory use of the stored pairs.
    pub closed spec fn usage(&self) -> nat {
        self.memory_storage.usage()
    }

    pub closed spec fn wal(&self) -> WalManager {
        self.wal_manager
    }

    /// The store holds the base replayed with the entries applied since.
    pub closed spec fn inv(&self) -> bool {
        &&& self.memory_storage.inv()
        &&& texts_of(map_of(self.memory_storage.snapshot())) == replay(self.base@, ops_of(self.logged@))
        &&& forall|k: int| 0 <= k < self.logged@.len() ==> checksum_holds(#[trigger] self.logged@[k])
        &&& self.wal_manager.seq() == self.base_seq@ + self.logged@.len()
        &&& forall|k: int| 0 <= k < self.logged@.len() ==> (#[trigger] self.logged@[k]).seq == self.base_seq@ + k + 1
    }

    /// What the store's invariant gives its users: distinct keys, one text
    /// per stored pair, the base replayed with the logged entries, and the
    /// logged entries numbered on from the base.
    pub proof fn lemma_state(&self)
        requires
            self.inv(),
        ensures
            distinct_keys(self.snapshot()),
            self.texts().len() == self.snapshot().len(),
            self.texts() == replay(self.base_texts(), ops_of(self.logged())),
            self.wal().seq() == self.base_seq() + self.logged().len(),
            forall|k: int| 0 <= k < self.logged().len() ==> (#[trigger] self.logged()[k]).seq == self.base_seq() + k + 1,
            forall|k: int| 0 <= k < self.logged().len() ==> checksum_holds(#[trigger] self.logged()[k]),
    {
        self.memory_storage.lemma_snapshot_valid();
        lemma_map_of_len(self.snapshot());
    }

    /// Opens the store on the log `log` (the bytes of the log file), with
    /// checksums and no reserved capacity.
    pub fn new(wal_file_path: &str, log: &[u8]) -> (r: StorageResult<PersistentStorage>)
        ensures
            r is Ok <==> read_log(log@) is Some,
            r matches Ok(s) ==> s.inv() && Some(s.texts()) == recovered(log@) && s.logged()
                == Seq::<EntryModel>::empty() && s.wal().checksums() && s.wal().path() == wal_file_path@
                && s.wal().seq() == max_seq(read_log(log@)->0) && s.base_texts() == s.texts()
                && s.base_seq() == s.wal().seq() && (log@.len() == 0 ==> s.texts() == Map::<
                Seq<char>,
                Seq<char>,
            >::empty() && s.base_seq() == 0) && s.recovered_counts().recovered == count_accepted(
                ops_of(read_log(log@)->0),
            ) && s.recovered_counts().failed == read_log(log@)->0.len() - count_accepted(
                ops_of(read_log(log@)->0),
            ),
            r matches Err(e) ==> e is Internal,
    {
        Self::new_with_options(wal_file_path, 0, true, log)
    }

    /// Opens the store on the log `log`: replays every entry of the log on
    /// an empty store. Fails when the log cannot be read.
    pub fn new_with_options(
        wal_file_path: &str,
        memory_capacity: usize,
        use_checksums: bool,
        log: &[u8],
    ) -> (r: StorageResult<PersistentStorage>)
        ensures
            r is Ok <==> read_log(log@) is Some,
            r matches Ok(s) ==> s.inv() && Some(s.texts()) == recovered(log@) && s.logged()
                == Seq::<EntryModel>::empty() && s.wal().checksums() == use_checksums && s.wal().path()
                == wal_file_path@ && s.wal().seq() == max_seq(read_log(log@)->0) && s.base_texts()
                == s.texts() && s.base_seq() == s.wal().seq() && (log@.len() == 0 ==> s.texts() == Map::<
                Seq<char>,
                Seq<char>,
            >::empty() && s.base_seq() == 0) && s.recovered_counts().recovered
                == count_accepted(ops_of(read_log(log@)->0)) && s.recovered_counts().failed == read_log(
                log@,
            )->0.len() - count_accepted(ops_of(read_log(log@)->0)),
            r matches Err(e) ==> e is Internal,
    {
        let memory_storage = MemoryStorage::with_capacity(memory_capacity);
        let wal_manager = WalManager::new_with_options(wal_file_path, use_checksums);
        proof {
            assert(texts_of(map_of(memory_storage.snapshot())) =~= Map::empty());
        }
        let mut storage = PersistentStorage {
            memory_storage,
            wal_manager,
            recovery: RecoveryCounts { recovered: 0, failed: 0 },
            base: Ghost(Map::empty()),
            logged: Ghost(Seq::empty()),
            base_seq: Ghost(0),
        };
        let counts = storage.recover_from_wal(log)?;
        proof {
            if log@.len() == 0 {
                assert(read_log(log@) == Some(Seq::<EntryModel>::empty()));
                assert(ops_of(Seq::<EntryModel>::empty()) =~= Seq::<OpModel>::empty());
            }
        }
        storage.recovery = counts;
        Ok(storage)
    }

    /// Replays the log `log` on the (empty) store.
    fn recover_from_wal(&mut self, log: &[u8]) -> (r: StorageResult<RecoveryCounts>)
        requires
            old(self).memory_storage.inv(),
            texts_of(map_of(old(self).memory_storage.snapshot())) == Map::<Seq<char>, Seq<char>>::empty(),
            old(self).wal().seq() == 0,
        ensures
            r is Ok <==> read_log(log@) is Some,
            r matches Err(e) ==> e is Internal,
            r is Ok ==> final(self).inv() && Some(final(self).texts()) == recovered(log@)
                && final(self).logged() == Seq::<EntryModel>::empty(),
            r matches Ok(c) ==> c.recovered == count_accepted(ops_of(read_log(log@)->0)) && c.failed
                == read_log(log@)->0.len() - count_accepted(ops_of(read_log(log@)->0)),
            r is Ok ==> final(self).wal().seq() == max_seq(read_log(log@)->0) && final(self).base_texts()
                == final(self).texts() && final(self).base_seq() == final(self).wal().seq(),
            final(self).wal().checksums() == old(self).wal().checksums(),
            final(self).wal().path() == old(self).wal().path(),
    {
        let entries = self.wal_manager.read_all_entries(log)?;
        assert(views(entries@).len() == 0 ==> max_seq(views(entries@)) == 0);
        let mut counts = RecoveryCounts { recovered: 0, failed: 0 };
        self.recover(&entries, &mut counts);
        assert(views(entries@).len() == entries@.len());
        proof {
            self.base@ = texts_of(map_of(self.memory_storage.snapshot()));
            self.logged@ = Seq::empty();
            self.base_seq@ = self.wal_manager.seq();
        }
        Ok(counts)
    }

    /// Applies the entries in order; an entry that fails is counted and
    /// skipped.
    fn recover(&mut self, entries: &Vec<WalEntry>, counts: &mut RecoveryCounts)
        requires
            old(self).memory_storage.inv(),
            old(counts).recovered == 0 && old(counts).failed == 0,
        ensures
            final(counts).recovered == count_accepted(ops_of(views(entries@))),
            final(counts).recovered + final(counts).failed == entries@.len(),
            final(self).memory_storage.inv(),
            texts_of(map_of(final(self).memory_storage.snapshot())) == replay(
                texts_of(map_of(old(self).memory_storage.snapshot())),
                ops_of(views(entries@)),
            ),
            final(self).wal_manager == old(self).wal_manager,
    {
        let ghost start = texts_of(map_of(self.memory_storage.snapshot()));
        let mut i: usize = 0;
        while i < entries.len()
            invariant
                0 <= i <= entries@.len(),
                counts.recovered + counts.failed == i,
                counts.recovered == count_accepted(ops_of(views(entries@.subrange(0, i as int)))),
                self.memory_storage.inv(),
                self.wal_manager == old(self).wal_manager,
                texts_of(map_of(self.memory_storage.snapshot())) == replay(
                    start,
                    ops_of(views(entries@.subrange(0, i as int))),
                ),
            decreases entries@.len() - i,
        {
            let ok = self.apply_operation(&entries[i].operation);
            proof {
                let pre = ops_of(views(entries@.subrange(0, i as int)));
                let post = ops_of(views(entries@.subrange(0, i + 1)));
                assert(post.drop_last() =~= pre);
                assert(post.last() == entries@[i as int]@.op);
            }
            if ok {
                counts.recovered = counts.recovered + 1;
            } else {
                counts.failed = counts.failed + 1;
            }
            proof {
                let pre = ops_of(views(entries@.subrange(0, i as int)));
                let post = ops_of(views(entries@.subrange(0, i + 1)));
                assert(post.drop_last() =~= pre);
                assert(post.last() == entries@[i as int]@.op);
            }
            i = i + 1;
        }
        assert(entries@.subrange(0, i as int) =~= entries@);
    }

    /// Applies one operation to memory; `false` when the store rejected it.
    fn apply_operation(&mut self, op: &WalOperation) -> (ok: bool)
        requires
            old(self).memory_storage.inv(),
        ensures
            ok == accepted(op@),
            final(self).memory_storage.inv(),
            final(self).wal_manager == old(self).wal_manager,
            texts_of(map_of(final(self).memory_storage.snapshot())) == apply_op(
                texts_of(map_of(old(self).memory_storage.snapshot())),
                op@,
            ),
    {
        let ghost before = map_of(self.memory_storage.snapshot());
        match op {
            WalOperation::Put { key, value } => {
                let r = self.memory_storage.put(key.as_str(), value.as_str());
                proof {
                    if r is Ok {
                        let after = map_of(self.memory_storage.snapshot());
                        assert(texts_of(after) =~= texts_of(before).insert(key@, value@));
                    }
                }
                r.is_ok()
            },
            WalOperation::Delete { key } => {
                let r = self.memory_storage.delete(key.as_str());
                proof {
                    if r is Ok {
                        assert(texts_of(map_of(self.memory_storage.snapshot())) =~= texts_of(before).remove(
                            key@,
                        ));
                    }
                }
                r.is_ok()
            },
            WalOperation::Clear => {
                let r = self.memory_storage.clear();
                assert(texts_of(map_of(self.memory_storage.snapshot())) =~= Map::empty());
                r.is_ok()
            },
        }
    }

    /// Checks an operation and gives the entry that logs it: keys and
    /// values are validated before anything is logged. Nothing changes.
    pub fn prepare(&self, operation: WalOperation, timestamp: String) -> (r: StorageResult<WalEntry>)
        requires
            self.inv(),
        ensures
            r is Ok <==> match operation@ {
                OpModel::Put(k, v) => key_valid(k) && value_valid(v),
                OpModel::Delete(k) => key_valid(k),
                OpModel::Clear => true,
            } && self.wal().seq() < u64::MAX,
            r matches Err(e) ==> match operation@ {
                OpModel::Put(k, v) => if !key_valid(k) {
                    e is InvalidKey
                } else if !value_valid(v) {
                    e is InvalidValue
                } else {
                    e is Internal
                },
                OpModel::Delete(k) => if !key_valid(k) {
                    e is InvalidKey
                } else {
                    e is Internal
                },
                OpModel::Clear => e is Internal,
            },
            r matches Ok(e) ==> e.sequence_number == self.wal().seq() + 1 && e.operation == operation
                && e.timestamp == timestamp && checksum_holds(e@) && (e.checksum is Some
                <==> self.wal().checksums()),
    {
        match &operation {
            WalOperation::Put { key, value } => {
                validate_key(key.as_str())?;
                validate_value(value.as_str())?;
            },
            WalOperation::Delete { key } => {
                validate_key(key.as_str())?;
            },
            WalOperation::Clear => {},
        }
        self.wal_manager.prepare_entry(operation, timestamp)
    }

    /// Applies an entry that the caller has appended to the log and
    /// flushed. Returns, for a put, whether the key was new; for a delete,
    /// whether the key was there; for a clear, `true`.
    pub fn apply_logged(&mut self, entry: &WalEntry) -> (r: StorageResult<bool>)
        requires
            old(self).inv(),
            checksum_holds(entry@),
            entry.sequence_number == old(self).wal().seq() + 1,
        ensures
            final(self).inv(),
            final(self).base_seq() == old(self).base_seq(),
            final(self).texts() == apply_op(old(self).texts(), entry.operation@),
            final(self).base_texts() == old(self).base_texts(),
            final(self).logged() == old(self).logged().push(entry@),
            final(self).wal().seq() == entry.sequence_number,
            final(self).wal().checksums() == old(self).wal().checksums(),
            r is Ok <==> match entry.operation@ {
                OpModel::Put(k, v) => key_valid(k) && value_valid(v),
                OpModel::Delete(k) => key_valid(k),
                OpModel::Clear => true,
            },
            r matches Ok(b) ==> match entry.operation@ {
                OpModel::Put(k, v) => b == !old(self).texts().contains_key(k),
                OpModel::Delete(k) => b == old(self).texts().contains_key(k),
                OpModel::Clear => b,
            },
    {
        self.wal_manager.record_appended(entry.sequence_number);
        let ghost before = map_of(self.memory_storage.snapshot());
        let r = match &entry.operation {
            WalOperation::Put { key, value } => {
                let r = self.memory_storage.put(key.as_str(), value.as_str());
                proof {
                    if r is Ok {
                        let after = map_of(self.memory_storage.snapshot());
                        assert(texts_of(after) =~= texts_of(before).insert(key@, value@));
                    }
                }
                r
            },
            WalOperation::Delete { key } => {
                let r = self.memory_storage.delete(key.as_str());
                proof {
                    if r is Ok {
                        assert(texts_of(map_of(self.memory_storage.snapshot())) =~= texts_of(before).remove(
                            key@,
                        ));
                    }
                }
                r
            },
            WalOperation::Clear => {
                let _ = self.memory_storage.clear();
                assert(texts_of(map_of(self.memory_storage.snapshot())) =~= Map::empty());
                Ok(true)
            },
        };
        proof {
            let ghost old_logged = self.logged@;
            self.logged@ = self.logged@.push(entry@);
            assert(ops_of(self.logged@).drop_last() =~= ops_of(old_logged));
            assert forall|k: int| 0 <= k < self.logged@.len() implies checksum_holds(#[trigger] self.logged@[k]) by {
                if k < old_logged.len() {
                    assert(self.logged@[k] == old_logged[k]);
                }
            }
            assert forall|k: int| 0 <= k < self.logged@.len() implies (#[trigger] self.logged@[k]).seq
                == self.base_seq@ + k + 1 by {
                if k < old_logged.len() {
                    assert(self.logged@[k] == old_logged[k]);
                }
            }
        }
        r
    }

    /// The value stored under `key`.
    pub fn get(&mut self, key: &str) -> (r: StorageResult<Value>)
        requires
            old(self).inv(),
        ensures
            final(self).inv(),
            final(self).texts() == old(self).texts(),
            final(self).logged() == old(self).logged(),
            final(self).wal() == old(self).wal(),
            !key_valid(key@) ==> (r is Err && r->Err_0 is InvalidKey),
            key_valid(key@) && old(self).texts().contains_key(key@) ==> r == Ok::<Value, StorageError>(
                map_of(old(self).snapshot())[key@],
            ) && map_of(old(self).snapshot())[key@].value@ == old(self).texts()[key@],
            key_valid(key@) && old(self).texts().contains_key(key@) ==> (r matches Ok(v) && v.value@
                == old(self).texts()[key@] && v.metadata.size == crate::engine::byte_len(old(self).texts()[key@])),
            key_valid(key@) && !old(self).texts().contains_key(key@) ==> (r is Err && r->Err_0 is KeyNotFound),
    {
        proof {
            self.memory_storage.lemma_snapshot_valid();
            let sn = self.memory_storage.snapshot();
            if map_of(sn).contains_key(key@) {
                let i = crate::engine::pos_of(sn, key@);
                assert(sn[i].0@ == key@);
            }
        }
        self.memory_storage.get(key)
    }

    /// Whether `key` is stored.
    pub fn key_exists(&self, key: &str) -> (r: StorageResult<bool>)
        requires
            self.inv(),
        ensures
            r is Ok <==> key_valid(key@),
            r matches Ok(b) ==> b == self.texts().contains_key(key@),
    {
        self.memory_storage.key_exists(key)
    }

    /// The stored keys.
    pub fn keys(&self) -> (r: StorageResult<Vec<String>>)
        requires
            self.inv(),
        ensures
            r matches Ok(v) && v@ == self.snapshot().map_values(|p: (String, Value)| p.0),
    {
        self.memory_storage.keys()
    }

    /// The stored values.
    pub fn values(&self) -> (r: StorageResult<Vec<Value>>)
        requires
            self.inv(),
        ensures
            r matches Ok(v) && v@ == self.snapshot().map_values(|p: (String, Value)| p.1),
    {
        self.memory_storage.values()
    }

    /// A snapshot of all pairs.
    pub fn all(&self) -> (r: StorageResult<Vec<(String, Value)>>)
        requires
            self.inv(),
        ensures
            r matches Ok(v) && v@ == self.snapshot(),
    {
        self.memory_storage.all()
    }

    /// Statistics of the in-memory store.
    pub fn stats(&self) -> (r: StorageResult<Stats>)
        requires
            self.inv(),
        ensures
            r matches Ok(s) && s.key_count == self.snapshot().len() && s.memory_usage == (if self.usage()
                > usize::MAX {
                usize::MAX as nat
            } else {
                self.usage()
            }) && s.get_operations_count == self.counts().0 && s.put_operations_count
                == self.counts().1 && s.delete_operations_count == self.counts().2,
    {
        self.memory_storage.stats()
    }

    /// Size in bytes of the value stored under `key`.
    pub fn size_of_value(&self, key: &str) -> (r: StorageResult<usize>)
        requires
            self.inv(),
        ensures
            !key_valid(key@) ==> (r is Err && r->Err_0 is InvalidKey),
            key_valid(key@) && !self.texts().contains_key(key@) ==> (r is Err && r->Err_0 is KeyNotFound),
            key_valid(key@) && self.texts().contains_key(key@) ==> r == Ok::<usize, StorageError>(
                map_of(self.snapshot())[key@].metadata.size,
            ),
    {
        self.memory_storage.size_of_value(key)
    }

    /// Statistics with the log's path and sequence number.
    pub fn detailed_stats(&self) -> (r: StorageResult<DetailedStats>)
        requires
            self.inv(),
        ensures
            r matches Ok(d) && d.memory_stats.key_count == self.snapshot().len() && d.memory_stats.memory_usage
                == (if self.usage() > usize::MAX {
                usize::MAX as nat
            } else {
                self.usage()
            }) && d.memory_stats.get_operations_count == self.counts().0
                && d.memory_stats.put_operations_count == self.counts().1
                && d.memory_stats.delete_operations_count == self.counts().2 && d.wal_file_path@
                == self.wal().path() && d.wal_sequence_number == self.wal().seq(),
    {
        let memory_stats = self.memory_storage.stats()?;
        Ok(
            DetailedStats {
                memory_stats,
                wal_file_path: owned(self.wal_manager.file_pat()),
                wal_sequence_number: self.wal_manager.current_sequence_number(),
            },
        )
    }

    /// How many log entries the opening replay applied, and how many the
    /// store rejected.
    pub fn recovery_counts(&self) -> (r: RecoveryCounts)
        ensures
            r == self.recovered_counts(),
    {
        self.recovery
    }

    /// Sequence number of the last entry logged or read.
    pub fn wal_sequence_number(&self) -> (r: u64)
        ensures
            r == self.wal().seq(),
    {
        self.wal_manager.current_sequence_number()
    }

    /// Path of the log file.
    pub fn wal_file_path(&self) -> (r: &str)
        ensures
            r@ == self.wal().path(),
    {
        self.wal_manager.file_pat()
    }

    /// Rewrites the log as one put per stored key. `log` is the current log
    /// file; the result carries the entry counts before and after and the
    /// new log, which the caller writes in place of the old one. The
    /// numbering restarts at 1. Reopening on the new log gives back what the
    /// store holds.
    pub fn compact_wal(&mut self, log: &[u8], timestamp: &String) -> (r: StorageResult<(CompactionResult, Vec<u8>)>)
        requires
            old(self).inv(),
        ensures
            final(self).inv(),
            final(self).texts() == old(self).texts(),
            r is Ok <==> read_log(log@) is Some,
            r matches Err(e) ==> e is Internal && final(self).texts() == old(self).texts(),
            r matches Ok((c, new_log)) ==> {
                &&& c.entries_before == read_log(log@)->0.len()
                &&& c.entries_after == old(self).snapshot().len()
                &&& new_log@ == log_text(final(self).logged())
                &&& recovered(new_log@) == Some(old(self).texts())
                &&& final(self).wal().seq() == c.entries_after
                &&& final(self).base_seq() == 0
                &&& final(self).base_texts() == Map::<Seq<char>, Seq<char>>::empty()
                &&& c.entries_after == old(self).texts().len()
                &&& read_log(new_log@) == Some(final(self).logged())
                &&& final(self).logged().len() == c.entries_after
                &&& forall|k: int| 0 <= k < c.entries_after ==> {
                    &&& (#[trigger] final(self).logged()[k]).seq == k + 1
                    &&& final(self).logged()[k].op == OpModel::Put(
                        old(self).snapshot()[k].0@,
                        old(self).snapshot()[k].1.value@,
                    )
                }
            },
    {
        let entries_before = self.wal_manager.read_all_entries(log)?.len();
        let all_data = self.memory_storage.all()?;
        proof {
            self.memory_storage.lemma_snapshot_valid();
        }
        self.wal_manager.truncate();
        let mut out: Vec<u8> = Vec::new();
        let ghost mut written: Seq<EntryModel> = Seq::empty();
        let mut i: usize = 0;
        while i < all_data.len()
            invariant
                0 <= i <= all_data@.len(),
                all_data@ == self.memory_storage.snapshot(),
                distinct_keys(all_data@),
                stored_valid(all_data@),
                self.memory_storage.inv(),
                self.wal_manager.seq() == i,
                self.wal_manager.checksums() == old(self).wal_manager.checksums(),
                self.wal_manager.path() == old(self).wal_manager.path(),
                written.len() == i,
                out@ == log_text(written),
                forall|k: int| 0 <= k < written.len() ==> checksum_holds(#[trigger] written[k]),
                forall|k: int| 0 <= k < written.len() ==> (#[trigger] written[k]).seq == k + 1,
                forall|k: int| 0 <= k < written.len() ==> (#[trigger] written[k]).op == OpModel::Put(
                    all_data@[k].0@,
                    all_data@[k].1.value@,
                ),
                replay(Map::empty(), ops_of(written)) == texts_of(map_of(all_data@.subrange(0, i as int))),
            decreases all_data@.len() - i,
        {
            let op = WalOperation::Put {
                key: all_data[i].0.clone(),
                value: all_data[i].1.value.clone(),
            };
            let entry = self.wal_manager.prepare_entry(op, timestamp.clone())?;
            let line = log_line(&entry);
            let mut grown = line;
            let ghost w0 = written;
            proof {
                lemma_log_text_push(written, entry@);
                lemma_replay_pairs_push(all_data@, i as int);
                written = written.push(entry@);
                assert(ops_of(written).drop_last() =~= ops_of(w0));
                assert forall|k: int| 0 <= k < written.len() implies checksum_holds(#[trigger] written[k]) by {
                    if k < w0.len() {
                        assert(written[k] == w0[k]);
                    }
                }
                assert forall|k: int| 0 <= k < written.len() implies (#[trigger] written[k]).seq == k + 1 by {
                    if k < w0.len() {
                        assert(written[k] == w0[k]);
                    }
                }
                assert forall|k: int| 0 <= k < written.len() implies (#[trigger] written[k]).op == OpModel::Put(
                    all_data@[k].0@,
                    all_data@[k].1.value@,
                ) by {
                    if k < w0.len() {
                        assert(written[k] == w0[k]);
                    }
                }
            }
            let mut next = out;
            next.append(&mut grown);
            out = next;
            self.wal_manager.record_appended(entry.sequence_number);
            i = i + 1;
        }
        proof {
            assert(all_data@.subrange(0, i as int) =~= all_data@);
            lemma_read_log_text(written);
            lemma_map_of_len(all_data@);
            self.base@ = Map::empty();
            self.logged@ = written;
            self.base_seq@ = 0;
        }
        let n = all_data.len();
        Ok((CompactionResult { entries_before, entries_after: n }, out))
    }
}

/// Appending an entry's line to the log of `es` gives the log of `es`
/// followed by the entry.
pub proof fn lemma_log_text_push(es: Seq<EntryModel>, e: EntryModel)
    ensures
        log_text(es.push(e)) == log_text(es) + line_of(e),
    decreases es.len(),
{
    if es.len() == 0 {
        assert(es.push(e).drop_first() =~= Seq::<EntryModel>::empty());
        assert(log_text(es.push(e)) =~= line_of(e) + log_text(Seq::<EntryModel>::empty()));
        assert(log_text(es.push(e)) =~= log_text(es) + line_of(e));
    } else {
        lemma_log_text_push(es.drop_first(), e);
        assert(es.push(e).drop_first() =~= es.drop_first().push(e));
        assert(log_text(es.push(e)) =~= log_text(es) + line_of(e));
    }
}

/// Replaying puts of the first `i + 1` stored pairs adds the pair `i`.
proof fn lemma_replay_pairs_push(s: Seq<(String, Value)>, i: int)
    requires
        distinct_keys(s),
        stored_valid(s),
        0 <= i < s.len(),
    ensures
        texts_of(map_of(s.subrange(0, i + 1))) == texts_of(map_of(s.subrange(0, i))).insert(
            s[i].0@,
            s[i].1.value@,
        ),
        key_valid(s[i].0@) && value_valid(s[i].1.value@),
{
    let pre = s.subrange(0, i);
    assert(s.subrange(0, i + 1) =~= pre.push(s[i]));
    assert(distinct_keys(pre)) by {
        assert forall|a: int, b: int| 0 <= a < b < pre.len() implies pre[a].0@ != pre[b].0@ by {
            assert(pre[a] == s[a] && pre[b] == s[b]);
        }
    }
    assert(!crate::engine::key_in(pre, s[i].0@)) by {
        if crate::engine::key_in(pre, s[i].0@) {
            let j = choose|j: int| 0 <= j < pre.len() && #[trigger] pre[j].0@ == s[i].0@;
            assert(s[j].0@ != s[i].0@);
        }
    }
    lemma_map_of_push(pre, s[i].0, s[i].1);
    assert(texts_of(map_of(pre).insert(s[i].0@, s[i].1)) =~= texts_of(map_of(pre)).insert(
        s[i].0@,
        s[i].1.value@,
    ));
}

/// Recovery equivalence: reopening on the log of any sequence of entries
/// whose checksums hold gives what replaying their operations on an empty
/// store gives. A store opened on an empty log holds, after each applied
/// entry, exactly that replay of the entries logged so far.
pub proof fn lemma_recovery_equivalence(es: Seq<EntryModel>)
    requires
        forall|k: int| 0 <= k < es.len() ==> checksum_holds(#[trigger] es[k]),
    ensures
        recovered(log_text(es)) == Some(replay(Map::empty(), ops_of(es))),
{
    lemma_read_log_text(es);
}

/// Recovery equivalence for a live store: a store opened on an empty log
/// (so `base_texts()` is empty and `base_seq()` is 0), after any sequence of
/// `prepare` / append of `log_line` / `apply_logged` steps, holds exactly
/// what reopening on the log it wrote gives, namely the replay of the
/// logged operations on an empty map; the log's lines are numbered 1, 2,
/// 3, ... in order. Each `apply_logged` adds its entry to `logged()`, and
/// `lemma_log_text_push` shows the file then is `log_text(logged())`.
pub proof fn lemma_store_matches_log(s: PersistentStorage)
    requires
        s.inv(),
        s.base_texts() == Map::<Seq<char>, Seq<char>>::empty(),
        s.base_seq() == 0,
    ensures
        recovered(log_text(s.logged())) == Some(s.texts()),
        s.texts() == replay(Map::empty(), ops_of(s.logged())),
        forall|k: int| 0 <= k < s.logged().len() ==> (#[trigger] s.logged()[k]).seq == k + 1,
{
    lemma_read_log_text(s.logged());
}

/// A persistent store on the log `log` of the default file `zephyrite.wal`.
pub fn persistent_storage(log: &[u8]) -> (r: StorageResult<PersistentStorage>)
    ensures
        r is Ok <==> read_log(log@) is Some,
        r matches Ok(s) ==> s.inv() && Some(s.texts()) == recovered(log@),
{
    PersistentStorage::new("zephyrite.wal", log)
}

/// A persistent store on the log `log` of the file `wal_file_path`.
pub fn persistent_storage_with_wal(wal_file_path: &str, log: &[u8]) -> (r: StorageResult<PersistentStorage>)
    ensures
        r is Ok <==> read_log(log@) is Some,
        r matches Ok(s) ==> s.inv() && Some(s.texts()) == recovered(log@) && s.wal().path() == wal_file_path@,
{
    PersistentStorage::new(wal_file_path, log)
}

/// A persistent store on the log `log` of the file `wal_file_path`, with
/// room for `memory_capacity` pairs and checksums on or off.
pub fn persistent_storage_with_options(
    wal_file_path: &str,
    memory_capacity: usize,
    use_checksums: bool,
    log: &[u8],
) -> (r: StorageResult<PersistentStorage>)
    ensures
        r is Ok <==> read_log(log@) is Some,
        r matches Ok(s) ==> s.inv() && Some(s.texts()) == recovered(log@) && s.wal().checksums()
            == use_checksums,
{
    PersistentStorage::new_with_options(wal_file_path, memory_capacity, use_checksums, log)
}

} // verus!
