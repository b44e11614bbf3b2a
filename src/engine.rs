//! Stored values, statistics, and the interface every storage backend offers.
use crate::error::{owned, StorageResult};
use crate::validation::{key_valid, value_valid};
use vstd::prelude::*;
use vstd::utf8::encode_utf8;

verus! {

#[verifier::external_type_specification]
#[verifier::external_body]
pub struct ExSystemTime(std::time::SystemTime);

/// Relies on `SystemTime::now`: a reading of the system clock.
#[verifier::external_body]
fn clock_now() -> (r: std::time::SystemTime) {
    std::time::SystemTime::now()
}

/// Relies on `SystemTime::duration_since(UNIX_EPOCH)`: the time since the
/// Unix epoch, or `Err` (here `None`) for a time before it; the `Duration`
/// is taken apart with `as_secs` and `subsec_nanos`, which is always below
/// one billion.
#[verifier::external_body]
fn since_unix_epoch(t: std::time::SystemTime) -> (r: Option<(u64, u32)>)
    ensures
        r matches Some((_, n)) ==> n < 1_000_000_000,
{
    t.duration_since(std::time::UNIX_EPOCH).ok().map(|d| (d.as_secs(), d.subsec_nanos()))
}

/// The UTC time `secs` seconds and `nanos` nanoseconds after the Unix epoch,
/// as RFC 3339 text with milliseconds and a `Z` suffix.
pub uninterp spec fn utc_millis_text(secs: i64, nanos: u32) -> Seq<char>;

/// Last second of the year 9999, as seconds since the Unix epoch.
pub const LAST_SECOND_OF_9999: i64 = 253_402_300_799;

/// Relies on `chrono::DateTime::from_timestamp`, which gives `None` only for
/// a time out of chrono's range (years beyond about ±262000) or nanoseconds
/// not below one billion outside a leap second, and on
/// `DateTime::to_rfc3339_opts` with milliseconds and `Z`, which writes such
/// as `2025-01-31T12:00:00.000Z`.
#[verifier::external_body]
fn utc_millis(secs: i64, nanos: u32) -> (r: Option<String>)
    ensures
        r matches Some(t) ==> t@ == utc_millis_text(secs, nanos),
        0 <= secs <= LAST_SECOND_OF_9999 && nanos < 1_000_000_000 ==> r is Some,
{
    chrono::DateTime::from_timestamp(secs, nanos)
        .map(|dt| dt.to_rfc3339_opts(chrono::SecondsFormat::Millis, true))
}

/// The text used when the clock cannot be read or is out of range.
pub open spec fn epoch_text() -> Seq<char> {
    "1970-01-01T00:00:00.000Z"@
}

/// Text that a clock reading gives: the epoch, or some UTC time.
pub open spec fn clock_text(t: Seq<char>) -> bool {
    t == epoch_text() || exists|secs: i64, nanos: u32| t == utc_millis_text(secs, nanos)
}

/// Seconds of a clock reading.
pub open spec fn secs_of(reading: (u64, u32)) -> u64 {
    reading.0
}

/// Nanoseconds of a clock reading.
pub open spec fn nanos_of(reading: (u64, u32)) -> u32 {
    reading.1
}

/// The text of a clock reading `now` (seconds and nanoseconds since the
/// Unix epoch): the UTC time, or the epoch when there is no reading or it
/// lies beyond what can be written.
pub fn timestamp_text(now: Option<(u64, u32)>) -> (r: String)
    ensures
        now is None ==> r@ == epoch_text(),
        now is Some && secs_of(now->0) > i64::MAX as u64 ==> r@ == epoch_text(),
        now is Some && secs_of(now->0) <= LAST_SECOND_OF_9999 && nanos_of(now->0) < 1_000_000_000 ==> r@
            == utc_millis_text(secs_of(now->0) as i64, nanos_of(now->0)),
        now is Some && secs_of(now->0) <= i64::MAX as u64 ==> r@ == utc_millis_text(secs_of(now->0) as i64, nanos_of(now->0))
            || r@ == epoch_text(),
        clock_text(r@),
{
    match now {
        Some((secs, nanos)) => {
            if secs > i64::MAX as u64 {
                return owned("1970-01-01T00:00:00.000Z");
            }
            match utc_millis(secs as i64, nanos) {
                Some(t) => t,
                None => owned("1970-01-01T00:00:00.000Z"),
            }
        },
        None => owned("1970-01-01T00:00:00.000Z"),
    }
}

/// The current UTC time as text such as `2025-01-31T12:00:00.000Z`; the
/// Unix epoch when the clock is before it or out of range.
pub fn current_timestamp() -> (r: String)
    ensures
        clock_text(r@),
{
    timestamp_text(since_unix_epoch(clock_now()))
}

/// Size and timestamps of a stored value.
#[derive(Debug, Clone, PartialEq)]
pub struct ValueMetadata {
    /// Size of the value in bytes.
    pub size: usize,
    /// When the key was first written.
    pub created_at: String,
    /// When the key was last written.
    pub updated_at: String,
}

/// Number of UTF-8 bytes of `s`.
pub open spec fn byte_len(s: Seq<char>) -> nat {
    encode_utf8(s).len()
}

impl ValueMetadata {
    /// Metadata of a value of `size` bytes written now.
    pub fn new(size: usize) -> (r: ValueMetadata)
        ensures
            r.size == size,
            r.created_at == r.updated_at,
            clock_text(r.created_at@),
    {
        let timestamp = current_timestamp();
        ValueMetadata { size, created_at: timestamp.clone(), updated_at: timestamp }
    }

    /// Records a rewrite of `size` bytes at `now`; the creation time stays.
    pub fn update_at(&mut self, size: usize, now: String)
        ensures
            *final(self) == (ValueMetadata { size, created_at: old(self).created_at, updated_at: now }),
    {
        self.size = size;
        self.updated_at = now;
    }

    /// Records a rewrite of `size` bytes now; the creation time stays.
    pub fn update(&mut self, size: usize)
        ensures
            final(self).size == size,
            final(self).created_at == old(self).created_at,
            clock_text(final(self).updated_at@),
    {
        self.update_at(size, current_timestamp());
    }

    /// A copy of the metadata.
    pub fn duplicate(&self) -> (r: ValueMetadata)
        ensures
            r == *self,
    {
        ValueMetadata {
            size: self.size,
            created_at: self.created_at.clone(),
            updated_at: self.updated_at.clone(),
        }
    }
}

/// A stored value with its metadata.
#[derive(Debug, Clone, PartialEq)]
pub struct Value {
    /// The stored text.
    pub value: String,
    /// Size and timestamps.
    pub metadata: ValueMetadata,
}

impl Value {
    /// A value written now; its size is the text's length in bytes.
    pub fn new(value: String) -> (r: Value)
        ensures
            r.value == value,
            r.metadata.size == byte_len(value@),
            r.metadata.created_at == r.metadata.updated_at,
            clock_text(r.metadata.created_at@),
    {
        let size = value.as_str().as_bytes().len();
        Value { value, metadata: ValueMetadata::new(size) }
    }

    /// A copy of the value.
    pub fn duplicate(&self) -> (r: Value)
        ensures
            r == *self,
    {
        Value { value: self.value.clone(), metadata: self.metadata.duplicate() }
    }
}

/// Statistics of a storage backend.
#[derive(Debug, Clone, PartialEq)]
pub struct Stats {
    /// Number of keys stored.
    pub key_count: usize,
    /// Estimated memory use in bytes.
    pub memory_usage: usize,
    /// Number of get operations performed.
    pub get_operations_count: u64,
    /// Number of put operations performed.
    pub put_operations_count: u64,
    /// Number of delete operations performed.
    pub delete_operations_count: u64,
}

/// No two pairs share a key.
pub open spec fn distinct_keys(s: Seq<(String, Value)>) -> bool {
    forall|i: int, j: int| 0 <= i < j < s.len() ==> s[i].0@ != s[j].0@
}

pub open spec fn key_in(s: Seq<(String, Value)>, k: Seq<char>) -> bool {
    exists|i: int| 0 <= i < s.len() && #[trigger] s[i].0@ == k
}

pub open spec fn pos_of(s: Seq<(String, Value)>, k: Seq<char>) -> int {
    choose|i: int| 0 <= i < s.len() && #[trigger] s[i].0@ == k
}

/// The mapping that the pairs `s` stand for.
pub open spec fn map_of(s: Seq<(String, Value)>) -> Map<Seq<char>, Value> {
    Map::new(|k: Seq<char>| key_in(s, k), |k: Seq<char>| s[pos_of(s, k)].1)
}

/// The text stored under each key, without metadata.
pub open spec fn texts_of(m: Map<Seq<char>, Value>) -> Map<Seq<char>, Seq<char>> {
    m.map_values(|v: Value| v.value@)
}

/// Saturating increment of an operation counter.
pub open spec fn bump(n: u64) -> u64 {
    if n == u64::MAX { n } else { (n + 1) as u64 }
}

/// The operations every storage backend offers. Keys and values are
/// checked first; a rejected call changes nothing.
pub trait StorageEngine: Sized {
    /// The stored pairs, keys distinct, in the backend's order.
    spec fn snapshot(&self) -> Seq<(String, Value)>;

    /// Counters of get, put and delete calls.
    spec fn counts(&self) -> (u64, u64, u64);

    /// Estimated memory use of the stored pairs.
    spec fn usage(&self) -> nat;

    spec fn inv(&self) -> bool;

    /// Stores `value` under `key`; `Ok(true)` when the key was absent. A key
    /// written again keeps its creation time.
    fn put(&mut self, key: &str, value: &str) -> (r: StorageResult<bool>)
        requires
            old(self).inv(),
        ensures
            final(self).inv(),
            r is Ok <==> key_valid(key@) && value_valid(value@),
            !key_valid(key@) ==> (r is Err && r->Err_0 is InvalidKey),
            key_valid(key@) && !value_valid(value@) ==> (r is Err && r->Err_0 is InvalidValue),
            r is Err ==> final(self).snapshot() == old(self).snapshot() && final(self).counts() == old(
                self,
            ).counts(),
            r matches Ok(created) ==> {
                let before = map_of(old(self).snapshot());
                let after = map_of(final(self).snapshot());
                &&& created == !before.contains_key(key@)
                &&& after == before.insert(key@, after[key@])
                &&& after[key@].value@ == value@
                &&& after[key@].metadata.size == byte_len(value@)
                &&& !created ==> after[key@].metadata.created_at == before[key@].metadata.created_at
                &&& final(self).counts() == (old(self).counts().0, bump(old(self).counts().1), old(
                    self,
                ).counts().2)
            },
    ;

    /// The value stored under `key`.
    fn get(&mut self, key: &str) -> (r: StorageResult<Value>)
        requires
            old(self).inv(),
        ensures
            final(self).inv(),
            final(self).snapshot() == old(self).snapshot(),
            !key_valid(key@) ==> (r is Err && r->Err_0 is InvalidKey) && final(self).counts() == old(
                self,
            ).counts(),
            key_valid(key@) ==> final(self).counts() == (bump(old(self).counts().0), old(self).counts().1, old(
                self,
            ).counts().2),
            key_valid(key@) && map_of(old(self).snapshot()).contains_key(key@) ==> r == Ok::<
                Value,
                crate::error::StorageError,
            >(map_of(old(self).snapshot())[key@]),
            key_valid(key@) && !map_of(old(self).snapshot()).contains_key(key@) ==> (r is Err && r->Err_0 is KeyNotFound),
    ;

    /// Removes `key`; `Ok(true)` when it was present.
    fn delete(&mut self, key: &str) -> (r: StorageResult<bool>)
        requires
            old(self).inv(),
        ensures
            final(self).inv(),
            r is Ok <==> key_valid(key@),
            r is Err ==> r->Err_0 is InvalidKey && final(self).snapshot() == old(
                self,
            ).snapshot() && final(self).counts() == old(self).counts(),
            r matches Ok(existed) ==> {
                &&& existed == map_of(old(self).snapshot()).contains_key(key@)
                &&& map_of(final(self).snapshot()) == map_of(old(self).snapshot()).remove(key@)
                &&& final(self).counts() == (old(self).counts().0, old(self).counts().1, bump(
                    old(self).counts().2,
                ))
            },
    ;

    /// Whether `key` is stored.
    fn key_exists(&self, key: &str) -> (r: StorageResult<bool>)
        requires
            self.inv(),
        ensures
            r is Ok <==> key_valid(key@),
            r matches Err(e) ==> e is InvalidKey,
            r matches Ok(b) ==> b == map_of(self.snapshot()).contains_key(key@),
    ;

    /// The stored keys.
    fn keys(&self) -> (r: StorageResult<Vec<String>>)
        requires
            self.inv(),
        ensures
            r matches Ok(v) && v@ == self.snapshot().map_values(|p: (String, Value)| p.0),
    ;

    /// The stored values.
    fn values(&self) -> (r: StorageResult<Vec<Value>>)
        requires
            self.inv(),
        ensures
            r matches Ok(v) && v@ == self.snapshot().map_values(|p: (String, Value)| p.1),
    ;

    /// A snapshot of all pairs.
    fn all(&self) -> (r: StorageResult<Vec<(String, Value)>>)
        requires
            self.inv(),
        ensures
            r matches Ok(v) && v@ == self.snapshot(),
    ;

    /// Removes every pair.
    fn clear(&mut self) -> (r: StorageResult<()>)
        requires
            old(self).inv(),
        ensures
            final(self).inv(),
            r is Ok,
            final(self).snapshot() == Seq::<(String, Value)>::empty(),
            final(self).counts() == old(self).counts(),
    ;

    /// Key count, estimated memory use (capped at `usize::MAX`) and the
    /// operation counters.
    fn stats(&self) -> (r: StorageResult<Stats>)
        requires
            self.inv(),
        ensures
            r matches Ok(s) && s.key_count == self.snapshot().len() && s.memory_usage == (if self.usage()
                > usize::MAX {
                usize::MAX as nat
            } else {
                self.usage()
            }) && s.get_operations_count == self.counts().0 && s.put_operations_count
                == self.counts().1 && s.delete_operations_count == self.counts().2,
    ;

    /// Size in bytes of the value stored under `key`.
    fn size_of_value(&self, key: &str) -> (r: StorageResult<usize>)
        requires
            self.inv(),
        ensures
            !key_valid(key@) ==> (r is Err && r->Err_0 is InvalidKey),
            key_valid(key@) && map_of(self.snapshot()).contains_key(key@) ==> r == Ok::<
                usize,
                crate::error::StorageError,
            >(map_of(self.snapshot())[key@].metadata.size),
            key_valid(key@) && !map_of(self.snapshot()).contains_key(key@) ==> (r is Err && r->Err_0 is KeyNotFound),
    ;
}

/// Replacing the pair at the position of its key updates the mapping.
pub proof fn lemma_map_of_update(s: Seq<(String, Value)>, i: int, k: String, v: Value)
    requires
        distinct_keys(s),
        0 <= i < s.len(),
        s[i].0@ == k@,
    ensures
        distinct_keys(s.update(i, (k, v))),
        map_of(s.update(i, (k, v))) == map_of(s).insert(k@, v),
{
    let t = s.update(i, (k, v));
    assert forall|a: int, b: int| 0 <= a < b < t.len() implies t[a].0@ != t[b].0@ by {
        assert(t[a].0@ == s[a].0@ && t[b].0@ == s[b].0@);
    }
    assert forall|x: Seq<char>| key_in(t, x) <==> key_in(s, x) by {
        if key_in(t, x) {
            let j = choose|j: int| 0 <= j < t.len() && #[trigger] t[j].0@ == x;
            assert(s[j].0@ == x);
        }
        if key_in(s, x) {
            let j = choose|j: int| 0 <= j < s.len() && #[trigger] s[j].0@ == x;
            assert(t[j].0@ == x);
        }
    }
    assert forall|x: Seq<char>| key_in(t, x) implies map_of(t)[x] == map_of(s).insert(k@, v)[x] by {
        let j = pos_of(t, x);
        let j2 = pos_of(s, x);
        assert(t[j].0@ == x);
        assert(s[j2].0@ == x);
        assert(s[j].0@ == x);
        assert(j == j2) by {
            if j < j2 {
                assert(s[j].0@ != s[j2].0@);
            } else if j > j2 {
                assert(s[j2].0@ != s[j].0@);
            }
        }
        if x == k@ {
            assert(j == i) by {
                if j < i {
                    assert(s[j].0@ != s[i].0@);
                } else if j > i {
                    assert(s[i].0@ != s[j].0@);
                }
            }
        } else {
            assert(j != i);
        }
    }
    assert(map_of(t) =~= map_of(s).insert(k@, v));
}

/// Appending a pair with a new key extends the mapping.
pub proof fn lemma_map_of_push(s: Seq<(String, Value)>, k: String, v: Value)
    requires
        distinct_keys(s),
        !key_in(s, k@),
    ensures
        distinct_keys(s.push((k, v))),
        map_of(s.push((k, v))) == map_of(s).insert(k@, v),
{
    let t = s.push((k, v));
    assert forall|a: int, b: int| 0 <= a < b < t.len() implies t[a].0@ != t[b].0@ by {
        if b == s.len() {
            assert(s[a].0@ != k@);
        }
    }
    assert forall|x: Seq<char>| key_in(t, x) <==> key_in(s, x) || x == k@ by {
        if key_in(t, x) && x != k@ {
            let j = choose|j: int| 0 <= j < t.len() && #[trigger] t[j].0@ == x;
            assert(s[j].0@ == x);
        }
        if key_in(s, x) {
            let j = choose|j: int| 0 <= j < s.len() && #[trigger] s[j].0@ == x;
            assert(t[j].0@ == x);
        }
        if x == k@ {
            assert(t[s.len() as int].0@ == x);
        }
    }
    assert forall|x: Seq<char>| key_in(t, x) implies map_of(t)[x] == map_of(s).insert(k@, v)[x] by {
        let j = pos_of(t, x);
        assert(t[j].0@ == x);
        if x == k@ {
            assert(j == s.len()) by {
                if j < s.len() {
                    assert(s[j].0@ == k@);
                }
            }
        } else {
            let j2 = pos_of(s, x);
            assert(s[j2].0@ == x);
            assert(j < s.len());
            assert(j == j2) by {
                if j < j2 {
                    assert(s[j].0@ != s[j2].0@);
                } else if j > j2 {
                    assert(s[j2].0@ != s[j].0@);
                }
            }
        }
    }
    assert(map_of(t) =~= map_of(s).insert(k@, v));
}

/// Removing the pair at position `i` removes its key from the mapping.
pub proof fn lemma_map_of_remove(s: Seq<(String, Value)>, i: int)
    requires
        distinct_keys(s),
        0 <= i < s.len(),
    ensures
        distinct_keys(s.remove(i)),
        map_of(s.remove(i)) == map_of(s).remove(s[i].0@),
{
    let t = s.remove(i);
    let k = s[i].0@;
    assert forall|a: int, b: int| 0 <= a < b < t.len() implies t[a].0@ != t[b].0@ by {
        let a2 = if a < i { a } else { a + 1 };
        let b2 = if b < i { b } else { b + 1 };
        assert(t[a] == s[a2] && t[b] == s[b2]);
    }
    assert forall|x: Seq<char>| key_in(t, x) <==> key_in(s, x) && x != k by {
        if key_in(t, x) {
            let j = choose|j: int| 0 <= j < t.len() && #[trigger] t[j].0@ == x;
            let j2 = if j < i { j } else { j + 1 };
            assert(s[j2].0@ == x);
            assert(x != k) by {
                if j2 < i {
                    assert(s[j2].0@ != s[i].0@);
                } else {
                    assert(s[i].0@ != s[j2].0@);
                }
            }
        }
        if key_in(s, x) && x != k {
            let j = choose|j: int| 0 <= j < s.len() && #[trigger] s[j].0@ == x;
            if j < i {
                assert(t[j].0@ == x);
            } else {
                assert(j != i);
                assert(t[j - 1].0@ == x);
            }
        }
    }
    assert forall|x: Seq<char>| key_in(t, x) implies map_of(t)[x] == map_of(s)[x] by {
        let j = pos_of(t, x);
        assert(t[j].0@ == x);
        let j2 = if j < i { j } else { j + 1 };
        assert(s[j2].0@ == x);
        let p = pos_of(s, x);
        assert(s[p].0@ == x);
        assert(p == j2) by {
            if p < j2 {
                assert(s[p].0@ != s[j2].0@);
            } else if p > j2 {
                assert(s[j2].0@ != s[p].0@);
            }
        }
    }
    assert(map_of(t) =~= map_of(s).remove(k));
}

/// The pair at position `i` is what the mapping gives for its key.
pub proof fn lemma_map_of_at(s: Seq<(String, Value)>, i: int)
    requires
        distinct_keys(s),
        0 <= i < s.len(),
    ensures
        map_of(s).contains_key(s[i].0@),
        map_of(s)[s[i].0@] == s[i].1,
{
    let k = s[i].0@;
    assert(key_in(s, k));
    let p = pos_of(s, k);
    assert(s[p].0@ == k);
    assert(p == i) by {
        if p < i {
            assert(s[p].0@ != s[i].0@);
        } else if p > i {
            assert(s[i].0@ != s[p].0@);
        }
    }
}

/// Put then get: once `put(key, value)` succeeds, the mapping it leaves
/// gives, under `key`, a value whose text is `value` and whose size is the
/// text's length in bytes; this is what `get(key)` returns.
pub proof fn lemma_put_then_get(
    before: Map<Seq<char>, Value>,
    after: Map<Seq<char>, Value>,
    key: Seq<char>,
    value: Seq<char>,
)
    requires
        key_valid(key),
        value_valid(value),
        after == before.insert(key, after[key]),
        after[key].value@ == value,
        after[key].metadata.size == byte_len(value),
    ensures
        after.contains_key(key),
        after[key].value@ == value,
        after[key].metadata.size == byte_len(value),
        texts_of(after) == texts_of(before).insert(key, value),
{
    assert(texts_of(after) =~= texts_of(before).insert(key, value));
}

/// Delete is idempotent: for a valid key, a delete leaves a mapping without
/// the key, so a second delete finds nothing and changes nothing; deleting
/// an absent key changes nothing.
pub proof fn lemma_delete_idempotent(m: Map<Seq<char>, Value>, key: Seq<char>)
    requires
        key_valid(key),
    ensures
        !m.remove(key).contains_key(key),
        m.remove(key).remove(key) == m.remove(key),
        !m.contains_key(key) ==> m.remove(key) == m,
{
    assert(m.remove(key).remove(key) =~= m.remove(key));
    if !m.contains_key(key) {
        assert(m.remove(key) =~= m);
    }
}

/// With distinct keys, the mapping has one key per pair.
pub proof fn lemma_map_of_len(s: Seq<(String, Value)>)
    requires
        distinct_keys(s),
    ensures
        map_of(s).dom().finite(),
        map_of(s).len() == s.len(),
        texts_of(map_of(s)).len() == s.len(),
{
    let ks = s.map_values(|p: (String, Value)| p.0@);
    assert(ks.no_duplicates()) by {
        assert forall|i: int, j: int| 0 <= i < ks.len() && 0 <= j < ks.len() && i != j implies ks[i]
            != ks[j] by {
            if i < j {
                assert(s[i].0@ != s[j].0@);
            } else {
                assert(s[j].0@ != s[i].0@);
            }
        }
    }
    assert(map_of(s).dom() =~= ks.to_set()) by {
        assert forall|k: Seq<char>| map_of(s).dom().contains(k) implies ks.to_set().contains(k) by {
            let i = choose|i: int| 0 <= i < s.len() && #[trigger] s[i].0@ == k;
            assert(ks[i] == k);
        }
        assert forall|k: Seq<char>| ks.to_set().contains(k) implies map_of(s).dom().contains(k) by {
            let i = choose|i: int| 0 <= i < ks.len() && ks[i] == k;
            assert(s[i].0@ == k);
        }
    }
    ks.unique_seq_to_set();
    assert(texts_of(map_of(s)).dom() =~= map_of(s).dom());
}

} // verus!
