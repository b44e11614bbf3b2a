//! The location index: where on disk the value of each key is stored.
use crate::error::{joined, owned};
use crate::page_manager::{insert_ascending, strictly_ascending};
use crate::text::{ascii_chars, decimal, push_number};
use vstd::prelude::*;

verus! {

/// Where a value is stored: a page and a byte range within it.
#[derive(Debug, Clone)]
pub struct IndexEntry {
    /// The key this entry refers to.
    pub key: String,
    /// Page that holds the value.
    pub page_id: u64,
    /// Offset of the value within the page.
    pub offset: u16,
    /// Size of the value in bytes.
    pub size: u16,
}

/// `offset + size`, capped at `u16::MAX`.
pub open spec fn end_of(e: IndexEntry) -> u16 {
    if e.offset + e.size > u16::MAX {
        u16::MAX
    } else {
        (e.offset + e.size) as u16
    }
}

/// The entry's byte range lies within a page: `offset + size <= PAGE_SIZE`.
pub open spec fn within_page(e: IndexEntry) -> bool {
    e.offset + e.size <= crate::page::PAGE_BYTES
}

/// Two entries overlap when they are on the same page and their half-open
/// byte ranges `[offset, end)` share a byte: the later start lies before
/// the earlier end. An empty range overlaps nothing.
pub open spec fn overlap(a: IndexEntry, b: IndexEntry) -> bool {
    a.page_id == b.page_id && (if a.offset > b.offset { a.offset } else { b.offset }) < (if end_of(a)
        < end_of(b) {
        end_of(a)
    } else {
        end_of(b)
    })
}

impl IndexEntry {
    pub fn new(key: String, page_id: u64, offset: u16, size: u16) -> (r: IndexEntry)
        ensures
            r == (IndexEntry { key, page_id, offset, size }),
    {
        IndexEntry { key, page_id, offset, size }
    }

    /// A copy of the entry.
    pub fn duplicate(&self) -> (r: IndexEntry)
        ensures
            r == *self,
    {
        IndexEntry { key: self.key.clone(), page_id: self.page_id, offset: self.offset, size: self.size }
    }

    /// The end of the entry's byte range, capped at `u16::MAX`.
    pub fn end_offset(&self) -> (r: u16)
        ensures
            r == end_of(*self),
    {
        self.offset.saturating_add(self.size)
    }

    /// Whether the two entries are on the same page with intersecting byte
    /// ranges. Adjacent ranges do not overlap.
    pub fn overlaps_with(&self, other: &IndexEntry) -> (r: bool)
        ensures
            r == overlap(*self, *other),
    {
        if self.page_id != other.page_id {
            return false;
        }
        let start = if self.offset > other.offset { self.offset } else { other.offset };
        let self_end = self.end_offset();
        let other_end = other.end_offset();
        let end = if self_end < other_end { self_end } else { other_end };
        start < end
    }
}

/// The text reporting that `a` and `b` overlap.
pub open spec fn overlap_message(a: IndexEntry, b: IndexEntry) -> Seq<char> {
    "Overlapping entries on page "@ + ascii_chars(decimal(a.page_id as nat)) + ": "@ + a.key@
        + " and "@ + b.key@
}

/// Reports for the pairs `(s[i], s[k])` with `i < k < j` that overlap, by `k`.
pub open spec fn row_reports(s: Seq<IndexEntry>, i: int, j: int) -> Seq<Seq<char>>
    decreases j - i,
{
    if j <= i + 1 {
        Seq::empty()
    } else {
        row_reports(s, i, j - 1) + if overlap(s[i], s[j - 1]) {
            seq![overlap_message(s[i], s[j - 1])]
        } else {
            Seq::<Seq<char>>::empty()
        }
    }
}

/// Reports for the overlapping pairs `(s[a], s[b])` with `a < b` and
/// `a < i`, by `a` and then `b`.
pub open spec fn reports(s: Seq<IndexEntry>, i: int) -> Seq<Seq<char>>
    decreases i,
{
    if i <= 0 {
        Seq::empty()
    } else {
        reports(s, i - 1) + row_reports(s, i - 1, s.len() as int)
    }
}

/// No two entries of `s` overlap.
pub open spec fn overlap_free(s: Seq<IndexEntry>) -> bool {
    forall|a: int, b: int| 0 <= a < b < s.len() ==> !overlap(#[trigger] s[a], #[trigger] s[b])
}

pub open spec fn has_key(s: Seq<(String, IndexEntry)>, k: Seq<char>) -> bool {
    exists|i: int| 0 <= i < s.len() && #[trigger] s[i].0@ == k
}

pub open spec fn key_pos(s: Seq<(String, IndexEntry)>, k: Seq<char>) -> int {
    choose|i: int| 0 <= i < s.len() && #[trigger] s[i].0@ == k
}

pub open spec fn keys_unique(s: Seq<(String, IndexEntry)>) -> bool {
    forall|i: int, j: int| 0 <= i < j < s.len() ==> s[i].0@ != s[j].0@
}

pub open spec fn entries_of(s: Seq<(String, IndexEntry)>) -> Seq<IndexEntry> {
    s.map_values(|p: (String, IndexEntry)| p.1)
}

/// The entries of `s` on page `page_id`, in order.
pub open spec fn on_page(s: Seq<IndexEntry>, page_id: u64) -> Seq<IndexEntry>
    decreases s.len(),
{
    if s.len() == 0 {
        Seq::empty()
    } else if s.last().page_id == page_id {
        on_page(s.drop_last(), page_id).push(s.last())
    } else {
        on_page(s.drop_last(), page_id)
    }
}

/// The views of a sequence of strings.
pub open spec fn texts(v: Seq<String>) -> Seq<Seq<char>> {
    v.map_values(|s: String| s@)
}

/// Total size of the values of `s`.
pub open spec fn size_total(s: Seq<IndexEntry>) -> nat
    decreases s.len(),
{
    if s.len() == 0 {
        0
    } else {
        size_total(s.drop_last()) + s.last().size as nat
    }
}

/// Total length in bytes of the keys of `s`.
pub open spec fn key_bytes_total(s: Seq<IndexEntry>) -> nat
    decreases s.len(),
{
    if s.len() == 0 {
        0
    } else {
        key_bytes_total(s.drop_last()) + vstd::utf8::encode_utf8(s.last().key@).len()
    }
}

/// Largest value size of `s`, 0 for none.
pub open spec fn size_max(s: Seq<IndexEntry>) -> u16
    decreases s.len(),
{
    if s.len() == 0 {
        0
    } else if s.last().size > size_max(s.drop_last()) {
        s.last().size
    } else {
        size_max(s.drop_last())
    }
}

/// Smallest value size of `s`, `u16::MAX` for none.
pub open spec fn size_min(s: Seq<IndexEntry>) -> u16
    decreases s.len(),
{
    if s.len() == 0 {
        u16::MAX
    } else if s.last().size < size_min(s.drop_last()) {
        s.last().size
    } else {
        size_min(s.drop_last())
    }
}

/// The pages that hold at least one entry of `s`.
pub open spec fn page_set(s: Seq<IndexEntry>) -> Set<u64> {
    Set::new(|p: u64| exists|i: int| 0 <= i < s.len() && #[trigger] s[i].page_id == p)
}

pub open spec fn capped(n: nat) -> usize {
    if n > usize::MAX { usize::MAX } else { n as usize }
}

/// Counts and sizes of an index. Averages are the totals divided by the
/// entry or page count.
#[derive(Debug, Clone, PartialEq, Eq)]
pub struct IndexStats {
    /// Number of entries.
    pub entry_count: usize,
    /// Number of pages that hold data.
    pub page_count: usize,
    /// Total size of the stored values in bytes (capped at `usize::MAX`).
    pub total_data_size: usize,
    /// Total length of the keys in bytes (capped at `usize::MAX`).
    pub total_key_length: usize,
    /// Largest value size; 0 for an empty index.
    pub max_value_size: u16,
    /// Smallest value size; 0 for an empty index.
    pub min_value_size: u16,
}

/// Maps keys to the location of their values. Entries keep the order in
/// which their keys were first inserted.
#[derive(Debug, Default)]
pub struct Index {
    entries: Vec<(String, IndexEntry)>,
}

impl Index {
    /// The (key, entry) pairs, keys unique.
    pub closed spec fn pairs(&self) -> Seq<(String, IndexEntry)> {
        self.entries@
    }

    /// Keys are unique and every entry lies within its page.
    pub open spec fn wf(&self) -> bool {
        &&& keys_unique(self.pairs())
        &&& forall|i: int| 0 <= i < self.pairs().len() ==> within_page(#[trigger] self.pairs()[i].1)
    }

    pub fn new() -> (r: Index)
        ensures
            r.wf(),
            r.pairs() == Seq::<(String, IndexEntry)>::empty(),
    {
        Index { entries: Vec::new() }
    }

    /// An empty index with room reserved for `capacity` entries.
    pub fn with_capacity(capacity: usize) -> (r: Index)
        ensures
            r.wf(),
            r.pairs() == Seq::<(String, IndexEntry)>::empty(),
    {
        Index { entries: Vec::with_capacity(capacity) }
    }

    fn position(&self, key: &str) -> (r: Option<usize>)
        requires
            self.wf(),
        ensures
            r is None <==> !has_key(self.pairs(), key@),
            r matches Some(i) ==> i < self.pairs().len() && self.pairs()[i as int].0@ == key@ && key_pos(
                self.pairs(),
                key@,
            ) == i,
    {
        let k = owned(key);
        let mut i: usize = 0;
        while i < self.entries.len()
            invariant
                keys_unique(self.entries@),
                k@ == key@,
                0 <= i <= self.entries@.len(),
                forall|j: int| 0 <= j < i ==> self.entries@[j].0@ != key@,
            decreases self.entries@.len() - i,
        {
            if self.entries[i].0 == k {
                proof {
                    let p = key_pos(self.entries@, key@);
                    assert(self.entries@[i as int].0@ == key@);
                    if p < i {
                    } else if p > i {
                        assert(self.entries@[i as int].0@ != self.entries@[p].0@);
                    }
                }
                return Some(i);
            }
            i = i + 1;
        }
        None
    }

    /// Inserts or replaces the entry of `key`; returns the entry it replaced.
    pub fn insert(&mut self, key: String, entry: IndexEntry) -> (r: Option<IndexEntry>)
        requires
            old(self).wf(),
            within_page(entry),
        ensures
            final(self).wf(),
            has_key(old(self).pairs(), key@) ==> {
                let i = key_pos(old(self).pairs(), key@);
                &&& r == Some(old(self).pairs()[i].1)
                &&& final(self).pairs() == old(self).pairs().update(i, (key, entry))
            },
            !has_key(old(self).pairs(), key@) ==> r is None && final(self).pairs() == old(
                self,
            ).pairs().push((key, entry)),
    {
        match self.position(key.as_str()) {
            Some(i) => {
                let ghost s = self.entries@;
                let (_k, old_entry) = self.entries.remove(i);
                self.entries.insert(i, (key, entry));
                proof {
                    assert(self.entries@ =~= s.update(i as int, (key, entry)));
                    assert forall|a: int, b: int| 0 <= a < b < self.entries@.len() implies self.entries@[a].0@
                        != self.entries@[b].0@ by {
                        assert(self.entries@[a].0@ == s[a].0@ && self.entries@[b].0@ == s[b].0@);
                    }
                    assert forall|a: int| 0 <= a < self.entries@.len() implies within_page(
                        #[trigger] self.entries@[a].1,
                    ) by {
                        if a != i {
                            assert(self.entries@[a] == s[a]);
                        }
                    }
                }
                Some(old_entry)
            },
            None => {
                let ghost s = self.entries@;
                self.entries.push((key, entry));
                assert forall|a: int| 0 <= a < self.entries@.len() implies within_page(
                    #[trigger] self.entries@[a].1,
                ) by {
                    if a < s.len() {
                        assert(self.entries@[a] == s[a]);
                    }
                }
                None
            },
        }
    }

    /// The entry of `key`.
    pub fn get(&self, key: &str) -> (r: Option<&IndexEntry>)
        requires
            self.wf(),
        ensures
            r is None <==> !has_key(self.pairs(), key@),
            r matches Some(e) ==> *e == self.pairs()[key_pos(self.pairs(), key@)].1,
    {
        match self.position(key) {
            Some(i) => Some(&self.entries[i].1),
            None => None,
        }
    }

    /// Takes out the entry of `key`.
    pub fn remove(&mut self, key: &str) -> (r: Option<IndexEntry>)
        requires
            old(self).wf(),
        ensures
            final(self).wf(),
            r is None <==> !has_key(old(self).pairs(), key@),
            r is None ==> final(self).pairs() == old(self).pairs(),
            r matches Some(e) ==> {
                let i = key_pos(old(self).pairs(), key@);
                &&& e == old(self).pairs()[i].1
                &&& final(self).pairs() == old(self).pairs().remove(i)
            },
    {
        match self.position(key) {
            Some(i) => {
                let ghost s = self.entries@;
                let (_k, e) = self.entries.remove(i);
                proof {
                    assert forall|a: int, b: int| 0 <= a < b < self.entries@.len() implies self.entries@[a].0@
                        != self.entries@[b].0@ by {
                        let a2 = if a < i { a } else { a + 1 };
                        let b2 = if b < i { b } else { b + 1 };
                        assert(self.entries@[a] == s[a2] && self.entries@[b] == s[b2]);
                    }
                    assert forall|a: int| 0 <= a < self.entries@.len() implies within_page(
                        #[trigger] self.entries@[a].1,
                    ) by {
                        let a2 = if a < i { a } else { a + 1 };
                        assert(self.entries@[a] == s[a2]);
                    }
                }
                Some(e)
            },
            None => None,
        }
    }

    /// Whether `key` has an entry.
    pub fn contains_key(&self, key: &str) -> (r: bool)
        requires
            self.wf(),
        ensures
            r == has_key(self.pairs(), key@),
    {
        self.position(key).is_some()
    }

    /// The keys, in insertion order.
    pub fn keys(&self) -> (r: Vec<String>)
        ensures
            r@ == self.pairs().map_values(|p: (String, IndexEntry)| p.0),
    {
        let mut r: Vec<String> = Vec::new();
        let mut i: usize = 0;
        while i < self.entries.len()
            invariant
                0 <= i <= self.entries@.len(),
                r@ == self.entries@.subrange(0, i as int).map_values(|p: (String, IndexEntry)| p.0),
            decreases self.entries@.len() - i,
        {
            r.push(self.entries[i].0.clone());
            i = i + 1;
            assert(r@ =~= self.entries@.subrange(0, i as int).map_values(|p: (String, IndexEntry)| p.0));
        }
        assert(self.entries@.subrange(0, i as int) =~= self.entries@);
        r
    }

    /// The (key, entry) pairs, in insertion order.
    pub fn entries(&self) -> (r: &[(String, IndexEntry)])
        ensures
            r@ == self.pairs(),
    {
        self.entries.as_slice()
    }

    /// The number of entries.
    pub fn len(&self) -> (r: usize)
        ensures
            r == self.pairs().len(),
    {
        self.entries.len()
    }

    pub fn is_empty(&self) -> (r: bool)
        ensures
            r == (self.pairs().len() == 0),
    {
        self.entries.len() == 0
    }

    /// Removes every entry.
    pub fn clear(&mut self)
        ensures
            final(self).wf(),
            final(self).pairs() == Seq::<(String, IndexEntry)>::empty(),
    {
        self.entries.clear();
    }

    /// Copies of the entries stored on page `page_id`, in insertion order.
    pub fn entries_on_page(&self, page_id: u64) -> (r: Vec<IndexEntry>)
        ensures
            r@ == on_page(entries_of(self.pairs()), page_id),
    {
        let ghost all = entries_of(self.entries@);
        let mut r: Vec<IndexEntry> = Vec::new();
        let mut i: usize = 0;
        while i < self.entries.len()
            invariant
                0 <= i <= self.entries@.len(),
                all == entries_of(self.entries@),
                r@ == on_page(all.subrange(0, i as int), page_id),
            decreases self.entries@.len() - i,
        {
            assert(all.subrange(0, i + 1).drop_last() =~= all.subrange(0, i as int));
            if self.entries[i].1.page_id == page_id {
                r.push(self.entries[i].1.duplicate());
            }
            i = i + 1;
        }
        assert(all.subrange(0, i as int) =~= all);
        r
    }

    /// The pages that hold at least one value, ascending, each once.
    pub fn used_pages(&self) -> (r: Vec<u64>)
        ensures
            strictly_ascending(r@),
            r@.to_set() == Set::new(
                |p: u64| exists|i: int| 0 <= i < self.pairs().len() && #[trigger] self.pairs()[i].1.page_id == p,
            ),
    {
        let mut r: Vec<u64> = Vec::new();
        let mut i: usize = 0;
        while i < self.entries.len()
            invariant
                0 <= i <= self.entries@.len(),
                strictly_ascending(r@),
                r@.to_set() == Set::new(
                    |p: u64| exists|j: int| 0 <= j < i && #[trigger] self.entries@[j].1.page_id == p,
                ),
            decreases self.entries@.len() - i,
        {
            let ghost before = r@.to_set();
            insert_ascending(&mut r, self.entries[i].1.page_id);
            i = i + 1;
            proof {
                assert(r@.to_set() =~= Set::new(
                    |p: u64| exists|j: int| 0 <= j < i && #[trigger] self.entries@[j].1.page_id == p,
                )) by {
                    assert forall|p: u64| Set::new(
                        |p: u64| exists|j: int| 0 <= j < i && #[trigger] self.entries@[j].1.page_id == p,
                    ).contains(p) implies r@.to_set().contains(p) by {
                        let j = choose|j: int| 0 <= j < i && #[trigger] self.entries@[j].1.page_id == p;
                        if j < i - 1 {
                            assert(before.contains(p));
                        }
                    }
                }
            }
        }
        r
    }

    /// Counts and sizes of the entries.
    pub fn stats(&self) -> (r: IndexStats)
        ensures
            r.entry_count == self.pairs().len(),
            r.page_count == page_set(entries_of(self.pairs())).len(),
            r.total_data_size == capped(size_total(entries_of(self.pairs()))),
            r.total_key_length == capped(key_bytes_total(entries_of(self.pairs()))),
            r.max_value_size == size_max(entries_of(self.pairs())),
            r.min_value_size == if self.pairs().len() == 0 {
                0
            } else {
                size_min(entries_of(self.pairs()))
            },
    {
        let ghost all = entries_of(self.entries@);
        let pages = self.used_pages();
        proof {
            assert(pages@.no_duplicates()) by {
                assert forall|a: int, b: int| 0 <= a < pages@.len() && 0 <= b < pages@.len() && a != b implies pages@[a]
                    != pages@[b] by {
                    if a < b {
                        assert(pages@[a] < pages@[b]);
                    } else {
                        assert(pages@[b] < pages@[a]);
                    }
                }
            }
            pages@.unique_seq_to_set();
            assert(pages@.to_set() =~= page_set(all)) by {
                assert forall|p: u64| page_set(all).contains(p) implies pages@.to_set().contains(p) by {
                    let i = choose|i: int| 0 <= i < all.len() && #[trigger] all[i].page_id == p;
                    assert(self.entries@[i].1.page_id == p);
                }
                assert forall|p: u64| pages@.to_set().contains(p) implies page_set(all).contains(p) by {
                    let i = choose|i: int| 0 <= i < self.entries@.len() && #[trigger] self.entries@[i].1.page_id == p;
                    assert(all[i].page_id == p);
                }
            }
        }
        let mut total_data: usize = 0;
        let mut total_keys: usize = 0;
        let mut max_size: u16 = 0;
        let mut min_size: u16 = u16::MAX;
        let mut i: usize = 0;
        while i < self.entries.len()
            invariant
                0 <= i <= self.entries@.len(),
                all == entries_of(self.entries@),
                total_data == capped(size_total(all.subrange(0, i as int))),
                total_keys == capped(key_bytes_total(all.subrange(0, i as int))),
                max_size == size_max(all.subrange(0, i as int)),
                min_size == size_min(all.subrange(0, i as int)),
            decreases self.entries@.len() - i,
        {
            let e = &self.entries[i].1;
            assert(all.subrange(0, i + 1).drop_last() =~= all.subrange(0, i as int));
            total_data = total_data.saturating_add(e.size as usize);
            total_keys = total_keys.saturating_add(e.key.as_str().as_bytes().len());
            if e.size > max_size {
                max_size = e.size;
            }
            if e.size < min_size {
                min_size = e.size;
            }
            i = i + 1;
        }
        assert(all.subrange(0, i as int) =~= all);
        IndexStats {
            entry_count: self.entries.len(),
            page_count: pages.len(),
            total_data_size: total_data,
            total_key_length: total_keys,
            max_value_size: max_size,
            min_value_size: if self.entries.len() == 0 { 0 } else { min_size },
        }
    }

    /// Reports each pair of entries whose byte ranges overlap on the same
    /// page, as "Overlapping entries on page P: K1 and K2", with the pairs
    /// taken in insertion order. An empty result means no overlap.
    pub fn validate(&self) -> (r: Vec<String>)
        ensures
            texts(r@) == reports(entries_of(self.pairs()), self.pairs().len() as int),
    {
        let ghost s = entries_of(self.entries@);
        let n = self.entries.len();
        let mut r: Vec<String> = Vec::new();
        let mut i: usize = 0;
        while i < n
            invariant
                n == self.entries@.len(),
                s == entries_of(self.entries@),
                0 <= i <= n,
                texts(r@) == reports(s, i as int),
            decreases n - i,
        {
            let ghost start = texts(r@);
            let mut j: usize = i + 1;
            while j < n
                invariant
                    n == self.entries@.len(),
                    s == entries_of(self.entries@),
                    0 <= i < n,
                    i + 1 <= j <= n,
                    texts(r@) == start + row_reports(s, i as int, j as int),
                decreases n - j,
            {
                let a = &self.entries[i].1;
                let b = &self.entries[j].1;
                let ghost before = texts(r@);
                if a.overlaps_with(b) {
                    let mut m = owned("Overlapping entries on page ");
                    push_number(&mut m, a.page_id);
                    let m = joined(m.as_str(), ": ");
                    let m = joined(m.as_str(), a.key.as_str());
                    let m = joined(m.as_str(), " and ");
                    let m = joined(m.as_str(), b.key.as_str());
                    r.push(m);
                    proof {
                        assert(texts(r@) =~= before.push(m@));
                        assert(m@ =~= overlap_message(s[i as int], s[j as int]));
                    }
                } else {
                    assert(texts(r@) =~= before + Seq::<Seq<char>>::empty());
                }
                j = j + 1;
                proof {
                    assert(row_reports(s, i as int, j as int) == row_reports(s, i as int, j - 1) + if overlap(
                        s[i as int],
                        s[j - 1],
                    ) {
                        seq![overlap_message(s[i as int], s[j - 1])]
                    } else {
                        Seq::<Seq<char>>::empty()
                    });
                    assert(texts(r@) =~= start + row_reports(s, i as int, j as int));
                }
            }
            i = i + 1;
            proof {
                assert(texts(r@) =~= reports(s, i as int));
            }
        }
        r
    }
}

proof fn lemma_row_reports_empty(s: Seq<IndexEntry>, i: int, j: int)
    requires
        0 <= i,
        j <= s.len(),
    ensures
        row_reports(s, i, j).len() == 0 <==> forall|k: int| i < k < j ==> !overlap(s[i], #[trigger] s[k]),
    decreases j - i,
{
    if j > i + 1 {
        lemma_row_reports_empty(s, i, j - 1);
    }
}

proof fn lemma_reports_empty(s: Seq<IndexEntry>, i: int)
    requires
        i <= s.len(),
    ensures
        reports(s, i).len() == 0 <==> forall|a: int, b: int|
            0 <= a < i && a < b < s.len() ==> !overlap(#[trigger] s[a], #[trigger] s[b]),
    decreases i,
{
    if i > 0 {
        lemma_reports_empty(s, i - 1);
        lemma_row_reports_empty(s, i - 1, s.len() as int);
        if reports(s, i).len() == 0 {
            assert forall|a: int, b: int| 0 <= a < i && a < b < s.len() implies !overlap(
                #[trigger] s[a],
                #[trigger] s[b],
            ) by {
                if a == i - 1 {
                    assert(!overlap(s[i - 1], s[b]));
                }
            }
        }
    }
}

/// Validation of the index reports nothing exactly when no two of its
/// entries are on the same page with overlapping byte ranges.
pub proof fn lemma_validate_flags_overlaps(s: Seq<IndexEntry>)
    ensures
        reports(s, s.len() as int).len() == 0 <==> overlap_free(s),
{
    lemma_reports_empty(s, s.len() as int);
}

/// The pairs of positions `(a, b)`, `a < b`, whose entries overlap.
pub open spec fn overlapping_pairs(s: Seq<IndexEntry>) -> Set<(int, int)> {
    Set::new(|p: (int, int)| 0 <= p.0 < p.1 < s.len() && overlap(s[p.0], s[p.1]))
}

spec fn row_pairs(s: Seq<IndexEntry>, i: int, j: int) -> Seq<(int, int)>
    decreases j - i,
{
    if j <= i + 1 {
        Seq::empty()
    } else {
        row_pairs(s, i, j - 1) + if overlap(s[i], s[j - 1]) {
            seq![(i, j - 1)]
        } else {
            Seq::<(int, int)>::empty()
        }
    }
}

spec fn all_pairs(s: Seq<IndexEntry>, i: int) -> Seq<(int, int)>
    decreases i,
{
    if i <= 0 {
        Seq::empty()
    } else {
        all_pairs(s, i - 1) + row_pairs(s, i - 1, s.len() as int)
    }
}

proof fn lemma_contains_concat<T>(a: Seq<T>, b: Seq<T>, x: T)
    ensures
        (a + b).contains(x) <==> a.contains(x) || b.contains(x),
{
    if (a + b).contains(x) {
        let k = choose|k: int| 0 <= k < (a + b).len() && (a + b)[k] == x;
        if k < a.len() {
            assert(a[k] == x);
        } else {
            assert(b[k - a.len()] == x);
        }
    }
    if a.contains(x) {
        let k = choose|k: int| 0 <= k < a.len() && a[k] == x;
        assert((a + b)[k] == x);
    }
    if b.contains(x) {
        let k = choose|k: int| 0 <= k < b.len() && b[k] == x;
        assert((a + b)[a.len() + k] == x);
    }
}

proof fn lemma_no_dup_concat<T>(a: Seq<T>, b: Seq<T>)
    requires
        a.no_duplicates(),
        b.no_duplicates(),
        forall|x: T| a.contains(x) ==> !b.contains(x),
    ensures
        (a + b).no_duplicates(),
{
    let c = a + b;
    assert forall|i: int, j: int| 0 <= i < c.len() && 0 <= j < c.len() && i != j implies c[i] != c[j] by {
        if i < a.len() && j >= a.len() {
            assert(a.contains(c[i]));
            assert(b[j - a.len()] == c[j]);
            assert(b.contains(c[j]));
        } else if j < a.len() && i >= a.len() {
            assert(a.contains(c[j]));
            assert(b[i - a.len()] == c[i]);
            assert(b.contains(c[i]));
        } else if i < a.len() {
            assert(c[i] == a[i] && c[j] == a[j]);
        } else {
            assert(c[i] == b[i - a.len()] && c[j] == b[j - a.len()]);
        }
    }
}

proof fn lemma_row_pairs(s: Seq<IndexEntry>, i: int, j: int)
    requires
        0 <= i,
        j <= s.len(),
    ensures
        row_pairs(s, i, j).len() == row_reports(s, i, j).len(),
        row_pairs(s, i, j).no_duplicates(),
        forall|p: (int, int)| #[trigger] row_pairs(s, i, j).contains(p) <==> p.0 == i && i < p.1 < j && overlap(
            s[i],
            s[p.1],
        ),
    decreases j - i,
{
    if j > i + 1 {
        lemma_row_pairs(s, i, j - 1);
        let a = row_pairs(s, i, j - 1);
        let b = if overlap(s[i], s[j - 1]) {
            seq![(i, j - 1)]
        } else {
            Seq::<(int, int)>::empty()
        };
        assert forall|p: (int, int)| #[trigger] row_pairs(s, i, j).contains(p) <==> p.0 == i && i < p.1 < j
            && overlap(s[i], s[p.1]) by {
            lemma_contains_concat(a, b, p);
            if b.contains(p) {
                assert(b[0] == p);
            }
            if p.0 == i && p.1 == j - 1 && overlap(s[i], s[p.1]) {
                assert(b[0] == p);
            }
        }
        assert forall|x: (int, int)| a.contains(x) implies !b.contains(x) by {
            if b.contains(x) {
                assert(b[0] == x);
            }
        }
        lemma_no_dup_concat(a, b);
    }
}

proof fn lemma_all_pairs(s: Seq<IndexEntry>, i: int)
    requires
        0 <= i <= s.len(),
    ensures
        all_pairs(s, i).len() == reports(s, i).len(),
        all_pairs(s, i).no_duplicates(),
        forall|p: (int, int)| #[trigger] all_pairs(s, i).contains(p) <==> 0 <= p.0 < i && p.0 < p.1 < s.len()
            && overlap(s[p.0], s[p.1]),
    decreases i,
{
    if i > 0 {
        lemma_all_pairs(s, i - 1);
        lemma_row_pairs(s, i - 1, s.len() as int);
        let a = all_pairs(s, i - 1);
        let b = row_pairs(s, i - 1, s.len() as int);
        assert forall|p: (int, int)| #[trigger] all_pairs(s, i).contains(p) <==> 0 <= p.0 < i && p.0 < p.1
            < s.len() && overlap(s[p.0], s[p.1]) by {
            lemma_contains_concat(a, b, p);
        }
        lemma_no_dup_concat(a, b);
    }
}

/// Validation reports one message per overlapping pair of entries.
pub proof fn lemma_validate_counts_pairs(s: Seq<IndexEntry>)
    ensures
        overlapping_pairs(s).finite(),
        reports(s, s.len() as int).len() == overlapping_pairs(s).len(),
{
    lemma_all_pairs(s, s.len() as int);
    let l = all_pairs(s, s.len() as int);
    assert(l.to_set() =~= overlapping_pairs(s));
    l.unique_seq_to_set();
}

} // verus!
