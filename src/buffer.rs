//! A bounded cache of pages with least-recently-used eviction.
//!
//! A page that leaves the cache while dirty is handed back to the caller,
//! which writes it out: the cache never drops an unwritten change.
use crate::error::StorageResult;
use crate::page::Page;
use vstd::prelude::*;

verus! {

/// No two pages share an id.
pub open spec fn ids_unique(s: Seq<Page>) -> bool {
    forall|i: int, j: int| 0 <= i < j < s.len() ==> s[i].id != s[j].id
}

pub open spec fn holds_id(s: Seq<Page>, id: u64) -> bool {
    exists|i: int| 0 <= i < s.len() && #[trigger] s[i].id == id
}

/// The position of the page with `id`; meaningful when `holds_id(s, id)`.
pub open spec fn index_of(s: Seq<Page>, id: u64) -> int {
    choose|i: int| 0 <= i < s.len() && #[trigger] s[i].id == id
}

/// `s` without the page that has `id`.
pub open spec fn without_id(s: Seq<Page>, id: u64) -> Seq<Page> {
    if holds_id(s, id) {
        s.remove(index_of(s, id))
    } else {
        s
    }
}

/// The ids of the dirty pages of `s`, in order.
pub open spec fn dirty_ids(s: Seq<Page>) -> Seq<u64>
    decreases s.len(),
{
    if s.len() == 0 {
        Seq::empty()
    } else if s.last().dirty {
        dirty_ids(s.drop_last()).push(s.last().id)
    } else {
        dirty_ids(s.drop_last())
    }
}

/// The pages of `s` with their dirty flag cleared.
pub open spec fn all_clean(s: Seq<Page>) -> Seq<Page> {
    s.map_values(|p: Page| Page { dirty: false, ..p })
}

/// What the cache holds after `page` is inserted into `s` with room for
/// `capacity` pages, and the victim that made room, if any.
pub open spec fn after_insert(s: Seq<Page>, capacity: nat, page: Page) -> (Seq<Page>, Option<Page>) {
    let rest = without_id(s, page.id);
    if capacity == 0 {
        (s, None)
    } else if rest.len() >= capacity {
        (rest.drop_first().push(page), Some(rest[0]))
    } else {
        (rest.push(page), None)
    }
}

/// Counts of a page cache.
#[derive(Debug, Clone, PartialEq, Eq)]
pub struct BufferPoolStats {
    /// Most pages the cache keeps.
    pub capacity: usize,
    /// Pages cached now.
    pub cached_pages: usize,
    /// Cached pages that are dirty.
    pub dirty_pages: usize,
}

/// A cache of at most `capacity` pages.
pub struct BufferPool {
    /// Cached pages, least recently used first.
    pages: Vec<Page>,
    capacity: usize,
}

impl BufferPool {
    /// The cached pages, least recently used first.
    pub closed spec fn cached(&self) -> Seq<Page> {
        self.pages@
    }

    pub closed spec fn cap(&self) -> nat {
        self.capacity as nat
    }

    pub open spec fn wf(&self) -> bool {
        &&& ids_unique(self.cached())
        &&& self.cached().len() <= self.cap()
    }

    /// An empty cache with room for `capacity` pages.
    pub fn new(capacity: usize) -> (r: BufferPool)
        ensures
            r.wf(),
            r.cached() == Seq::<Page>::empty(),
            r.cap() == capacity,
    {
        BufferPool { pages: Vec::new(), capacity }
    }

    fn position(&self, page_id: u64) -> (r: Option<usize>)
        requires
            ids_unique(self.pages@),
        ensures
            r is None <==> !holds_id(self.pages@, page_id),
            r matches Some(i) ==> i < self.pages@.len() && self.pages@[i as int].id == page_id
                && index_of(self.pages@, page_id) == i,
    {
        let mut i: usize = 0;
        while i < self.pages.len()
            invariant
                0 <= i <= self.pages@.len(),
                ids_unique(self.pages@),
                forall|j: int| 0 <= j < i ==> self.pages@[j].id != page_id,
            decreases self.pages@.len() - i,
        {
            if self.pages[i].id == page_id {
                proof {
                    let k = index_of(self.pages@, page_id);
                    assert(self.pages@[i as int].id == page_id);
                    assert(0 <= k < self.pages@.len() && self.pages@[k].id == page_id);
                    if k < i {
                        assert(self.pages@[k].id != self.pages@[i as int].id);
                    } else if k > i {
                        assert(self.pages@[i as int].id != self.pages@[k].id);
                    }
                }
                return Some(i);
            }
            i = i + 1;
        }
        None
    }

    proof fn lemma_remove_keeps_unique(s: Seq<Page>, i: int)
        requires
            ids_unique(s),
            0 <= i < s.len(),
        ensures
            ids_unique(s.remove(i)),
            forall|id: u64| holds_id(s.remove(i), id) <==> holds_id(s, id) && id != s[i].id,
    {
        let r = s.remove(i);
        assert forall|a: int, b: int| 0 <= a < b < r.len() implies r[a].id != r[b].id by {
            let a2 = if a < i { a } else { a + 1 };
            let b2 = if b < i { b } else { b + 1 };
            assert(r[a] == s[a2] && r[b] == s[b2]);
        }
        assert forall|id: u64| holds_id(r, id) <==> holds_id(s, id) && id != s[i].id by {
            if holds_id(r, id) {
                let k = choose|k: int| 0 <= k < r.len() && #[trigger] r[k].id == id;
                let k2 = if k < i { k } else { k + 1 };
                assert(s[k2].id == id);
            }
            if holds_id(s, id) && id != s[i].id {
                let k = choose|k: int| 0 <= k < s.len() && #[trigger] s[k].id == id;
                if k < i {
                    assert(r[k].id == id);
                } else {
                    assert(r[k - 1].id == id);
                }
            }
        }
    }

    /// The cached page `page_id`, now the most recently used. The cache
    /// stays the only writer of its pages: the page is lent read-only.
    pub fn get_page(&mut self, page_id: u64) -> (r: Option<&Page>)
        requires
            old(self).wf(),
        ensures
            final(self).wf(),
            final(self).cap() == old(self).cap(),
            r is None <==> !holds_id(old(self).cached(), page_id),
            r is None ==> final(self).cached() == old(self).cached(),
            r matches Some(p) ==> {
                &&& final(self).cached() == without_id(old(self).cached(), page_id).push(*p)
                &&& *p == old(self).cached()[index_of(old(self).cached(), page_id)]
            },
    {
        match self.position(page_id) {
            None => None,
            Some(i) => {
                proof {
                    Self::lemma_remove_keeps_unique(self.pages@, i as int);
                }
                let page = self.pages.remove(i);
                self.pages.push(page);
                let n = self.pages.len();
                Some(&self.pages[n - 1])
            },
        }
    }

    /// Inserts `page` as the most recently used, replacing a cached page
    /// with the same id. When the cache is full, the least recently used
    /// page leaves first; if it is dirty it is returned, to be written out.
    /// With a capacity of zero nothing is kept, and a dirty `page` comes
    /// straight back.
    pub fn insert_page(&mut self, page: Page) -> (r: StorageResult<Option<Page>>)
        requires
            old(self).wf(),
        ensures
            final(self).wf(),
            final(self).cap() == old(self).cap(),
            final(self).cached() == after_insert(old(self).cached(), old(self).cap(), page).0,
            old(self).cap() == 0 ==> r == Ok::<Option<Page>, crate::error::StorageError>(
                if page.dirty { Some(page) } else { None },
            ),
            old(self).cap() > 0 ==> r == Ok::<Option<Page>, crate::error::StorageError>(
                match after_insert(old(self).cached(), old(self).cap(), page).1 {
                    Some(v) => if v.dirty { Some(v) } else { None },
                    None => None,
                },
            ),
    {
        if self.capacity == 0 {
            if page.dirty {
                return Ok(Some(page));
            }
            return Ok(None);
        }
        let ghost s0 = self.pages@;
        match self.position(page.id) {
            Some(i) => {
                proof {
                    Self::lemma_remove_keeps_unique(self.pages@, i as int);
                }
                let _replaced = self.pages.remove(i);
            },
            None => {},
        }
        assert(self.pages@ == without_id(s0, page.id));
        let mut victim: Option<Page> = None;
        if self.pages.len() >= self.capacity {
            proof {
                Self::lemma_remove_keeps_unique(self.pages@, 0);
                assert(self.pages@.remove(0) =~= self.pages@.drop_first());
            }
            let lru = self.pages.remove(0);
            if lru.dirty {
                victim = Some(lru);
            }
        }
        proof {
            assert forall|a: int, b: int| 0 <= a < b < self.pages@.len() + 1 implies
                #[trigger] self.pages@.push(page)[a].id != #[trigger] self.pages@.push(page)[b].id by {
                if b == self.pages@.len() {
                    assert(self.pages@[a].id != page.id);
                }
            }
        }
        self.pages.push(page);
        Ok(victim)
    }

    /// Marks the cached page `page_id` dirty; does nothing if it is not cached.
    pub fn mark_dirty(&mut self, page_id: u64)
        requires
            old(self).wf(),
        ensures
            final(self).wf(),
            final(self).cap() == old(self).cap(),
            holds_id(old(self).cached(), page_id) ==> final(self).cached() == old(self).cached().update(
                index_of(old(self).cached(), page_id),
                Page { dirty: true, ..old(self).cached()[index_of(old(self).cached(), page_id)] },
            ),
            !holds_id(old(self).cached(), page_id) ==> final(self).cached() == old(self).cached(),
    {
        if let Some(i) = self.position(page_id) {
            let mut page = self.pages.remove(i);
            page.dirty = true;
            self.pages.insert(i, page);
            proof {
                let s = old(self).pages@;
                assert(self.pages@ =~= s.update(i as int, page));
                assert forall|a: int, b: int| 0 <= a < b < self.pages@.len() implies self.pages@[a].id
                    != self.pages@[b].id by {
                    assert(self.pages@[a].id == s[a].id && self.pages@[b].id == s[b].id);
                }
            }
        }
    }

    /// The ids of the dirty cached pages, least recently used first.
    pub fn get_dirty_pages(&self) -> (r: Vec<u64>)
        ensures
            r@ == dirty_ids(self.cached()),
    {
        let mut r: Vec<u64> = Vec::new();
        let mut i: usize = 0;
        while i < self.pages.len()
            invariant
                0 <= i <= self.pages@.len(),
                r@ == dirty_ids(self.pages@.subrange(0, i as int)),
            decreases self.pages@.len() - i,
        {
            assert(self.pages@.subrange(0, i + 1).drop_last() =~= self.pages@.subrange(0, i as int));
            if self.pages[i].dirty {
                r.push(self.pages[i].id);
            }
            i = i + 1;
        }
        assert(self.pages@.subrange(0, i as int) =~= self.pages@);
        r
    }

    /// Takes the cached page `page_id` out of the cache.
    pub fn remove_page(&mut self, page_id: u64) -> (r: Option<Page>)
        requires
            old(self).wf(),
        ensures
            final(self).wf(),
            final(self).cap() == old(self).cap(),
            final(self).cached() == without_id(old(self).cached(), page_id),
            r is None <==> !holds_id(old(self).cached(), page_id),
            r matches Some(p) ==> p == old(self).cached()[index_of(old(self).cached(), page_id)],
    {
        match self.position(page_id) {
            None => None,
            Some(i) => {
                proof {
                    Self::lemma_remove_keeps_unique(self.pages@, i as int);
                }
                Some(self.pages.remove(i))
            },
        }
    }

    /// Whether page `page_id` is cached.
    pub fn contains_page(&self, page_id: u64) -> (r: bool)
        requires
            self.wf(),
        ensures
            r == holds_id(self.cached(), page_id),
    {
        self.position(page_id).is_some()
    }

    /// The number of cached pages.
    pub fn cached_page_count(&self) -> (r: usize)
        ensures
            r == self.cached().len(),
    {
        self.pages.len()
    }

    /// The most pages the cache keeps.
    pub fn capacity(&self) -> (r: usize)
        ensures
            r == self.cap(),
    {
        self.capacity
    }

    /// Empties the cache. The dirty pages that were cached are returned, to
    /// be written out.
    pub fn clear(&mut self) -> (r: Vec<Page>)
        requires
            old(self).wf(),
        ensures
            final(self).wf(),
            final(self).cap() == old(self).cap(),
            final(self).cached() == Seq::<Page>::empty(),
            r@ == dirty_pages(old(self).cached()),
    {
        let mut dirty: Vec<Page> = Vec::new();
        let ghost all = self.pages@;
        while self.pages.len() > 0
            invariant
                self.capacity == old(self).capacity,
                all == old(self).pages@,
                dirty@ + dirty_pages(self.pages@) == dirty_pages(all),
            decreases self.pages@.len(),
        {
            let ghost before = self.pages@;
            let p = self.pages.remove(0);
            if p.dirty {
                dirty.push(p);
            }
            proof {
                assert(before.drop_first() =~= self.pages@);
                assert(dirty_pages(before) == (if p.dirty { seq![p] } else { Seq::<Page>::empty() }) + dirty_pages(self.pages@));
                if p.dirty {
                    assert(dirty@ =~= dirty@.drop_last() + seq![p]);
                } else {
                    assert(Seq::<Page>::empty() + dirty_pages(self.pages@) =~= dirty_pages(self.pages@));
                }
            }
        }
        assert(dirty_pages(self.pages@) == Seq::<Page>::empty());
        assert(dirty@ + Seq::<Page>::empty() =~= dirty@);
        dirty
    }

    /// Capacity, number of cached pages and number of dirty ones.
    pub fn stats(&self) -> (r: BufferPoolStats)
        ensures
            r.capacity == self.cap(),
            r.cached_pages == self.cached().len(),
            r.dirty_pages == dirty_ids(self.cached()).len(),
    {
        let dirty = self.get_dirty_pages();
        BufferPoolStats { capacity: self.capacity, cached_pages: self.pages.len(), dirty_pages: dirty.len() }
    }

    /// Writes out every dirty page, as far as the cache is concerned: clears
    /// the dirty flags and returns the ids of the pages that were dirty,
    /// least recently used first.
    pub fn flush_dirty_pages(&mut self) -> (r: StorageResult<Vec<u64>>)
        requires
            old(self).wf(),
        ensures
            final(self).wf(),
            final(self).cap() == old(self).cap(),
            final(self).cached() == all_clean(old(self).cached()),
            r matches Ok(ids) && ids@ == dirty_ids(old(self).cached()),
    {
        let ids = self.get_dirty_pages();
        let mut i: usize = 0;
        while i < self.pages.len()
            invariant
                0 <= i <= self.pages@.len(),
                self.capacity == old(self).capacity,
                self.pages@.len() == old(self).pages@.len(),
                forall|j: int| 0 <= j < self.pages@.len() ==> #[trigger] self.pages@[j] == if j < i {
                    Page { dirty: false, ..old(self).pages@[j] }
                } else {
                    old(self).pages@[j]
                },
            decreases self.pages@.len() - i,
        {
            if self.pages[i].dirty {
                let mut page = self.pages.remove(i);
                page.dirty = false;
                self.pages.insert(i, page);
            }
            i = i + 1;
        }
        proof {
            assert(self.pages@ =~= all_clean(old(self).pages@));
            let s = self.pages@;
            assert forall|a: int, b: int| 0 <= a < b < s.len() implies s[a].id != s[b].id by {
                assert(s[a].id == old(self).pages@[a].id && s[b].id == old(self).pages@[b].id);
            }
        }
        Ok(ids)
    }
}

/// The dirty pages of `s`, in order.
pub open spec fn dirty_pages(s: Seq<Page>) -> Seq<Page>
    decreases s.len(),
{
    if s.len() == 0 {
        Seq::empty()
    } else {
        (if s[0].dirty { seq![s[0]] } else { Seq::<Page>::empty() }) + dirty_pages(s.drop_first())
    }
}

} // verus!
