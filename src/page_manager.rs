//! Allocation of page ids.
use vstd::prelude::*;

verus! {

/// Strictly ascending: sorted, without duplicates.
pub open spec fn strictly_ascending(s: Seq<u64>) -> bool {
    forall|i: int, j: int| 0 <= i < j < s.len() ==> s[i] < s[j]
}

/// Adds `id` to the ascending `v`, keeping it ascending; does nothing if
/// `id` is there already.
pub fn insert_ascending(v: &mut Vec<u64>, id: u64)
    requires
        strictly_ascending(old(v)@),
    ensures
        strictly_ascending(final(v)@),
        final(v)@.to_set() == old(v)@.to_set().insert(id),
        old(v)@.contains(id) ==> final(v)@ == old(v)@,
        !old(v)@.contains(id) ==> final(v)@.len() == old(v)@.len() + 1,
{
    let mut i: usize = 0;
    while i < v.len() && v[i] < id
        invariant
            *v == *old(v),
            0 <= i <= v@.len(),
            forall|j: int| 0 <= j < i ==> v@[j] < id,
        decreases v@.len() - i,
    {
        i = i + 1;
    }
    if i < v.len() && v[i] == id {
        assert(v@.contains(id));
        return;
    }
    proof {
        assert forall|j: int| 0 <= j < v@.len() implies v@[j] != id by {
            if j >= i {
                assert(j == i || v@[i as int] < v@[j]);
            }
        }
    }
    let ghost before = v@;
    v.insert(i, id);
    proof {
        let after = v@;
        assert(after == before.insert(i as int, id));
        assert forall|a: int, b: int| 0 <= a < b < after.len() implies after[a] < after[b] by {
            if b < i {
            } else if b == i {
            } else if a < i {
                assert(after[b] == before[b - 1]);
                if i < before.len() {
                    assert(before[i as int] > id || before[i as int] == id);
                    assert(before[i as int] <= before[b - 1]);
                }
            } else if a == i {
                assert(before[i as int] > id);
                assert(before[i as int] <= before[b - 1]);
            } else {
            }
        }
        assert(after.to_set() =~= before.to_set().insert(id)) by {
            assert forall|x: u64| after.to_set().contains(x) implies before.to_set().insert(id).contains(x) by {
                let k = choose|k: int| 0 <= k < after.len() && after[k] == x;
                if k < i {
                    assert(before[k] == x);
                } else if k > i {
                    assert(before[k - 1] == x);
                }
            }
            assert forall|x: u64| before.to_set().insert(id).contains(x) implies after.to_set().contains(x) by {
                if x == id {
                    assert(after[i as int] == id);
                } else {
                    let k = choose|k: int| 0 <= k < before.len() && before[k] == x;
                    if k < i {
                        assert(after[k] == x);
                    } else {
                        assert(after[k + 1] == x);
                    }
                }
            }
        }
    }
}


/// Hands out page ids. Id 0 belongs to the file header, so new ids start at
/// 1. Freed ids are kept in ascending order; an allocation takes the largest
/// free id before it mints a new one.
#[derive(Debug)]
pub struct PageManager {
    next_page_id: u64,
    free_pages: Vec<u64>,
}

impl PageManager {
    /// The id that the next minted page gets.
    pub closed spec fn next_id(&self) -> u64 {
        self.next_page_id
    }

    /// The free ids, in ascending order.
    pub closed spec fn free_ids(&self) -> Seq<u64> {
        self.free_pages@
    }

    pub open spec fn wf(&self) -> bool {
        strictly_ascending(self.free_ids())
    }

    /// A manager with no page handed out: the first id will be 1.
    pub fn new() -> (r: PageManager)
        ensures
            r.wf(),
            r.next_id() == 1,
            r.free_ids() == Seq::<u64>::empty(),
    {
        PageManager { next_page_id: 1, free_pages: Vec::new() }
    }

    /// A manager restored from saved state.
    pub fn with_state(next_page_id: u64, free_pages: Vec<u64>) -> (r: PageManager)
        requires
            strictly_ascending(free_pages@),
        ensures
            r.wf(),
            r.next_id() == next_page_id,
            r.free_ids() == free_pages@,
    {
        PageManager { next_page_id, free_pages }
    }

    /// Hands out an id: the largest free id if there is one, else a new id.
    pub fn allocate_page(&mut self) -> (r: u64)
        requires
            old(self).wf(),
            old(self).free_ids().len() > 0 || old(self).next_id() < u64::MAX,
        ensures
            final(self).wf(),
            old(self).free_ids().len() > 0 ==> {
                &&& r == old(self).free_ids().last()
                &&& final(self).free_ids() == old(self).free_ids().drop_last()
                &&& final(self).next_id() == old(self).next_id()
            },
            old(self).free_ids().len() == 0 ==> {
                &&& r == old(self).next_id()
                &&& final(self).free_ids() == old(self).free_ids()
                &&& final(self).next_id() == old(self).next_id() + 1
            },
    {
        if let Some(id) = self.free_pages.pop() {
            return id;
        }
        let page_id = self.next_page_id;
        self.next_page_id = self.next_page_id + 1;
        page_id
    }

    /// Returns `id` to the free list, keeping it ascending. Freeing an id
    /// that is already free changes nothing.
    pub fn free_page(&mut self, id: u64)
        requires
            old(self).wf(),
        ensures
            final(self).wf(),
            final(self).next_id() == old(self).next_id(),
            final(self).free_ids().to_set() == old(self).free_ids().to_set().insert(id),
            old(self).free_ids().contains(id) ==> final(self).free_ids() == old(self).free_ids(),
            !old(self).free_ids().contains(id) ==> final(self).free_ids().len() == old(self).free_ids().len() + 1,
    {
        insert_ascending(&mut self.free_pages, id);
    }

    /// The id that the next minted page gets.
    pub fn next_page_id(&self) -> (r: u64)
        ensures
            r == self.next_id(),
    {
        self.next_page_id
    }

    /// The free ids, in ascending order.
    pub fn free_pages(&self) -> (r: &[u64])
        ensures
            r@ == self.free_ids(),
    {
        self.free_pages.as_slice()
    }

    /// The number of ids handed out or free: every id below the next one,
    /// id 0 aside, plus the free ids.
    pub fn total_pages(&self) -> (r: u64)
        requires
            self.next_id() >= 1,
            self.next_id() - 1 + self.free_ids().len() <= u64::MAX,
        ensures
            r == self.next_id() - 1 + self.free_ids().len(),
    {
        self.next_page_id - 1 + self.free_pages.len() as u64
    }

    /// The number of free ids.
    pub fn free_page_count(&self) -> (r: usize)
        ensures
            r == self.free_ids().len(),
    {
        self.free_pages.len()
    }
}

} // verus!
