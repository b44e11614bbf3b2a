//! Fixed-size pages, the unit of the on-disk format.
use crate::error::owned;
use vstd::prelude::*;

verus! {

/// Size of a page in bytes (4 KiB).
pub const PAGE_SIZE: u16 = 4096;

/// [`PAGE_SIZE`] as a `usize`.
pub const PAGE_BYTES: usize = 4096;

/// A page of the database file: an id and a block of [`PAGE_SIZE`] bytes.
/// Id 0 is reserved for the file header.
#[derive(Debug, Clone, Default, PartialEq, Eq)]
pub struct Page {
    /// Identifier of the page.
    pub id: u64,
    /// The page's bytes.
    pub data: Vec<u8>,
    /// Whether the page was modified since it was last written out.
    pub dirty: bool,
}

/// `n` zero bytes.
pub open spec fn zeros(n: nat) -> Seq<u8> {
    Seq::new(n, |i: int| 0u8)
}

impl Page {
    /// A page holds exactly [`PAGE_SIZE`] bytes.
    pub open spec fn wf(&self) -> bool {
        self.data@.len() == PAGE_BYTES
    }

    /// A clean page of zero bytes.
    pub fn new(id: u64) -> (r: Page)
        ensures
            r.id == id,
            r.data@ == zeros(PAGE_BYTES as nat),
            !r.dirty,
            r.wf(),
    {
        let data: Vec<u8> = vec![0u8; PAGE_BYTES];
        assert(data@ =~= zeros(PAGE_BYTES as nat));
        Page { id, data, dirty: false }
    }

    /// A clean page that starts with `data`, padded with zero bytes.
    /// `data` must fit in a page.
    pub fn from_data(id: u64, data: Vec<u8>) -> (r: Page)
        requires
            data@.len() <= PAGE_BYTES,
        ensures
            r.id == id,
            r.data@ == data@ + zeros((PAGE_BYTES - data@.len()) as nat),
            !r.dirty,
            r.wf(),
    {
        let ghost given = data@;
        let mut data = data;
        while data.len() < PAGE_BYTES
            invariant
                given.len() <= data@.len() <= PAGE_BYTES,
                data@ == given + zeros((data@.len() - given.len()) as nat),
            decreases PAGE_BYTES - data@.len(),
        {
            data.push(0u8);
            assert(data@ =~= given + zeros((data@.len() - given.len()) as nat));
        }
        Page { id, data, dirty: false }
    }

    /// Marks the page as modified.
    pub fn mark_dirty(&mut self)
        ensures
            *final(self) == (Page { dirty: true, ..*old(self) }),
    {
        self.dirty = true;
    }

    /// Whether the page was modified since it was last written out.
    pub fn is_dirty(&self) -> (r: bool)
        ensures
            r == self.dirty,
    {
        self.dirty
    }

    /// Clears the modified flag.
    pub fn clear_dirty(&mut self)
        ensures
            *final(self) == (Page { dirty: false, ..*old(self) }),
    {
        self.dirty = false;
    }

    /// Number of bytes the page holds.
    pub fn size(&self) -> (r: usize)
        ensures
            r == self.data@.len(),
    {
        self.data.len()
    }

    /// Writes `bytes` at `offset` and marks the page dirty. Fails, changing
    /// nothing, when the write would pass the end of the page.
    pub fn write_data(&mut self, offset: usize, bytes: &[u8]) -> (r: Result<(), String>)
        requires
            old(self).wf(),
        ensures
            r is Ok <==> offset + bytes@.len() <= PAGE_BYTES,
            r is Ok ==> final(self).id == old(self).id && final(self).dirty
                && final(self).data@ == old(self).data@.subrange(0, offset as int) + bytes@
                + old(self).data@.subrange(offset + bytes@.len(), PAGE_BYTES as int),
            r is Err ==> *final(self) == *old(self) && r->Err_0@ == "Data exceeds page size"@,
            final(self).wf(),
    {
        if offset > PAGE_BYTES || bytes.len() > PAGE_BYTES - offset {
            return Err(owned("Data exceeds page size"));
        }
        let ghost before = self.data@;
        let mut i: usize = 0;
        while i < bytes.len()
            invariant
                offset + bytes@.len() <= PAGE_BYTES,
                0 <= i <= bytes@.len(),
                self.data@.len() == PAGE_BYTES,
                self.id == old(self).id,
                self.dirty == old(self).dirty,
                before == old(self).data@,
                forall|j: int| 0 <= j < PAGE_BYTES ==> #[trigger] self.data@[j] == if offset <= j < offset + i {
                    bytes@[j - offset]
                } else {
                    before[j]
                },
            decreases bytes@.len() - i,
        {
            self.data[offset + i] = bytes[i];
            i = i + 1;
        }
        self.dirty = true;
        assert(self.data@ =~= before.subrange(0, offset as int) + bytes@ + before.subrange(
            offset + bytes@.len(),
            PAGE_BYTES as int,
        ));
        Ok(())
    }

    /// The `length` bytes at `offset`. Fails when the read would pass the end
    /// of the page.
    pub fn read_data(&self, offset: usize, length: usize) -> (r: Result<&[u8], String>)
        requires
            self.wf(),
        ensures
            r is Ok <==> offset + length <= PAGE_BYTES,
            r is Ok ==> r->Ok_0@ == self.data@.subrange(offset as int, offset + length),
            r is Err ==> r->Err_0@ == "Read exceeds page size"@,
    {
        if offset > PAGE_BYTES || length > PAGE_BYTES - offset {
            return Err(owned("Read exceeds page size"));
        }
        Ok(vstd::slice::slice_subrange(self.data.as_slice(), offset, offset + length))
    }

    /// Bytes left unused in the page: none for a well-formed page.
    pub fn free_space(&self) -> (r: usize)
        ensures
            r == if self.data@.len() >= PAGE_BYTES { 0 } else { PAGE_BYTES - self.data@.len() },
    {
        if self.data.len() >= PAGE_BYTES {
            0
        } else {
            PAGE_BYTES - self.data.len()
        }
    }
}

} // verus!
