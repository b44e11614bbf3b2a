//! The 64-byte header at page 0 of a database file.
//!
//! Layout, little-endian: bytes 0..9 the identifier `ZEPHYRITE`, 9..11 the
//! format version, 11..13 the page size, 13..21 the next free page id,
//! 21..29 the free page count, 29..37 the index page id; zeros up to 64.
use crate::error::{joined, owned, StorageError, StorageResult};
use crate::page::PAGE_SIZE;
use crate::text::push_number;
use vstd::bytes::{
    spec_u16_from_le_bytes, spec_u16_to_le_bytes, spec_u64_from_le_bytes, spec_u64_to_le_bytes,
};
use vstd::prelude::*;

verus! {

/// Version of the storage format that this library writes and reads.
pub const FORMAT_VERSION: u16 = 1;

/// Identifier at the start of every database file.
pub const ZEPHYRITE: [u8; 9] = [90, 69, 80, 72, 89, 82, 73, 84, 69];

/// Size of the serialized header.
pub const HEADER_SIZE: usize = 64;

pub open spec fn magic() -> Seq<u8> {
    seq![90u8, 69, 80, 72, 89, 82, 73, 84, 69]
}

/// `x` is a power of two.
pub open spec fn is_pow2_u16(x: u16) -> bool {
    x == 1 || x == 2 || x == 4 || x == 8 || x == 16 || x == 32 || x == 64 || x == 128 || x == 256
        || x == 512 || x == 1024 || x == 2048 || x == 4096 || x == 8192 || x == 16384 || x
        == 32768
}

/// Header of a database file.
#[derive(Debug, Clone)]
pub struct FileHeader {
    pub zephyrite_file_id: [u8; 9],
    pub version: u16,
    pub page_size: u16,
    pub next_page: u64,
    pub free_pages_count: u64,
    pub index_page_id: u64,
}

/// Which check a header fails, in the order in which they are made.
pub enum HeaderFault {
    Version,
    PageSize,
    NextPage,
}

pub open spec fn header_fault(version: u16, page_size: u16, next_page: u64) -> Option<HeaderFault> {
    if version == 0 || version > FORMAT_VERSION {
        Some(HeaderFault::Version)
    } else if !is_pow2_u16(page_size) {
        Some(HeaderFault::PageSize)
    } else if next_page == 0 {
        Some(HeaderFault::NextPage)
    } else {
        None
    }
}

/// `n` zero bytes.
pub open spec fn zero_bytes(n: nat) -> Seq<u8> {
    Seq::new(n, |i: int| 0u8)
}

/// `buf` with `data` written at `offset`.
pub open spec fn written_at(buf: Seq<u8>, offset: int, data: Seq<u8>) -> Seq<u8> {
    buf.subrange(0, offset) + data + buf.subrange(offset + data.len(), buf.len() as int)
}

impl FileHeader {
    /// The bytes of the header.
    pub open spec fn bytes(&self) -> Seq<u8> {
        self.zephyrite_file_id@ + spec_u16_to_le_bytes(self.version) + spec_u16_to_le_bytes(
            self.page_size,
        ) + spec_u64_to_le_bytes(self.next_page) + spec_u64_to_le_bytes(self.free_pages_count)
            + spec_u64_to_le_bytes(self.index_page_id) + zero_bytes(27)
    }

    /// The header of a new file: current version, 4 KiB pages, next page 1,
    /// no free page, index at page 0.
    pub fn new() -> (r: FileHeader)
        ensures
            r.zephyrite_file_id@ == magic(),
            r.version == FORMAT_VERSION,
            r.page_size == PAGE_SIZE,
            r.next_page == 1,
            r.free_pages_count == 0,
            r.index_page_id == 0,
    {
        let r = FileHeader {
            zephyrite_file_id: ZEPHYRITE,
            version: FORMAT_VERSION,
            page_size: PAGE_SIZE,
            next_page: 1,
            free_pages_count: 0,
            index_page_id: 0,
        };
        assert(r.zephyrite_file_id@ =~= magic());
        r
    }

    /// Writes `data` into `buffer` at `offset` and returns the offset just
    /// past it. Fails, changing nothing, when `data` does not fit.
    pub fn write_bytes_at(buffer: &mut [u8], offset: usize, data: &[u8]) -> (r: StorageResult<usize>)
        ensures
            r is Ok <==> offset + data@.len() <= old(buffer)@.len(),
            r is Ok ==> r->Ok_0 == offset + data@.len() && final(buffer)@ == written_at(
                old(buffer)@,
                offset as int,
                data@,
            ),
            r is Err ==> final(buffer)@ == old(buffer)@ && r->Err_0 is Internal,
    {
        if offset > buffer.len() || data.len() > buffer.len() - offset {
            let mut msg = owned("Buffer too small for write at offset ");
            push_number(&mut msg, offset as u64);
            return Err(StorageError::Internal(msg));
        }
        let ghost before = buffer@;
        let n = buffer.len();
        let mut i: usize = 0;
        while i < data.len()
            invariant
                offset + data@.len() <= before.len(),
                before.len() == n,
                buffer@.len() == before.len(),
                0 <= i <= data@.len(),
                forall|j: int| 0 <= j < before.len() ==> #[trigger] buffer@[j] == if offset <= j < offset + i {
                    data@[j - offset]
                } else {
                    before[j]
                },
            decreases data@.len() - i,
        {
            buffer[offset + i] = data[i];
            i = i + 1;
        }
        assert(buffer@ =~= written_at(before, offset as int, data@));
        Ok(offset + data.len())
    }

    /// The header as its 64 bytes.
    pub fn serialize(&self) -> (r: StorageResult<Vec<u8>>)
        ensures
            r matches Ok(b) && b@ == self.bytes(),
    {
        let mut bytes: Vec<u8> = vec![0u8; HEADER_SIZE];
        assert(bytes@ =~= zero_bytes(64));
        let b0 = vstd::array::array_as_slice(&self.zephyrite_file_id);
        let b1 = vstd::bytes::u16_to_le_bytes(self.version);
        let b2 = vstd::bytes::u16_to_le_bytes(self.page_size);
        let b3 = vstd::bytes::u64_to_le_bytes(self.next_page);
        let b4 = vstd::bytes::u64_to_le_bytes(self.free_pages_count);
        let b5 = vstd::bytes::u64_to_le_bytes(self.index_page_id);
        proof {
            vstd::bytes::lemma_auto_spec_u16_to_from_le_bytes();
            vstd::bytes::lemma_auto_spec_u64_to_from_le_bytes();
        }
        let o = Self::write_bytes_at(bytes.as_mut_slice(), 0, b0)?;
        let o = Self::write_bytes_at(bytes.as_mut_slice(), o, b1.as_slice())?;
        let o = Self::write_bytes_at(bytes.as_mut_slice(), o, b2.as_slice())?;
        let o = Self::write_bytes_at(bytes.as_mut_slice(), o, b3.as_slice())?;
        let o = Self::write_bytes_at(bytes.as_mut_slice(), o, b4.as_slice())?;
        let o = Self::write_bytes_at(bytes.as_mut_slice(), o, b5.as_slice())?;
        assert(o == 37);
        assert(bytes@ =~= self.bytes());
        Ok(bytes)
    }

    /// The header as its 64 bytes, in a vector.
    pub fn serialize_vec(&self) -> (r: StorageResult<Vec<u8>>)
        ensures
            r matches Ok(b) && b@ == self.bytes(),
    {
        self.serialize()
    }

    /// Reads a little-endian `u16` at `offset`; fails when the buffer is
    /// too short.
    pub fn read_u16_le(bytes: &[u8], offset: usize) -> (r: StorageResult<u16>)
        ensures
            r is Ok <==> offset + 2 <= bytes@.len(),
            r matches Ok(v) ==> v == spec_u16_from_le_bytes(bytes@.subrange(offset as int, offset + 2)),
            r matches Err(e) ==> e is Internal,
    {
        if offset > bytes.len() || bytes.len() - offset < 2 {
            let mut msg = owned("Buffer too short for u16 at offset ");
            push_number(&mut msg, offset as u64);
            return Err(StorageError::Internal(msg));
        }
        Ok(vstd::bytes::u16_from_le_bytes(vstd::slice::slice_subrange(bytes, offset, offset + 2)))
    }

    /// Reads a little-endian `u64` at `offset`; fails when the buffer is
    /// too short.
    pub fn read_u64_le(bytes: &[u8], offset: usize) -> (r: StorageResult<u64>)
        ensures
            r is Ok <==> offset + 8 <= bytes@.len(),
            r matches Ok(v) ==> v == spec_u64_from_le_bytes(bytes@.subrange(offset as int, offset + 8)),
            r matches Err(e) ==> e is Internal,
    {
        if offset > bytes.len() || bytes.len() - offset < 8 {
            let mut msg = owned("Buffer too short for u64 at offset ");
            push_number(&mut msg, offset as u64);
            return Err(StorageError::Internal(msg));
        }
        Ok(vstd::bytes::u64_from_le_bytes(vstd::slice::slice_subrange(bytes, offset, offset + 8)))
    }

    /// Checks the version, the page size (a power of two) and the next page
    /// id (not 0).
    pub fn validate(&self) -> (r: StorageResult<()>)
        ensures
            r is Ok <==> header_fault(self.version, self.page_size, self.next_page) is None,
            r matches Err(e) ==> e is Internal,
    {
        if self.version == 0 || self.version > FORMAT_VERSION {
            let mut msg = owned("Unsupported format version: ");
            push_number(&mut msg, self.version as u64);
            return Err(StorageError::Internal(msg));
        }
        let ps = self.page_size;
        let pow2 = if ps == 0 {
            false
        } else {
            let m: u16 = ps - 1;
            assert((ps & m) == 0 <==> (ps == 1 || ps == 2 || ps == 4 || ps == 8 || ps == 16 || ps
                == 32 || ps == 64 || ps == 128 || ps == 256 || ps == 512 || ps == 1024 || ps == 2048
                || ps == 4096 || ps == 8192 || ps == 16384 || ps == 32768)) by (bit_vector)
                requires
                    m + 1 == ps,
                    ps != 0,
            ;
            (ps & m) == 0
        };
        if !pow2 {
            let mut msg = owned("Invalid page size: ");
            push_number(&mut msg, ps as u64);
            return Err(StorageError::Internal(joined(msg.as_str(), " (must be power of 2)")));
        }
        if self.next_page == 0 {
            return Err(StorageError::Internal(owned("Invalid next_page: cannot be 0")));
        }
        Ok(())
    }

    /// Reads a header from the first 64 bytes of `bytes`. Fails when there
    /// are fewer than 64 bytes, when the identifier is not `ZEPHYRITE`, or
    /// when the fields do not pass [`FileHeader::validate`].
    pub fn deserialize(bytes: &[u8]) -> (r: StorageResult<FileHeader>)
        ensures
            r is Ok <==> bytes@.len() >= HEADER_SIZE && bytes@.subrange(0, 9) == magic()
                && header_fault(
                spec_u16_from_le_bytes(bytes@.subrange(9, 11)),
                spec_u16_from_le_bytes(bytes@.subrange(11, 13)),
                spec_u64_from_le_bytes(bytes@.subrange(13, 21)),
            ) is None,
            r matches Ok(h) ==> {
                &&& h.zephyrite_file_id@ == magic()
                &&& h.version == spec_u16_from_le_bytes(bytes@.subrange(9, 11))
                &&& h.page_size == spec_u16_from_le_bytes(bytes@.subrange(11, 13))
                &&& h.next_page == spec_u64_from_le_bytes(bytes@.subrange(13, 21))
                &&& h.free_pages_count == spec_u64_from_le_bytes(bytes@.subrange(21, 29))
                &&& h.index_page_id == spec_u64_from_le_bytes(bytes@.subrange(29, 37))
            },
            r matches Err(e) ==> e is Internal,
    {
        if bytes.len() < HEADER_SIZE {
            let mut msg = owned("Invalid header size: expected 64, got ");
            push_number(&mut msg, bytes.len() as u64);
            return Err(StorageError::Internal(msg));
        }
        let mut i: usize = 0;
        while i < 9
            invariant
                bytes@.len() >= HEADER_SIZE,
                0 <= i <= 9,
                forall|j: int| 0 <= j < i ==> bytes@[j] == magic()[j],
            decreases 9 - i,
        {
            if bytes[i] != ZEPHYRITE[i] {
                assert(bytes@.subrange(0, 9)[i as int] != magic()[i as int]);
                return Err(StorageError::Internal(owned("Invalid Zephyrite file identifier")));
            }
            i = i + 1;
        }
        assert(bytes@.subrange(0, 9) =~= magic());
        let version = Self::read_u16_le(bytes, 9)?;
        let page_size = Self::read_u16_le(bytes, 11)?;
        let next_page = Self::read_u64_le(bytes, 13)?;
        let free_pages_count = Self::read_u64_le(bytes, 21)?;
        let index_page_id = Self::read_u64_le(bytes, 29)?;
        let header = FileHeader {
            zephyrite_file_id: ZEPHYRITE,
            version,
            page_size,
            next_page,
            free_pages_count,
            index_page_id,
        };
        assert(header.zephyrite_file_id@ =~= magic());
        header.validate()?;
        Ok(header)
    }
}

/// Reading back the bytes of a valid header gives the same fields.
pub proof fn lemma_header_round_trip(h: FileHeader)
    requires
        h.zephyrite_file_id@ == magic(),
        header_fault(h.version, h.page_size, h.next_page) is None,
    ensures
        h.bytes().len() == HEADER_SIZE,
        h.bytes().subrange(0, 9) == magic(),
        spec_u16_from_le_bytes(h.bytes().subrange(9, 11)) == h.version,
        spec_u16_from_le_bytes(h.bytes().subrange(11, 13)) == h.page_size,
        spec_u64_from_le_bytes(h.bytes().subrange(13, 21)) == h.next_page,
        spec_u64_from_le_bytes(h.bytes().subrange(21, 29)) == h.free_pages_count,
        spec_u64_from_le_bytes(h.bytes().subrange(29, 37)) == h.index_page_id,
{
    vstd::bytes::lemma_auto_spec_u16_to_from_le_bytes();
    vstd::bytes::lemma_auto_spec_u64_to_from_le_bytes();
    let b = h.bytes();
    assert(h.zephyrite_file_id@.len() == 9);
    assert(b.subrange(0, 9) =~= magic());
    assert(b.subrange(9, 11) =~= spec_u16_to_le_bytes(h.version));
    assert(b.subrange(11, 13) =~= spec_u16_to_le_bytes(h.page_size));
    assert(b.subrange(13, 21) =~= spec_u64_to_le_bytes(h.next_page));
    assert(b.subrange(21, 29) =~= spec_u64_to_le_bytes(h.free_pages_count));
    assert(b.subrange(29, 37) =~= spec_u64_to_le_bytes(h.index_page_id));
}

} // verus!
