//! Hierarchy entries and hierarchy pages.

use vstd::prelude::*;
use crate::bytes::{i32_le_bytes, le_field, le_value, read_i32_at, read_u64_at, signed32, u64_le_bytes, lemma_signed32_bits};
use crate::error::CopcError;
use crate::key::{key_at, VoxelKey};

verus! {

/// Size in bytes of one hierarchy entry in the file.
pub const ENTRY_SIZE: usize = 32;

/// One row of a hierarchy page: a key with either the location of its point data
/// (`point_count >= 0`) or the location of another hierarchy page
/// (`point_count == -1`).
#[derive(Clone, Copy, Debug, PartialEq, Eq, Structural)]
pub struct Entry {
    /// Key of the octree node that this entry describes.
    pub key: VoxelKey,
    /// Absolute offset of the point-data chunk, or of a child hierarchy page if
    /// `point_count` is -1.
    pub offset: u64,
    /// Size in bytes of the point-data chunk, or of the child hierarchy page if
    /// `point_count` is -1.
    pub byte_size: i32,
    /// Number of points in the chunk, or -1 for a pointer to another page.
    pub point_count: i32,
}

/// `e` is the entry that the 32 bytes at `pos` of `b` encode: key, offset (`u64`),
/// byte size (`i32`) and point count (`i32`), little-endian.
pub open spec fn entry_at(e: Entry, b: Seq<u8>, pos: int) -> bool {
    &&& key_at(e.key, b, pos)
    &&& e.offset as nat == le_field(b, pos + 16, 8)
    &&& e.byte_size as int == signed32(le_field(b, pos + 24, 4))
    &&& e.point_count as int == signed32(le_field(b, pos + 28, 4))
}

/// `es` are the entries that the first `page_size` bytes of `b` encode, in order.
pub open spec fn page_at(es: Seq<Entry>, b: Seq<u8>, page_size: nat) -> bool {
    &&& page_size == 32 * es.len()
    &&& page_size <= b.len()
    &&& forall|i: int| 0 <= i < es.len() ==> #[trigger] entry_at(es[i], b, 32 * i)
}

impl Entry {
    /// The entry with the given fields.
    pub fn new(key: VoxelKey, offset: u64, byte_size: i32, point_count: i32) -> (r: Entry)
        ensures
            r == (Entry { key, offset, byte_size, point_count }),
    {
        Entry { key, offset, byte_size, point_count }
    }

    /// A pointer entry addresses another hierarchy page.
    pub open spec fn spec_is_pointer(&self) -> bool {
        self.point_count == -1
    }

    /// A data entry addresses a chunk of `point_count` points.
    pub open spec fn spec_is_data(&self) -> bool {
        self.point_count >= 0
    }

    /// Whether this entry points to another hierarchy page.
    pub fn is_pointer(&self) -> (r: bool)
        ensures
            r == self.spec_is_pointer(),
    {
        self.point_count == -1
    }

    /// Whether this entry describes point data.
    pub fn is_data(&self) -> (r: bool)
        ensures
            r == self.spec_is_data(),
    {
        self.point_count >= 0
    }

    /// Reads the entry stored in the 32 bytes at `pos`; `TruncatedRecord` if fewer
    /// remain.
    pub fn read_from(b: &[u8], pos: usize) -> (r: Result<Entry, CopcError>)
        ensures
            match r {
                Ok(e) => pos + ENTRY_SIZE <= b@.len() && entry_at(e, b@, pos as int),
                Err(e) => pos + ENTRY_SIZE > b@.len() && e == CopcError::TruncatedRecord,
            },
    {
        if b.len() < ENTRY_SIZE || pos > b.len() - ENTRY_SIZE {
            return Err(CopcError::TruncatedRecord);
        }
        let key = match VoxelKey::read_from(b, pos) {
            Ok(k) => k,
            Err(e) => return Err(e),
        };
        let offset = read_u64_at(b, pos + 16);
        let byte_size = read_i32_at(b, pos + 24);
        let point_count = read_i32_at(b, pos + 28);
        Ok(Entry { key, offset, byte_size, point_count })
    }

    /// The 32 bytes that encode this entry.
    pub fn to_bytes(&self) -> (r: Vec<u8>)
        ensures
            r@.len() == ENTRY_SIZE,
            entry_at(*self, r@, 0),
    {
        let mut r: Vec<u8> = Vec::new();
        let mut f0 = i32_le_bytes(self.key.level);
        let mut f1 = i32_le_bytes(self.key.x);
        let mut f2 = i32_le_bytes(self.key.y);
        let mut f3 = i32_le_bytes(self.key.z);
        let mut f4 = u64_le_bytes(self.offset);
        let mut f5 = i32_le_bytes(self.byte_size);
        let mut f6 = i32_le_bytes(self.point_count);
        let ghost (s0, s1, s2, s3, s4, s5, s6) = (f0@, f1@, f2@, f3@, f4@, f5@, f6@);
        r.append(&mut f0);
        r.append(&mut f1);
        r.append(&mut f2);
        r.append(&mut f3);
        r.append(&mut f4);
        r.append(&mut f5);
        r.append(&mut f6);
        proof {
            let b = r@;
            assert(b == s0 + s1 + s2 + s3 + s4 + s5 + s6);
            assert(b.subrange(0, 4) =~= s0);
            assert(b.subrange(4, 8) =~= s1);
            assert(b.subrange(8, 12) =~= s2);
            assert(b.subrange(12, 16) =~= s3);
            assert(b.subrange(16, 24) =~= s4);
            assert(b.subrange(24, 28) =~= s5);
            assert(b.subrange(28, 32) =~= s6);
            lemma_signed32_bits(self.key.level);
            lemma_signed32_bits(self.key.x);
            lemma_signed32_bits(self.key.y);
            lemma_signed32_bits(self.key.z);
            lemma_signed32_bits(self.byte_size);
            lemma_signed32_bits(self.point_count);
        }
        r
    }
}

/// A hierarchy page: the entries read from one contiguous byte range, in file order.
#[derive(Clone, Debug)]
pub struct Page {
    /// Hierarchy page entries.
    pub entries: Vec<Entry>,
}

impl View for Page {
    type V = Seq<Entry>;

    open spec fn view(&self) -> Seq<Entry> {
        self.entries@
    }
}

impl Page {
    /// Number of entries.
    pub fn len(&self) -> (r: usize)
        ensures
            r == self@.len(),
    {
        self.entries.len()
    }

    /// Size in bytes of the page: 32 bytes per entry.
    pub fn size(&self) -> (r: u64)
        requires
            32 * self@.len() <= u64::MAX,
        ensures
            r == 32 * self@.len(),
    {
        32 * (self.entries.len() as u64)
    }

    /// Reads the page held by the first `page_size` bytes of `b`.
    /// `InvalidPageSize` if `page_size` is not a multiple of 32, `TruncatedRecord`
    /// if `b` is shorter than `page_size`.
    pub fn read_from(b: &[u8], page_size: u64) -> (r: Result<Page, CopcError>)
        ensures
            r.is_ok() <==> page_size % 32 == 0 && page_size <= b@.len(),
            page_size % 32 != 0 ==> r == Err::<Page, CopcError>(CopcError::InvalidPageSize),
            page_size % 32 == 0 && page_size > b@.len() ==> r == Err::<Page, CopcError>(
                CopcError::TruncatedRecord,
            ),
            r.is_ok() ==> page_at(r.unwrap()@, b@, page_size as nat),
    {
        if page_size % 32 != 0 {
            return Err(CopcError::InvalidPageSize);
        }
        if (b.len() as u64) < page_size {
            return Err(CopcError::TruncatedRecord);
        }
        let len: usize = b.len();
        let n: usize = (page_size / 32) as usize;
        let mut entries: Vec<Entry> = Vec::with_capacity(n);
        let mut i: usize = 0;
        while i < n
            invariant
                n as int * 32 == page_size as int,
                page_size <= b@.len(),
                len == b@.len(),
                i <= n,
                entries@.len() == i,
                forall|j: int| 0 <= j < i ==> #[trigger] entry_at(entries@[j], b@, 32 * j),
            decreases n - i,
        {
            assert(32 * i < 32 * n) by (nonlinear_arith)
                requires
                    i < n,
            ;
            let e = match Entry::read_from(b, ENTRY_SIZE * i) {
                Ok(e) => e,
                Err(e) => return Err(e),
            };
            entries.push(e);
            i = i + 1;
        }
        Ok(Page { entries })
    }

    /// The bytes that encode this page: its entries' encodings in order.
    pub fn to_bytes(&self) -> (r: Vec<u8>)
        requires
            32 * self@.len() <= usize::MAX,
        ensures
            page_at(self@, r@, r@.len() as nat),
    {
        let mut r: Vec<u8> = Vec::new();
        let mut i: usize = 0;
        while i < self.entries.len()
            invariant
                32 * self@.len() <= usize::MAX,
                i <= self@.len(),
                r@.len() == 32 * i,
                forall|j: int| 0 <= j < i ==> #[trigger] entry_at(self@[j], r@, 32 * j),
            decreases self@.len() - i,
        {
            let mut eb = self.entries[i].to_bytes();
            let ghost prev = r@;
            let ghost piece = eb@;
            r.append(&mut eb);
            proof {
                assert forall|j: int| 0 <= j < i + 1 implies #[trigger] entry_at(self@[j], r@, 32 * j) by {
                    if j < i {
                        lemma_entry_at_prefix(self@[j], prev, piece, 32 * j);
                    } else {
                        lemma_entry_at_suffix(self@[j], prev, piece);
                    }
                }
            }
            i = i + 1;
        }
        r
    }
}

/// Bytes appended after an entry do not change what it reads as.
proof fn lemma_entry_at_prefix(e: Entry, a: Seq<u8>, c: Seq<u8>, pos: int)
    requires
        0 <= pos,
        pos + 32 <= a.len(),
        entry_at(e, a, pos),
    ensures
        entry_at(e, a + c, pos),
{
    let b = a + c;
    assert(b.subrange(pos, pos + 4) =~= a.subrange(pos, pos + 4));
    assert(b.subrange(pos + 4, pos + 8) =~= a.subrange(pos + 4, pos + 8));
    assert(b.subrange(pos + 8, pos + 12) =~= a.subrange(pos + 8, pos + 12));
    assert(b.subrange(pos + 12, pos + 16) =~= a.subrange(pos + 12, pos + 16));
    assert(b.subrange(pos + 16, pos + 24) =~= a.subrange(pos + 16, pos + 24));
    assert(b.subrange(pos + 24, pos + 28) =~= a.subrange(pos + 24, pos + 28));
    assert(b.subrange(pos + 28, pos + 32) =~= a.subrange(pos + 28, pos + 32));
}

/// An entry encoded at the start of `c` reads the same after `a` is put in front.
proof fn lemma_entry_at_suffix(e: Entry, a: Seq<u8>, c: Seq<u8>)
    requires
        c.len() == 32,
        entry_at(e, c, 0),
    ensures
        entry_at(e, a + c, a.len() as int),
{
    let b = a + c;
    let p = a.len() as int;
    assert(b.subrange(p, p + 4) =~= c.subrange(0, 4));
    assert(b.subrange(p + 4, p + 8) =~= c.subrange(4, 8));
    assert(b.subrange(p + 8, p + 12) =~= c.subrange(8, 12));
    assert(b.subrange(p + 12, p + 16) =~= c.subrange(12, 16));
    assert(b.subrange(p + 16, p + 24) =~= c.subrange(16, 24));
    assert(b.subrange(p + 24, p + 28) =~= c.subrange(24, 28));
    assert(b.subrange(p + 28, p + 32) =~= c.subrange(28, 32));
}

} // verus!
