//! The COPC metadata record.

use vstd::prelude::*;
use crate::bytes::{
    bits64, i64_le_bytes, le_field, lemma_field_prefix, lemma_field_suffix, lemma_signed64_bits,
    read_i64_at, read_u64_at, signed64, u64_le_bytes,
};
use crate::error::CopcError;

verus! {

broadcast use vstd::array::group_array_axioms;

/// Size in bytes of the metadata record.
pub const METADATA_SIZE: usize = 160;

/// Number of reserved 64-bit words that end the record.
pub const RESERVED_WORDS: usize = 11;

/// The COPC metadata record: the octree span and the file locations of the root
/// hierarchy page and of the auxiliary records.
#[derive(Clone, Copy, Debug)]
pub struct CopcData {
    /// Number of voxels in each spatial dimension.
    pub span: i64,
    /// File offset of the root hierarchy page.
    pub root_hier_offset: u64,
    /// Size of the root hierarchy page in bytes.
    pub root_hier_size: u64,
    /// File offset of the data of the compression record.
    pub laz_vlr_offset: u64,
    /// Size of the data of the compression record.
    pub laz_vlr_size: u64,
    /// File offset of the data of the spatial-reference record, 0 if absent.
    pub wkt_vlr_offset: u64,
    /// Size of the data of the spatial-reference record, 0 if absent.
    pub wkt_vlr_size: u64,
    /// File offset of the data of the extra-attribute record, 0 if absent.
    pub eb_vlr_offset: u64,
    /// Size of the data of the extra-attribute record, 0 if absent.
    pub eb_vlr_size: u64,
    /// Reserved for future revisions; must be 0.
    pub reserved: [u64; 11],
}

/// The `i`-th 64-bit little-endian word of `b`, unsigned.
pub open spec fn word(b: Seq<u8>, i: int) -> nat {
    le_field(b, 8 * i, 8)
}

/// `d` is the record that the first 160 bytes of `b` encode: the nine leading fields
/// in order (the span as a two's complement `i64`), then the reserved words.
pub open spec fn metadata_at(d: CopcData, b: Seq<u8>) -> bool {
    &&& d.span as int == signed64(word(b, 0))
    &&& d.root_hier_offset as nat == word(b, 1)
    &&& d.root_hier_size as nat == word(b, 2)
    &&& d.laz_vlr_offset as nat == word(b, 3)
    &&& d.laz_vlr_size as nat == word(b, 4)
    &&& d.wkt_vlr_offset as nat == word(b, 5)
    &&& d.wkt_vlr_size as nat == word(b, 6)
    &&& d.eb_vlr_offset as nat == word(b, 7)
    &&& d.eb_vlr_size as nat == word(b, 8)
    &&& forall|i: int| 0 <= i < 11 ==> #[trigger] d.reserved@[i] as nat == word(b, 9 + i)
}

/// The reserved words stored in `b` are all zero.
pub open spec fn reserved_zero(b: Seq<u8>) -> bool {
    forall|i: int| 0 <= i < 11 ==> #[trigger] word(b, 9 + i) == 0
}

/// The reserved words of a record are all zero.
pub open spec fn record_reserved_zero(d: CopcData) -> bool {
    forall|i: int| 0 <= i < 11 ==> #[trigger] d.reserved@[i] == 0
}

/// `b` is a valid metadata record: long enough, and with all reserved words zero.
pub open spec fn metadata_ok(b: Seq<u8>) -> bool {
    b.len() >= 160 && reserved_zero(b)
}

impl CopcData {
    /// Reads the record from the first 160 bytes of `b`. `MalformedMetadata` if `b`
    /// is shorter than that or a reserved word is not zero.
    pub fn read_from(b: &[u8]) -> (r: Result<CopcData, CopcError>)
        ensures
            r.is_ok() <==> metadata_ok(b@),
            !metadata_ok(b@) ==> r == Err::<CopcData, CopcError>(CopcError::MalformedMetadata),
            r.is_ok() ==> metadata_at(r.unwrap(), b@),
    {
        if b.len() < METADATA_SIZE {
            return Err(CopcError::MalformedMetadata);
        }
        let mut i: usize = 0;
        while i < RESERVED_WORDS
            invariant
                b@.len() >= 160,
                i <= 11,
                forall|j: int| 0 <= j < i ==> #[trigger] word(b@, 9 + j) == 0,
            decreases 11 - i,
        {
            if read_u64_at(b, 72 + 8 * i) != 0 {
                assert(word(b@, 9 + i as int) != 0);
                return Err(CopcError::MalformedMetadata);
            }
            i = i + 1;
        }
        let data = CopcData {
            span: read_i64_at(b, 0),
            root_hier_offset: read_u64_at(b, 8),
            root_hier_size: read_u64_at(b, 16),
            laz_vlr_offset: read_u64_at(b, 24),
            laz_vlr_size: read_u64_at(b, 32),
            wkt_vlr_offset: read_u64_at(b, 40),
            wkt_vlr_size: read_u64_at(b, 48),
            eb_vlr_offset: read_u64_at(b, 56),
            eb_vlr_size: read_u64_at(b, 64),
            reserved: [0u64; 11],
        };
        assert(forall|j: int| 0 <= j < 11 ==> #[trigger] data.reserved@[j] as nat == word(b@, 9 + j));
        Ok(data)
    }

    /// The 160 bytes that encode this record.
    pub fn to_bytes(&self) -> (r: Vec<u8>)
        ensures
            r@.len() == METADATA_SIZE,
            metadata_at(*self, r@),
    {
        let mut r: Vec<u8> = Vec::new();
        let mut f = i64_le_bytes(self.span);
        append_word(&mut r, &mut f);
        let mut f = u64_le_bytes(self.root_hier_offset);
        append_word(&mut r, &mut f);
        let mut f = u64_le_bytes(self.root_hier_size);
        append_word(&mut r, &mut f);
        let mut f = u64_le_bytes(self.laz_vlr_offset);
        append_word(&mut r, &mut f);
        let mut f = u64_le_bytes(self.laz_vlr_size);
        append_word(&mut r, &mut f);
        let mut f = u64_le_bytes(self.wkt_vlr_offset);
        append_word(&mut r, &mut f);
        let mut f = u64_le_bytes(self.wkt_vlr_size);
        append_word(&mut r, &mut f);
        let mut f = u64_le_bytes(self.eb_vlr_offset);
        append_word(&mut r, &mut f);
        let mut f = u64_le_bytes(self.eb_vlr_size);
        append_word(&mut r, &mut f);
        proof {
            lemma_signed64_bits(self.span);
        }
        let mut i: usize = 0;
        while i < RESERVED_WORDS
            invariant
                i <= 11,
                r@.len() == 72 + 8 * i,
                self.span as int == signed64(word(r@, 0)),
                self.root_hier_offset as nat == word(r@, 1),
                self.root_hier_size as nat == word(r@, 2),
                self.laz_vlr_offset as nat == word(r@, 3),
                self.laz_vlr_size as nat == word(r@, 4),
                self.wkt_vlr_offset as nat == word(r@, 5),
                self.wkt_vlr_size as nat == word(r@, 6),
                self.eb_vlr_offset as nat == word(r@, 7),
                self.eb_vlr_size as nat == word(r@, 8),
                forall|j: int| 0 <= j < i ==> #[trigger] self.reserved@[j] as nat == word(r@, 9 + j),
            decreases 11 - i,
        {
            let mut f = u64_le_bytes(self.reserved[i]);
            append_word(&mut r, &mut f);
            i = i + 1;
        }
        r
    }
}

/// Appends the eight bytes of one word to `r`; the words already in `r` keep their
/// values and the new one reads as `f`.
fn append_word(r: &mut Vec<u8>, f: &mut Vec<u8>)
    requires
        old(r)@.len() % 8 == 0,
        old(f)@.len() == 8,
    ensures
        final(r)@ == old(r)@ + old(f)@,
        word(final(r)@, (old(r)@.len() / 8) as int) == crate::bytes::le_value(old(f)@),
        forall|i: int|
            0 <= i < old(r)@.len() / 8 ==> #[trigger] word(final(r)@, i) == word(old(r)@, i),
{
    let ghost a = r@;
    let ghost c = f@;
    r.append(f);
    proof {
        lemma_field_suffix(a, c);
        assert forall|i: int| 0 <= i < a.len() / 8 implies #[trigger] word(r@, i) == word(a, i) by {
            lemma_field_prefix(a, c, 8 * i, 8);
        }
    }
}

/// Encoding a record and reading it back: the bytes are accepted exactly when the
/// record's reserved words are all zero, and then every field read back equals the
/// field written.
pub proof fn lemma_metadata_round_trip(d: CopcData, b: Seq<u8>, back: CopcData)
    requires
        b.len() == 160,
        metadata_at(d, b),
        metadata_at(back, b),
    ensures
        metadata_ok(b) <==> record_reserved_zero(d),
        back == d,
{
    assert forall|i: int| 0 <= i < 11 implies back.reserved@[i] == d.reserved@[i] by {
        assert(back.reserved@[i] as nat == word(b, 9 + i));
        assert(d.reserved@[i] as nat == word(b, 9 + i));
    }
    assert(back.reserved@ =~= d.reserved@);
    assert(back.reserved == d.reserved);
    if record_reserved_zero(d) {
        assert forall|i: int| 0 <= i < 11 implies #[trigger] word(b, 9 + i) == 0 by {
            assert(d.reserved@[i] == 0);
        }
    }
    if metadata_ok(b) {
        assert forall|i: int| 0 <= i < 11 implies #[trigger] d.reserved@[i] == 0 by {
            assert(word(b, 9 + i) == 0);
        }
    }
}

} // verus!
