use copc::error::CopcError;
use copc::hierarchy::{Entry, Page};
use copc::key::VoxelKey;
use copc::metadata::CopcData;
use copc::points::PointRange;
use copc::resolver::{Lookup, PageReader};

fn record() -> CopcData {
    CopcData {
        span: -7,
        root_hier_offset: 1_000_000,
        root_hier_size: 64,
        laz_vlr_offset: 375,
        laz_vlr_size: 52,
        wkt_vlr_offset: 0,
        wkt_vlr_size: 0,
        eb_vlr_offset: u64::MAX,
        eb_vlr_size: 12,
        reserved: [0; 11],
    }
}

fn page_bytes(entries: &[Entry]) -> Vec<u8> {
    Page { entries: entries.to_vec() }.to_bytes()
}

fn data(level: i32, x: i32, y: i32, z: i32, offset: u64, size: i32, count: i32) -> Entry {
    Entry::new(VoxelKey::new(level, x, y, z), offset, size, count)
}

fn pointer(level: i32, x: i32, y: i32, z: i32, offset: u64, size: i32) -> Entry {
    Entry::new(VoxelKey::new(level, x, y, z), offset, size, -1)
}

/// Resolves `key` as a host would, fetching pages from `pages` by offset, and
/// counts the fetches.
fn resolve(
    reader: &mut PageReader,
    key: VoxelKey,
    pages: &[(u64, Vec<u8>)],
    fetches: &mut u32,
) -> Result<Entry, CopcError> {
    loop {
        match reader.page_entry(key)? {
            Lookup::Data(e) => return Ok(e),
            Lookup::Fetch { offset, size } => {
                *fetches += 1;
                let bytes = pages
                    .iter()
                    .find(|(o, _)| *o == offset)
                    .map(|(_, b)| b.clone())
                    .expect("page not in file");
                reader.load_page(key, offset, size, &bytes)?;
            }
        }
    }
}

#[test]
fn metadata_round_trip() {
    let d = record();
    let bytes = d.to_bytes();
    assert_eq!(bytes.len(), 160);
    let back = CopcData::read_from(&bytes).unwrap();
    assert_eq!(back.span, -7);
    assert_eq!(back.root_hier_offset, 1_000_000);
    assert_eq!(back.root_hier_size, 64);
    assert_eq!(back.laz_vlr_offset, 375);
    assert_eq!(back.laz_vlr_size, 52);
    assert_eq!(back.wkt_vlr_offset, 0);
    assert_eq!(back.wkt_vlr_size, 0);
    assert_eq!(back.eb_vlr_offset, u64::MAX);
    assert_eq!(back.eb_vlr_size, 12);
    assert_eq!(back.reserved, [0; 11]);
}

#[test]
fn metadata_layout_is_little_endian() {
    let bytes = record().to_bytes();
    assert_eq!(&bytes[0..8], &[0xf9, 0xff, 0xff, 0xff, 0xff, 0xff, 0xff, 0xff]);
    assert_eq!(&bytes[8..16], &[0x40, 0x42, 0x0f, 0, 0, 0, 0, 0]);
    assert_eq!(&bytes[16..24], &[64, 0, 0, 0, 0, 0, 0, 0]);
}

#[test]
fn metadata_nonzero_reserved_rejected() {
    let mut d = record();
    d.reserved[10] = 1;
    let bytes = d.to_bytes();
    assert_eq!(CopcData::read_from(&bytes).unwrap_err(), CopcError::MalformedMetadata);
    let mut bytes = record().to_bytes();
    bytes[72] = 3;
    assert_eq!(CopcData::read_from(&bytes).unwrap_err(), CopcError::MalformedMetadata);
}

#[test]
fn metadata_short_input_rejected() {
    let bytes = record().to_bytes();
    assert_eq!(CopcData::read_from(&bytes[..159]).unwrap_err(), CopcError::MalformedMetadata);
    assert_eq!(CopcData::read_from(&[]).unwrap_err(), CopcError::MalformedMetadata);
}

#[test]
fn metadata_reads_first_160_bytes_only() {
    let mut bytes = record().to_bytes();
    bytes.extend_from_slice(&[9, 9, 9]);
    assert_eq!(CopcData::read_from(&bytes).unwrap().root_hier_offset, 1_000_000);
}

#[test]
fn child_key_derivation() {
    let k = VoxelKey::new(3, 5, 6, 7);
    assert_eq!(k.child(0, 0, 0), VoxelKey::new(4, 10, 12, 14));
    assert_eq!(k.child(1, 0, 1), VoxelKey::new(4, 11, 12, 15));
    assert_eq!(k.child(1, 1, 1), VoxelKey::new(4, 11, 13, 15));
    assert_eq!(k.child(1, 1, 0).parent(), k);
    assert_eq!(VoxelKey::new(0, 0, 0, 0).child(0, 1, 0), VoxelKey::new(1, 0, 1, 0));
}

#[test]
fn invalid_key_detection() {
    assert!(VoxelKey::new(-1, 0, 0, 0).is_invalid());
    assert!(!VoxelKey::new(0, 0, 0, 0).is_invalid());
}

#[test]
fn key_read_from_bytes() {
    let bytes = [2, 0, 0, 0, 0xff, 0xff, 0xff, 0xff, 3, 0, 0, 0, 0, 1, 0, 0];
    assert_eq!(VoxelKey::read_from(&bytes, 0).unwrap(), VoxelKey::new(2, -1, 3, 256));
    assert_eq!(VoxelKey::read_from(&bytes, 1).unwrap_err(), CopcError::TruncatedRecord);
}

#[test]
fn entry_encoding_and_truncation() {
    let e = data(1, 2, 3, 4, 1000, 200, 5);
    let bytes = e.to_bytes();
    assert_eq!(bytes.len(), 32);
    assert_eq!(&bytes[16..24], &[0xe8, 0x03, 0, 0, 0, 0, 0, 0]);
    assert_eq!(&bytes[28..32], &[5, 0, 0, 0]);
    assert_eq!(Entry::read_from(&bytes, 0).unwrap(), e);
    assert_eq!(Entry::read_from(&bytes[..31], 0).unwrap_err(), CopcError::TruncatedRecord);
    let p = pointer(1, 0, 0, 0, 2000, 32);
    assert!(p.is_pointer());
    assert!(!p.is_data());
    assert_eq!(Entry::read_from(&p.to_bytes(), 0).unwrap().point_count, -1);
}

#[test]
fn page_size_matches_entries() {
    let entries = [data(0, 0, 0, 0, 1000, 200, 5), pointer(1, 0, 0, 0, 2000, 32)];
    let bytes = page_bytes(&entries);
    assert_eq!(bytes.len(), 64);
    let page = Page::read_from(&bytes, 64).unwrap();
    assert_eq!(page.len(), 2);
    assert_eq!(page.size(), 64);
    assert_eq!(page.entries, entries.to_vec());
    let first = Page::read_from(&bytes, 32).unwrap();
    assert_eq!(first.entries, vec![entries[0]]);
    assert_eq!(Page::read_from(&bytes, 0).unwrap().len(), 0);
}

#[test]
fn page_size_not_multiple_of_32_rejected() {
    let bytes = page_bytes(&[data(0, 0, 0, 0, 1000, 200, 5)]);
    assert_eq!(Page::read_from(&bytes, 33).unwrap_err(), CopcError::InvalidPageSize);
    assert_eq!(Page::read_from(&bytes, 16).unwrap_err(), CopcError::InvalidPageSize);
}

#[test]
fn page_truncated_rejected() {
    let bytes = page_bytes(&[data(0, 0, 0, 0, 1000, 200, 5)]);
    assert_eq!(Page::read_from(&bytes, 64).unwrap_err(), CopcError::TruncatedRecord);
}

fn scenario() -> (PageReader, Vec<(u64, Vec<u8>)>) {
    let root = page_bytes(&[data(0, 0, 0, 0, 1000, 200, 5), pointer(1, 0, 0, 0, 2000, 32)]);
    let child = page_bytes(&[data(1, 0, 0, 0, 3000, 100, 7)]);
    let mut copc = record();
    copc.root_hier_offset = 500;
    let reader = PageReader::new(&root, 64, copc).unwrap();
    (reader, vec![(500, root), (2000, child)])
}

#[test]
fn resolve_direct_data_entry_without_fetch() {
    let (mut reader, pages) = scenario();
    let mut fetches = 0;
    let e = resolve(&mut reader, VoxelKey::new(0, 0, 0, 0), &pages, &mut fetches).unwrap();
    assert_eq!(e, data(0, 0, 0, 0, 1000, 200, 5));
    assert_eq!(fetches, 0);
    assert_eq!(reader.page_count(), 1);
}

#[test]
fn resolve_through_one_pointer_fetches_once() {
    let (mut reader, pages) = scenario();
    let key = VoxelKey::new(1, 0, 0, 0);
    assert_eq!(
        reader.page_entry(key).unwrap(),
        Lookup::Fetch { offset: 2000, size: 32 }
    );
    let mut fetches = 0;
    let e = resolve(&mut reader, key, &pages, &mut fetches).unwrap();
    assert_eq!(e, data(1, 0, 0, 0, 3000, 100, 7));
    assert_eq!(fetches, 1);
    let again = resolve(&mut reader, key, &pages, &mut fetches).unwrap();
    assert_eq!(again, e);
    assert_eq!(fetches, 1);
    assert_eq!(reader.page_count(), 2);
}

#[test]
fn resolve_absent_key_not_found() {
    let (mut reader, pages) = scenario();
    let mut fetches = 0;
    let r = resolve(&mut reader, VoxelKey::new(2, 0, 0, 0), &pages, &mut fetches);
    assert_eq!(r.unwrap_err(), CopcError::KeyNotFound);
    // The pointer of the ancestor (1,0,0,0) is followed once, then nothing is left.
    assert_eq!(fetches, 1);
    let r = resolve(&mut reader, VoxelKey::new(2, 0, 0, 0), &pages, &mut fetches);
    assert_eq!(r.unwrap_err(), CopcError::KeyNotFound);
    assert_eq!(fetches, 1);
    let r = resolve(&mut reader, VoxelKey::new(1, 5, 0, 0), &pages, &mut fetches);
    assert_eq!(r.unwrap_err(), CopcError::KeyNotFound);
    assert_eq!(fetches, 1);
}

#[test]
fn resolve_through_ancestor_pointer() {
    let root = page_bytes(&[data(0, 0, 0, 0, 1000, 200, 5), pointer(1, 0, 0, 0, 2000, 64)]);
    let child = page_bytes(&[data(1, 0, 0, 0, 3000, 100, 7), data(2, 0, 0, 0, 4000, 50, 3)]);
    let mut reader = PageReader::new(&root, 64, record()).unwrap();
    let pages = vec![(2000, child)];
    let mut fetches = 0;
    let key = VoxelKey::new(2, 0, 0, 0);
    assert_eq!(reader.page_entry(key).unwrap(), Lookup::Fetch { offset: 2000, size: 64 });
    let e = resolve(&mut reader, key, &pages, &mut fetches).unwrap();
    assert_eq!(e, data(2, 0, 0, 0, 4000, 50, 3));
    assert_eq!(fetches, 1);
    let again = resolve(&mut reader, key, &pages, &mut fetches).unwrap();
    assert_eq!(again, e);
    let own = resolve(&mut reader, VoxelKey::new(1, 0, 0, 0), &pages, &mut fetches).unwrap();
    assert_eq!(own.offset, 3000);
    assert_eq!(fetches, 1);
}

#[test]
fn resolve_deep_key_through_two_pages() {
    // root -> page of (1,0,0,0) at 2000 -> page of (2,1,1,1) at 3000 -> data of (4,5,6,7).
    let root = page_bytes(&[pointer(1, 0, 0, 0, 2000, 32)]);
    let mid = page_bytes(&[pointer(2, 1, 1, 1, 3000, 32)]);
    let leaf = page_bytes(&[data(4, 5, 6, 7, 9000, 10, 1)]);
    let mut reader = PageReader::new(&root, 32, record()).unwrap();
    let pages = vec![(2000, mid), (3000, leaf)];
    let mut fetches = 0;
    let e = resolve(&mut reader, VoxelKey::new(4, 5, 6, 7), &pages, &mut fetches).unwrap();
    assert_eq!(e.offset, 9000);
    assert_eq!(fetches, 2);
    assert_eq!(reader.page_count(), 3);
}

#[test]
fn ancestor_detection() {
    let k = VoxelKey::new(3, 1, 2, 3);
    assert!(VoxelKey::new(1, 0, 0, 0).is_ancestor_of(&k));
    assert!(VoxelKey::new(2, 0, 1, 1).is_ancestor_of(&k));
    assert!(!VoxelKey::new(2, 0, 1, 0).is_ancestor_of(&k));
    assert!(!k.is_ancestor_of(&k));
    assert!(!VoxelKey::new(4, 0, 0, 0).is_ancestor_of(&k));
    assert!(!VoxelKey::new(0, 0, 0, 0).is_ancestor_of(&VoxelKey::new(1, -1, 0, 0)));
    assert!(VoxelKey::new(0, -1, -1, -1).is_ancestor_of(&VoxelKey::new(5, -3, -20, -1)));
    assert!(VoxelKey::new(0, 0, 0, 0).is_ancestor_of(&VoxelKey::new(40, 5, 6, 7)));
}

#[test]
fn parent_uses_floor_division() {
    assert_eq!(VoxelKey::new(2, -3, -1, 5).parent(), VoxelKey::new(1, -2, -1, 2));
    assert_eq!(VoxelKey::new(1, i32::MIN, i32::MAX, 0).parent(), VoxelKey::new(0, -1073741824, 1073741823, 0));
}

#[test]
fn end_to_end_scenario() {
    let (mut reader, pages) = scenario();
    let mut fetches = 0;
    let e0 = resolve(&mut reader, VoxelKey::new(0, 0, 0, 0), &pages, &mut fetches).unwrap();
    assert_eq!((e0.offset, e0.byte_size, e0.point_count), (1000, 200, 5));
    assert_eq!(fetches, 0);
    let e1 = resolve(&mut reader, VoxelKey::new(1, 0, 0, 0), &pages, &mut fetches).unwrap();
    assert_eq!(e1.offset, 3000);
    assert_eq!(fetches, 1);
    let r = resolve(&mut reader, VoxelKey::new(2, 0, 0, 0), &pages, &mut fetches);
    assert_eq!(r.unwrap_err(), CopcError::KeyNotFound);
    assert_eq!(fetches, 1);
    let again = resolve(&mut reader, VoxelKey::new(0, 0, 0, 0), &pages, &mut fetches).unwrap();
    assert_eq!(again, e0);
}

#[test]
fn resolve_cyclic_pages_terminates() {
    // The root page (at 500) points to a page at 2000, which points back to the root
    // and to itself.
    let root = page_bytes(&[pointer(1, 0, 0, 0, 2000, 64)]);
    let child = page_bytes(&[pointer(2, 0, 0, 0, 500, 32), pointer(1, 0, 0, 0, 2000, 64)]);
    let mut copc = record();
    copc.root_hier_offset = 500;
    let mut reader = PageReader::new(&root, 32, copc).unwrap();
    let pages = vec![(500, root), (2000, child)];
    let mut fetches = 0;
    let r = resolve(&mut reader, VoxelKey::new(1, 0, 0, 0), &pages, &mut fetches);
    assert_eq!(r.unwrap_err(), CopcError::KeyNotFound);
    assert_eq!(fetches, 1);
    let r = resolve(&mut reader, VoxelKey::new(2, 0, 0, 0), &pages, &mut fetches);
    assert_eq!(r.unwrap_err(), CopcError::KeyNotFound);
    assert_eq!(fetches, 1);
    let r = resolve(&mut reader, VoxelKey::new(3, 0, 0, 0), &pages, &mut fetches);
    assert_eq!(r.unwrap_err(), CopcError::KeyNotFound);
    assert_eq!(fetches, 1);
}

#[test]
fn two_pointers_to_one_page() {
    let root = page_bytes(&[pointer(1, 0, 0, 0, 2000, 64), pointer(1, 1, 0, 0, 2000, 64)]);
    let child = page_bytes(&[data(1, 0, 0, 0, 3000, 10, 1), data(1, 1, 0, 0, 4000, 20, 2)]);
    let mut reader = PageReader::new(&root, 64, record()).unwrap();
    let pages = vec![(2000, child)];
    let mut fetches = 0;
    let a = resolve(&mut reader, VoxelKey::new(1, 0, 0, 0), &pages, &mut fetches).unwrap();
    let b = resolve(&mut reader, VoxelKey::new(1, 1, 0, 0), &pages, &mut fetches).unwrap();
    assert_eq!(a.offset, 3000);
    assert_eq!(b.offset, 4000);
    assert_eq!(fetches, 1);
}

#[test]
fn conflicting_data_entries_are_corrupt() {
    let root = page_bytes(&[data(0, 0, 0, 0, 1000, 200, 5), pointer(1, 0, 0, 0, 2000, 32)]);
    let child = page_bytes(&[data(0, 0, 0, 0, 9000, 200, 5)]);
    let mut reader = PageReader::new(&root, 64, record()).unwrap();
    let key = VoxelKey::new(1, 0, 0, 0);
    let r = reader.load_page(key, 2000, 32, &child);
    assert_eq!(r.unwrap_err(), CopcError::CorruptHierarchy);
    // The reader is unchanged and still serves other keys.
    assert_eq!(reader.page_count(), 1);
    assert_eq!(
        reader.page_entry(VoxelKey::new(0, 0, 0, 0)).unwrap(),
        Lookup::Data(data(0, 0, 0, 0, 1000, 200, 5))
    );
    assert_eq!(reader.page_entry(key).unwrap(), Lookup::Fetch { offset: 2000, size: 32 });
}

#[test]
fn duplicate_data_in_root_is_corrupt() {
    let root = page_bytes(&[data(0, 0, 0, 0, 1000, 200, 5), data(0, 0, 0, 0, 1, 2, 3)]);
    assert_eq!(PageReader::new(&root, 64, record()).unwrap_err(), CopcError::CorruptHierarchy);
}

#[test]
fn invalid_point_count_is_corrupt() {
    let root = page_bytes(&[data(0, 0, 0, 0, 1000, 200, -2)]);
    let mut reader = PageReader::new(&root, 32, record()).unwrap();
    assert_eq!(reader.page_entry(VoxelKey::new(0, 0, 0, 0)).unwrap_err(), CopcError::CorruptHierarchy);
}

#[test]
fn bad_root_page_rejected() {
    let root = page_bytes(&[data(0, 0, 0, 0, 1000, 200, 5)]);
    assert_eq!(PageReader::new(&root, 40, record()).unwrap_err(), CopcError::InvalidPageSize);
    assert_eq!(PageReader::new(&root, 64, record()).unwrap_err(), CopcError::TruncatedRecord);
    let reader = PageReader::new(&root, 32, record()).unwrap();
    assert_eq!(reader.entry_count(), 1);
    assert_eq!(reader.copc().span, -7);
}

#[test]
fn load_page_errors_leave_reader_usable() {
    let (mut reader, _) = scenario();
    let key = VoxelKey::new(1, 0, 0, 0);
    assert_eq!(reader.load_page(key, 2000, 31, &[0; 31]).unwrap_err(), CopcError::InvalidPageSize);
    assert_eq!(reader.load_page(key, 2000, 32, &[0; 16]).unwrap_err(), CopcError::TruncatedRecord);
    assert_eq!(reader.page_count(), 1);
    assert_eq!(reader.page_entry(key).unwrap(), Lookup::Fetch { offset: 2000, size: 32 });
}

#[test]
fn point_range_counts_decodes() {
    let mut p = PointRange::new(data(0, 0, 0, 0, 1000, 200, 3)).unwrap();
    assert_eq!(p.offset(), 1000);
    assert_eq!(p.point_count(), 3);
    let mut n = 0;
    while p.wants_point() {
        p.record(true).unwrap();
        n += 1;
    }
    assert_eq!(n, 3);
    assert_eq!(p.produced(), 3);
}

#[test]
fn point_range_stops_at_decode_error() {
    let mut p = PointRange::new(data(0, 0, 0, 0, 1000, 200, 5)).unwrap();
    p.record(true).unwrap();
    assert_eq!(p.record(false).unwrap_err(), CopcError::DecodeError);
    assert!(!p.wants_point());
    assert_eq!(p.produced(), 1);
}

#[test]
fn point_range_of_pointer_rejected() {
    let r = PointRange::new(pointer(1, 0, 0, 0, 2000, 32));
    assert!(matches!(r, Err(CopcError::CorruptHierarchy)));
    let empty = PointRange::new(data(0, 0, 0, 0, 1000, 0, 0)).unwrap();
    assert!(!empty.wants_point());
}

#[test]
fn resolve_in_memory_table() {
    let (mut reader, pages) = scenario();
    let e = reader.resolve_in(VoxelKey::new(1, 0, 0, 0), &pages).unwrap();
    assert_eq!(e, data(1, 0, 0, 0, 3000, 100, 7));
    assert_eq!(reader.page_count(), 2);
    let e0 = reader.resolve_in(VoxelKey::new(0, 0, 0, 0), &pages).unwrap();
    assert_eq!(e0.point_count, 5);
    let r = reader.resolve_in(VoxelKey::new(2, 0, 0, 0), &pages);
    assert_eq!(r.unwrap_err(), CopcError::KeyNotFound);
    assert_eq!(reader.page_count(), 2);
}

#[test]
fn resolve_in_cyclic_table_ends() {
    let root = page_bytes(&[pointer(0, 0, 0, 0, 500, 64), pointer(1, 0, 0, 0, 2000, 64)]);
    let child = page_bytes(&[pointer(2, 0, 0, 0, 500, 64), pointer(1, 1, 1, 1, 2000, 64)]);
    let mut copc = record();
    copc.root_hier_offset = 500;
    let mut reader = PageReader::new(&root, 64, copc).unwrap();
    let pages = vec![(500, root), (2000, child)];
    let r = reader.resolve_in(VoxelKey::new(3, 0, 0, 0), &pages);
    assert_eq!(r.unwrap_err(), CopcError::KeyNotFound);
    assert_eq!(reader.page_count(), 2);
    let r = reader.resolve_in(VoxelKey::new(2, 2, 2, 2), &pages);
    assert_eq!(r.unwrap_err(), CopcError::KeyNotFound);
    assert_eq!(reader.page_count(), 2);
}

#[test]
fn resolve_in_missing_page() {
    let (mut reader, _) = scenario();
    let r = reader.resolve_in(VoxelKey::new(1, 0, 0, 0), &vec![(2000, vec![0u8; 16])]);
    assert_eq!(r.unwrap_err(), CopcError::TruncatedRecord);
    assert_eq!(reader.page_count(), 1);
}
