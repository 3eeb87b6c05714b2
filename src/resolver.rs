//! Resolution of voxel keys to data entries over a hierarchy that is loaded page by
//! page.
//!
//! A reader holds an index of entries with unique keys and the byte ranges of the
//! pages loaded so far. [`PageReader::page_entry`] looks a key up and either answers
//! or names the page to fetch; the caller fetches it and hands the bytes to
//! [`PageReader::load_page`], then asks again. A lookup follows the key's own
//! pointer entry or, failing that, the pointer entry of one of its ancestors, since
//! a page may hold entries at any deeper level. [`PageReader::resolve_in`] runs that
//! exchange against a hierarchy held in memory.

use vstd::prelude::*;
use crate::error::CopcError;
use crate::hierarchy::{page_at, Entry, Page};
use crate::key::{is_ancestor, VoxelKey};
use crate::metadata::CopcData;

verus! {

/// The answer to one lookup.
#[derive(Clone, Copy, Debug, PartialEq, Eq, Structural)]
pub enum Lookup {
    /// The key's data entry.
    Data(Entry),
    /// The key is behind a page not loaded yet: fetch these bytes and load them.
    Fetch { offset: u64, size: u64 },
}

/// No two entries share a key.
pub open spec fn keys_unique(es: Seq<Entry>) -> bool {
    forall|i: int, j: int|
        0 <= i < es.len() && 0 <= j < es.len() && i != j ==> #[trigger] es[i].key != #[trigger] es[j].key
}

/// Where the entry for `k` stands in `es`, or -1 if none does.
pub open spec fn position(es: Seq<Entry>, k: VoxelKey) -> int {
    if exists|i: int| 0 <= i < es.len() && #[trigger] es[i].key == k {
        choose|i: int| 0 <= i < es.len() && #[trigger] es[i].key == k
    } else {
        -1
    }
}

/// The byte range that a pointer entry with a non-negative size addresses.
pub open spec fn page_range(e: Entry) -> (u64, u64) {
    (e.offset, e.byte_size as u64)
}

/// `e` is a pointer entry that can lead to `k`: the pointer of `k` itself or of
/// one of its ancestors, whose page may hold entries at any deeper level.
pub open spec fn leads_to(e: Entry, k: VoxelKey) -> bool {
    e.spec_is_pointer() && (e.key == k || is_ancestor(e.key, k))
}

/// The first pointer entry of an ancestor of `k` in `es`, or -1 if none is there.
pub open spec fn first_ancestor_pointer(es: Seq<Entry>, k: VoxelKey) -> int {
    if exists|i: int| 0 <= i < es.len() && #[trigger] ancestor_pointer(es[i], k) {
        choose|i: int|
            0 <= i < es.len() && #[trigger] ancestor_pointer(es[i], k) && forall|j: int|
                0 <= j < i ==> !ancestor_pointer(#[trigger] es[j], k)
    } else {
        -1
    }
}

/// `e` is the pointer entry of a proper ancestor of `k`.
pub open spec fn ancestor_pointer(e: Entry, k: VoxelKey) -> bool {
    e.spec_is_pointer() && is_ancestor(e.key, k)
}

/// The pointer entry that a lookup of `k` follows: the key's own pointer entry if it
/// has one, else the first pointer entry of one of its ancestors; -1 if none.
pub open spec fn followed(idx: Seq<Entry>, k: VoxelKey) -> int {
    let i = position(idx, k);
    if i >= 0 {
        if idx[i].spec_is_pointer() {
            i
        } else {
            -1
        }
    } else {
        first_ancestor_pointer(idx, k)
    }
}

/// A lookup of `k`: the index afterwards and the answer.
/// A data entry for `k` is returned as it is. Otherwise the pointer that
/// `followed` picks is used: if its page is not loaded yet, that page is asked for;
/// if it is loaded already, its entries are in the index, so the pointer is removed
/// and the lookup goes on. With no pointer left that can lead to `k`, the key is not
/// found.
#[verifier::opaque]
pub open spec fn lookup(idx: Seq<Entry>, loaded: Seq<(u64, u64)>, k: VoxelKey) -> (
    Seq<Entry>,
    Result<Lookup, CopcError>,
)
    decreases idx.len(),
{
    let i = position(idx, k);
    let j = followed(idx, k);
    if i >= 0 && idx[i].spec_is_data() {
        (idx, Ok(Lookup::Data(idx[i])))
    } else if i >= 0 && !idx[i].spec_is_pointer() {
        (idx, Err(CopcError::CorruptHierarchy))
    } else if j < 0 || j >= idx.len() {
        (idx, Err(CopcError::KeyNotFound))
    } else if idx[j].byte_size < 0 {
        (idx, Err(CopcError::CorruptHierarchy))
    } else if loaded.contains(page_range(idx[j])) {
        lookup(idx.remove(j), loaded, k)
    } else {
        (idx, Ok(Lookup::Fetch { offset: idx[j].offset, size: idx[j].byte_size as u64 }))
    }
}

/// Merges one entry into the index. A new key is added; a data entry replaces a
/// pointer entry for its key; a data entry that differs from the data entry already
/// held for its key is a conflict (`None`); anything else leaves the index as it is.
pub open spec fn merge_entry(idx: Seq<Entry>, e: Entry) -> Option<Seq<Entry>> {
    let i = position(idx, e.key);
    if i < 0 {
        Some(idx.push(e))
    } else if idx[i].spec_is_data() && e.spec_is_data() {
        if idx[i] == e {
            Some(idx)
        } else {
            None
        }
    } else if e.spec_is_data() {
        Some(idx.update(i, e))
    } else {
        Some(idx)
    }
}

/// Merges entries into the index in order; `None` on a conflict.
pub open spec fn merge_entries(idx: Seq<Entry>, es: Seq<Entry>) -> Option<Seq<Entry>>
    decreases es.len(),
{
    if es.len() == 0 {
        Some(idx)
    } else {
        match merge_entries(idx, es.drop_last()) {
            Some(m) => merge_entry(m, es.last()),
            None => None,
        }
    }
}

/// The entries of the page in the first `size` bytes of `b`.
pub open spec fn page_entries(b: Seq<u8>, size: nat) -> Seq<Entry> {
    choose|es: Seq<Entry>| page_at(es, b, size)
}

/// The index after merging the page in the first `size` bytes of `b` into `idx`.
pub open spec fn merge_page(idx: Seq<Entry>, b: Seq<u8>, size: u64) -> Result<Seq<Entry>, CopcError> {
    if size % 32 != 0 {
        Err(CopcError::InvalidPageSize)
    } else if size > b.len() {
        Err(CopcError::TruncatedRecord)
    } else {
        match merge_entries(idx, page_entries(b, size as nat)) {
            Some(m) => Ok(m),
            None => Err(CopcError::CorruptHierarchy),
        }
    }
}

/// The index without the pointer entry that a lookup of `k` follows, if that entry
/// addresses `(offset, size)`.
pub open spec fn unlink(idx: Seq<Entry>, k: VoxelKey, offset: u64, size: u64) -> Seq<Entry> {
    let j = followed(idx, k);
    if 0 <= j < idx.len() && idx[j].byte_size >= 0 && page_range(idx[j]) == (offset, size) {
        idx.remove(j)
    } else {
        idx
    }
}

/// Loading the page at `(offset, size)` fetched for `k`, with bytes `b`: the pointer
/// that led there is removed, the page merged, and the range recorded. On failure
/// nothing changes.
#[verifier::opaque]
pub open spec fn load(
    idx: Seq<Entry>,
    loaded: Seq<(u64, u64)>,
    k: VoxelKey,
    offset: u64,
    size: u64,
    b: Seq<u8>,
) -> (Seq<Entry>, Seq<(u64, u64)>, Result<(), CopcError>) {
    match merge_page(unlink(idx, k, offset, size), b, size) {
        Ok(m) => (m, loaded.push((offset, size)), Ok(())),
        Err(e) => (idx, loaded, Err(e)),
    }
}

/// What `position` says of an index.
proof fn lemma_position(es: Seq<Entry>, k: VoxelKey)
    ensures
        -1 <= position(es, k) < es.len(),
        position(es, k) >= 0 ==> es[position(es, k)].key == k,
        position(es, k) < 0 ==> forall|i: int| 0 <= i < es.len() ==> #[trigger] es[i].key != k,
{
}

/// In an index with unique keys, the entry with key `k` stands at `position`.
proof fn lemma_position_unique(es: Seq<Entry>, k: VoxelKey, i: int)
    requires
        keys_unique(es),
        0 <= i < es.len(),
        es[i].key == k,
    ensures
        position(es, k) == i,
{
    lemma_position(es, k);
}

/// Merging an entry keeps keys unique.
proof fn lemma_merge_entry_unique(idx: Seq<Entry>, e: Entry)
    requires
        keys_unique(idx),
        merge_entry(idx, e) is Some,
    ensures
        keys_unique(merge_entry(idx, e).unwrap()),
{
    lemma_position(idx, e.key);
    let m = merge_entry(idx, e).unwrap();
    assert forall|i: int, j: int|
        0 <= i < m.len() && 0 <= j < m.len() && i != j implies #[trigger] m[i].key
        != #[trigger] m[j].key by {
        if position(idx, e.key) < 0 {
            if i < idx.len() && j < idx.len() {
                assert(m[i] == idx[i] && m[j] == idx[j]);
            }
        }
    }
}

/// Pages decode in one way only.
proof fn lemma_page_entries(es: Seq<Entry>, b: Seq<u8>, size: nat)
    requires
        page_at(es, b, size),
    ensures
        page_entries(b, size) == es,
{
    let other = page_entries(b, size);
    assert(page_at(other, b, size));
    assert forall|i: int| 0 <= i < es.len() implies other[i] == es[i] by {
        assert(crate::hierarchy::entry_at(es[i], b, 32 * i));
        assert(crate::hierarchy::entry_at(other[i], b, 32 * i));
    }
    assert(other =~= es);
}

/// A conflict in a prefix is a conflict in the whole.
proof fn lemma_merge_none(idx: Seq<Entry>, es: Seq<Entry>, n: int)
    requires
        0 <= n <= es.len(),
        merge_entries(idx, es.subrange(0, n)) is None,
    ensures
        merge_entries(idx, es) is None,
    decreases es.len(),
{
    if n == es.len() {
        assert(es.subrange(0, n) =~= es);
    } else {
        assert(es.drop_last().subrange(0, n) =~= es.subrange(0, n));
        lemma_merge_none(idx, es.drop_last(), n);
    }
}

/// Merging keeps keys unique.
proof fn lemma_merge_unique(idx: Seq<Entry>, es: Seq<Entry>)
    requires
        keys_unique(idx),
        merge_entries(idx, es) is Some,
    ensures
        keys_unique(merge_entries(idx, es).unwrap()),
    decreases es.len(),
{
    if es.len() > 0 {
        lemma_merge_unique(idx, es.drop_last());
        lemma_merge_entry_unique(merge_entries(idx, es.drop_last()).unwrap(), es.last());
    }
}

/// A data entry stays in the index through the merge of one more entry.
proof fn lemma_merge_entry_keeps(m: Seq<Entry>, x: Entry, e: Entry)
    requires
        keys_unique(m),
        m.contains(e),
        e.spec_is_data(),
        merge_entry(m, x) is Some,
    ensures
        merge_entry(m, x).unwrap().contains(e),
{
    let q = choose|q: int| 0 <= q < m.len() && m[q] == e;
    lemma_position(m, x.key);
    let m2 = merge_entry(m, x).unwrap();
    if x.key == e.key {
        lemma_position_unique(m, x.key, q);
        assert(m2[q] == e);
    } else {
        assert(m2[q] == e);
    }
}

/// A data entry of a page that merges without conflict ends up in the index.
proof fn lemma_merge_finds(idx: Seq<Entry>, es: Seq<Entry>, e: Entry)
    requires
        keys_unique(idx),
        es.contains(e),
        e.spec_is_data(),
        merge_entries(idx, es) is Some,
    ensures
        merge_entries(idx, es).unwrap().contains(e),
    decreases es.len(),
{
    let front = es.drop_last();
    if merge_entries(idx, front) is None {
        assert(false);
    }
    let m = merge_entries(idx, front).unwrap();
    lemma_merge_unique(idx, front);
    let j = choose|j: int| 0 <= j < es.len() && es[j] == e;
    if j < es.len() - 1 {
        assert(front[j] == e);
        lemma_merge_finds(idx, front, e);
        lemma_merge_entry_keeps(m, es.last(), e);
    } else {
        lemma_position(m, e.key);
        let m2 = merge_entry(m, e).unwrap();
        let p = position(m, e.key);
        if p < 0 {
            assert(m2[m.len() as int] == e);
        } else {
            assert(m2[p] == e);
        }
    }
}

/// Removing one entry keeps keys unique.
proof fn lemma_remove_unique(idx: Seq<Entry>, i: int)
    requires
        keys_unique(idx),
        0 <= i < idx.len(),
    ensures
        keys_unique(idx.remove(i)),
{
    let r = idx.remove(i);
    assert forall|a: int, b: int|
        0 <= a < r.len() && 0 <= b < r.len() && a != b implies #[trigger] r[a].key
        != #[trigger] r[b].key by {
        let a0 = if a < i { a } else { a + 1 };
        let b0 = if b < i { b } else { b + 1 };
        assert(r[a] == idx[a0]);
        assert(r[b] == idx[b0]);
    }
}

/// A key held as a data entry is answered from the index: that entry comes back,
/// no page is asked for, and the index is unchanged.
pub proof fn lemma_direct_data(idx: Seq<Entry>, loaded: Seq<(u64, u64)>, e: Entry)
    requires
        keys_unique(idx),
        idx.contains(e),
        e.spec_is_data(),
    ensures
        lookup(idx, loaded, e.key) == (idx, Ok::<Lookup, CopcError>(Lookup::Data(e))),
{
    reveal(lookup);
    reveal(load);
    let i = choose|i: int| 0 <= i < idx.len() && idx[i] == e;
    lemma_position_unique(idx, e.key, i);
}

/// A key reached through one pointer entry, its own or an ancestor's, that is the
/// only entry in the index able to lead to it, and whose page is not loaded yet and
/// holds the key's data entry: the first lookup asks for exactly that page; once it
/// is loaded, the lookup returns the data entry and changes nothing, so asking again
/// fetches nothing more.
pub proof fn lemma_one_indirection(
    idx: Seq<Entry>,
    loaded: Seq<(u64, u64)>,
    k: VoxelKey,
    ptr: Entry,
    b: Seq<u8>,
    e: Entry,
)
    requires
        keys_unique(idx),
        idx.contains(ptr),
        leads_to(ptr, k),
        ptr.byte_size >= 0,
        forall|i: int| 0 <= i < idx.len() && #[trigger] idx[i].key == k ==> idx[i] == ptr,
        forall|i: int| 0 <= i < idx.len() && leads_to(#[trigger] idx[i], k) ==> idx[i] == ptr,
        !loaded.contains(page_range(ptr)),
        merge_page(unlink(idx, k, ptr.offset, page_range(ptr).1), b, page_range(ptr).1) is Ok,
        page_entries(b, page_range(ptr).1 as nat).contains(e),
        e.key == k,
        e.spec_is_data(),
    ensures
        lookup(idx, loaded, k) == (idx, Ok::<Lookup, CopcError>(
            Lookup::Fetch { offset: ptr.offset, size: page_range(ptr).1 },
        )),
        ({
            let (idx2, loaded2, r) = load(idx, loaded, k, ptr.offset, page_range(ptr).1, b);
            &&& r == Ok::<(), CopcError>(())
            &&& loaded2 == loaded.push(page_range(ptr))
            &&& keys_unique(idx2)
            &&& lookup(idx2, loaded2, k) == (idx2, Ok::<Lookup, CopcError>(Lookup::Data(e)))
        }),
{
    reveal(lookup);
    reveal(load);
    let i = choose|i: int| 0 <= i < idx.len() && idx[i] == ptr;
    lemma_position(idx, k);
    if ptr.key == k {
        lemma_position_unique(idx, k, i);
    } else {
        assert(ancestor_pointer(idx[i], k));
        let c = first_ancestor_pointer(idx, k);
        assert(0 <= c < idx.len() && ancestor_pointer(idx[c], k));
        assert(leads_to(idx[c], k));
        assert(idx[c] == ptr);
        if c != i {
            assert(idx[c].key != idx[i].key);
        }
    }
    assert(followed(idx, k) == i);
    let size = page_range(ptr).1;
    let base = unlink(idx, k, ptr.offset, size);
    assert(base == idx.remove(i));
    lemma_remove_unique(idx, i);
    let es = page_entries(b, size as nat);
    lemma_merge_finds(base, es, e);
    lemma_merge_unique(base, es);
    let idx2 = merge_entries(base, es).unwrap();
    lemma_direct_data(idx2, loaded.push(page_range(ptr)), e);
}

/// A whole resolution through one pointer entry (the key's own or an ancestor's,
/// the only entry able to lead to the key), against a table whose page for that
/// pointer holds the key's data entry: it returns that entry after loading exactly
/// that one page.
pub proof fn lemma_resolve_one_indirection(
    idx: Seq<Entry>,
    loaded: Seq<(u64, u64)>,
    k: VoxelKey,
    ptr: Entry,
    ps: Seq<(u64, Vec<u8>)>,
    e: Entry,
)
    requires
        keys_unique(idx),
        idx.contains(ptr),
        leads_to(ptr, k),
        ptr.byte_size >= 0,
        forall|i: int| 0 <= i < idx.len() && #[trigger] idx[i].key == k ==> idx[i] == ptr,
        forall|i: int| 0 <= i < idx.len() && leads_to(#[trigger] idx[i], k) ==> idx[i] == ptr,
        !loaded.contains(page_range(ptr)),
        table_index(ps, page_range(ptr)) >= 0,
        merge_page(
            unlink(idx, k, ptr.offset, page_range(ptr).1),
            ps[table_index(ps, page_range(ptr))].1@,
            page_range(ptr).1,
        ) is Ok,
        page_entries(ps[table_index(ps, page_range(ptr))].1@, page_range(ptr).1 as nat).contains(e),
        e.key == k,
        e.spec_is_data(),
    ensures
        resolve_table(idx, loaded, k, ps).1 == loaded.push(page_range(ptr)),
        resolve_table(idx, loaded, k, ps).2 == Ok::<Entry, CopcError>(e),
{
    let j = table_index(ps, page_range(ptr));
    let b = ps[j].1@;
    lemma_one_indirection(idx, loaded, k, ptr, b, e);
    lemma_resolve_load(idx, loaded, k, ps, ptr.offset, page_range(ptr).1, j);
    let (idx2, loaded2, r) = load(idx, loaded, k, ptr.offset, page_range(ptr).1, b);
    lemma_resolve_data(idx2, loaded2, k, ps, e);
}

/// `e` is an entry of some page of the table.
pub open spec fn table_holds(ps: Seq<(u64, Vec<u8>)>, e: Entry) -> bool {
    exists|j: int|
        0 <= j < ps.len() && #[trigger] page_entries(ps[j].1@, table_range(ps[j]).1 as nat).contains(e)
}

/// Every entry after a merge was in the index or is the merged entry.
proof fn lemma_merge_entry_from(m: Seq<Entry>, x: Entry, y: Entry)
    requires
        merge_entry(m, x) is Some,
        merge_entry(m, x).unwrap().contains(y),
    ensures
        m.contains(y) || y == x,
{
    let m2 = merge_entry(m, x).unwrap();
    let i = choose|i: int| 0 <= i < m2.len() && m2[i] == y;
    let p = position(m, x.key);
    if p < 0 {
        if i < m.len() {
            assert(m[i] == y);
        }
    } else if i != p {
        assert(m[i] == y);
    } else {
        assert(m[p] == y || x == y);
    }
}

/// Every entry after merging a page was in the index or in the page.
proof fn lemma_merge_from(idx: Seq<Entry>, es: Seq<Entry>, y: Entry)
    requires
        merge_entries(idx, es) is Some,
        merge_entries(idx, es).unwrap().contains(y),
    ensures
        idx.contains(y) || es.contains(y),
    decreases es.len(),
{
    if es.len() > 0 {
        let front = es.drop_last();
        if merge_entries(idx, front) is None {
            assert(false);
        }
        let m = merge_entries(idx, front).unwrap();
        lemma_merge_entry_from(m, es.last(), y);
        if m.contains(y) {
            lemma_merge_from(idx, front, y);
            if front.contains(y) {
                let i = choose|i: int| 0 <= i < front.len() && front[i] == y;
                assert(es[i] == y);
            }
        } else {
            assert(es[es.len() - 1] == y);
        }
    }
}

/// A lookup either leaves the index as it is or drops the followed pointer and
/// goes on.
proof fn lemma_lookup_step(idx: Seq<Entry>, loaded: Seq<(u64, u64)>, k: VoxelKey)
    ensures
        lookup(idx, loaded, k).0 == idx || (0 <= followed(idx, k) < idx.len() && lookup(
            idx,
            loaded,
            k,
        ) == lookup(idx.remove(followed(idx, k)), loaded, k)),
{
    reveal(lookup);
}

/// A lookup only removes entries.
proof fn lemma_lookup_from(idx: Seq<Entry>, loaded: Seq<(u64, u64)>, k: VoxelKey, y: Entry)
    requires
        lookup(idx, loaded, k).0.contains(y),
    ensures
        idx.contains(y),
    decreases idx.len(),
{
    lemma_lookup_step(idx, loaded, k);
    if lookup(idx, loaded, k).0 != idx {
        let j = followed(idx, k);
        let r = idx.remove(j);
        lemma_lookup_from(r, loaded, k, y);
        let a = choose|a: int| 0 <= a < r.len() && r[a] == y;
        if a < j {
            assert(idx[a] == y);
        } else {
            assert(idx[a + 1] == y);
        }
    }
}

/// A successful load only adds entries of the loaded page.
proof fn lemma_load_from(
    idx: Seq<Entry>,
    loaded: Seq<(u64, u64)>,
    k: VoxelKey,
    offset: u64,
    size: u64,
    b: Seq<u8>,
    y: Entry,
)
    requires
        load(idx, loaded, k, offset, size, b).2 is Ok,
        load(idx, loaded, k, offset, size, b).0.contains(y),
    ensures
        idx.contains(y) || page_entries(b, size as nat).contains(y),
{
    reveal(load);
    let base = unlink(idx, k, offset, size);
    lemma_merge_from(base, page_entries(b, size as nat), y);
    if base.contains(y) && base != idx {
        let j = followed(idx, k);
        let a = choose|a: int| 0 <= a < base.len() && base[a] == y;
        if a < j {
            assert(idx[a] == y);
        } else {
            assert(idx[a + 1] == y);
        }
    }
}

/// A resolution never makes up an entry: what it returns was in the index or in a
/// page of the table. So a key with no data entry in the index or in any page of
/// the table is never resolved, whatever the pages' pointers, cycles included.
pub proof fn lemma_resolve_sound(
    idx: Seq<Entry>,
    loaded: Seq<(u64, u64)>,
    k: VoxelKey,
    ps: Seq<(u64, Vec<u8>)>,
)
    ensures
        resolve_table(idx, loaded, k, ps).2 matches Ok(e) ==> e.key == k && e.spec_is_data() && (
        idx.contains(e) || table_holds(ps, e)),
    decreases unloaded_count(ps, loaded),
{
    let (idx1, ans) = lookup(idx, loaded, k);
    lemma_lookup_data(idx, loaded, k);
    lemma_fetch_fresh(idx, loaded, k);
    match ans {
        Ok(Lookup::Data(e)) => {
            lemma_resolve_data(idx, loaded, k, ps, e);
            lemma_lookup_from(idx, loaded, k, e);
        },
        Err(err) => {
            lemma_resolve_err(idx, loaded, k, ps, err);
        },
        Ok(Lookup::Fetch { offset, size }) => {
            let j = table_index(ps, (offset, size));
            if j < 0 {
                lemma_resolve_missing(idx, loaded, k, ps, offset, size);
            } else {
                let w = choose|i: int| 0 <= i < ps.len() && #[trigger] table_range(ps[i]) == (offset, size);
                lemma_table_index(ps, (offset, size), w);
                lemma_resolve_load(idx, loaded, k, ps, offset, size, j);
                let b = ps[j].1@;
                lemma_load_ranges(idx1, loaded, k, offset, size, b);
                let (idx2, loaded2, r) = load(idx1, loaded, k, offset, size, b);
                if r is Ok {
                    lemma_unloaded_count_drops(ps, loaded, (offset, size), j);
                    lemma_resolve_sound(idx2, loaded2, k, ps);
                    if let Ok(e) = resolve_table(idx, loaded, k, ps).2 {
                        if idx2.contains(e) {
                            lemma_load_from(idx1, loaded, k, offset, size, b, e);
                            if idx1.contains(e) {
                                lemma_lookup_from(idx, loaded, k, e);
                            } else {
                                assert(page_entries(ps[j].1@, table_range(ps[j]).1 as nat).contains(e));
                            }
                        }
                    }
                }
            }
        },
    }
}

/// A lookup never asks for a page that is loaded already.
proof fn lemma_fetch_fresh(idx: Seq<Entry>, loaded: Seq<(u64, u64)>, k: VoxelKey)
    ensures
        lookup(idx, loaded, k).1 matches Ok(Lookup::Fetch { offset, size }) ==> !loaded.contains(
            (offset, size),
        ),
    decreases idx.len(),
{
    reveal(lookup);
    reveal(load);
    let j = followed(idx, k);
    if 0 <= j < idx.len() && loaded.contains(page_range(idx[j])) {
        lemma_fetch_fresh(idx.remove(j), loaded, k);
    }
}

/// Lookups cannot loop over a cyclic hierarchy: a lookup never asks for a page that
/// is loaded already; a key with no entry of its own and no pointer entry that can
/// lead to it is not found; and a successful load after a request adds a range that
/// was not loaded before.
pub proof fn lemma_no_refetch(
    idx: Seq<Entry>,
    loaded: Seq<(u64, u64)>,
    k: VoxelKey,
    b: Seq<u8>,
)
    ensures
        lookup(idx, loaded, k).1 matches Ok(Lookup::Fetch { offset, size }) ==> !loaded.contains(
            (offset, size),
        ),
        (forall|i: int| 0 <= i < idx.len() ==> #[trigger] idx[i].key != k && !leads_to(idx[i], k))
            ==> lookup(idx, loaded, k) == (idx, Err::<Lookup, CopcError>(CopcError::KeyNotFound)),
        lookup(idx, loaded, k).1 matches Ok(Lookup::Fetch { offset, size }) ==> ({
            let (idx2, loaded2, r) = load(idx, loaded, k, offset, size, b);
            r is Ok ==> loaded2 == loaded.push((offset, size)) && loaded2.len() == loaded.len() + 1
        }),
{
    reveal(lookup);
    reveal(load);
    lemma_fetch_fresh(idx, loaded, k);
    lemma_position(idx, k);
    if forall|i: int| 0 <= i < idx.len() ==> #[trigger] idx[i].key != k && !leads_to(idx[i], k) {
        if exists|i: int| 0 <= i < idx.len() && #[trigger] ancestor_pointer(idx[i], k) {
            let i = choose|i: int| 0 <= i < idx.len() && #[trigger] ancestor_pointer(idx[i], k);
            assert(leads_to(idx[i], k));
        }
    }
}

/// The byte range that a page of an in-memory table covers.
pub open spec fn table_range(p: (u64, Vec<u8>)) -> (u64, u64) {
    (p.0, p.1@.len() as u64)
}

/// How many pages of the table are not loaded yet.
pub open spec fn unloaded_count(ps: Seq<(u64, Vec<u8>)>, loaded: Seq<(u64, u64)>) -> nat
    decreases ps.len(),
{
    if ps.len() == 0 {
        0
    } else {
        unloaded_count(ps.drop_last(), loaded) + if loaded.contains(table_range(ps.last())) {
            0nat
        } else {
            1nat
        }
    }
}

/// Loading a range of the table that was not loaded leaves fewer pages to load.
proof fn lemma_unloaded_count_drops(
    ps: Seq<(u64, Vec<u8>)>,
    loaded: Seq<(u64, u64)>,
    r: (u64, u64),
    i: int,
)
    requires
        !loaded.contains(r),
    ensures
        unloaded_count(ps, loaded.push(r)) <= unloaded_count(ps, loaded),
        0 <= i < ps.len() && table_range(ps[i]) == r ==> unloaded_count(ps, loaded.push(r))
            < unloaded_count(ps, loaded),
    decreases ps.len(),
{
    if ps.len() > 0 {
        let front = ps.drop_last();
        let x = table_range(ps.last());
        lemma_unloaded_count_drops(front, loaded, r, i);
        assert(loaded.push(r).contains(x) <==> loaded.contains(x) || x == r) by {
            if loaded.push(r).contains(x) {
                let j = choose|j: int| 0 <= j < loaded.push(r).len() && loaded.push(r)[j] == x;
                if j < loaded.len() {
                    assert(loaded[j] == x);
                }
            }
            if loaded.contains(x) {
                let j = choose|j: int| 0 <= j < loaded.len() && loaded[j] == x;
                assert(loaded.push(r)[j] == x);
            }
            if x == r {
                assert(loaded.push(r)[loaded.len() as int] == x);
            }
        }
        if 0 <= i < ps.len() - 1 {
            assert(front[i] == ps[i]);
        }
    }
}

/// The first page of the table that covers `r`, or -1 if none does.
pub open spec fn table_index(ps: Seq<(u64, Vec<u8>)>, r: (u64, u64)) -> int {
    if exists|i: int| 0 <= i < ps.len() && #[trigger] table_range(ps[i]) == r {
        choose|i: int|
            0 <= i < ps.len() && #[trigger] table_range(ps[i]) == r && forall|j: int|
                0 <= j < i ==> #[trigger] table_range(ps[j]) != r
    } else {
        -1
    }
}

/// A whole resolution of `k` against the table of pages `ps`, from the index `idx`
/// and the loaded ranges `loaded`: the index, the loaded ranges and the result at
/// the end. Lookups run until one answers; each page asked for is taken from the
/// table (`TruncatedRecord` if the table does not hold it) and loaded, and a failed
/// load ends the resolution with its error.
#[verifier::opaque]
pub open spec fn resolve_table(
    idx: Seq<Entry>,
    loaded: Seq<(u64, u64)>,
    k: VoxelKey,
    ps: Seq<(u64, Vec<u8>)>,
) -> (Seq<Entry>, Seq<(u64, u64)>, Result<Entry, CopcError>)
    decreases unloaded_count(ps, loaded),
    via resolve_table_decreases
{
    let (idx1, ans) = lookup(idx, loaded, k);
    match ans {
        Ok(Lookup::Data(e)) => (idx1, loaded, Ok(e)),
        Err(e) => (idx1, loaded, Err(e)),
        Ok(Lookup::Fetch { offset, size }) => {
            let j = table_index(ps, (offset, size));
            if j < 0 {
                (idx1, loaded, Err(CopcError::TruncatedRecord))
            } else {
                let (idx2, loaded2, r) = load(idx1, loaded, k, offset, size, ps[j].1@);
                match r {
                    Ok(()) => resolve_table(idx2, loaded2, k, ps),
                    Err(e) => (idx2, loaded2, Err(e)),
                }
            }
        },
    }
}

/// When the table covers `r`, `table_index` is its first page that does.
proof fn lemma_table_index(ps: Seq<(u64, Vec<u8>)>, r: (u64, u64), i: int)
    requires
        0 <= i < ps.len(),
        table_range(ps[i]) == r,
    ensures
        0 <= table_index(ps, r) <= i,
        table_range(ps[table_index(ps, r)]) == r,
    decreases i,
{
    if forall|j: int| 0 <= j < i ==> #[trigger] table_range(ps[j]) != r {
        let c = table_index(ps, r);
        assert(0 <= c < ps.len() && table_range(ps[c]) == r);
        if c > i {
            assert(table_range(ps[i]) != r);
        }
    } else {
        let j = choose|j: int| 0 <= j < i && #[trigger] table_range(ps[j]) != r == false;
        lemma_table_index(ps, r, j);
    }
}

/// A resolution whose first lookup answers with a data entry returns it.
proof fn lemma_resolve_data(
    idx: Seq<Entry>,
    loaded: Seq<(u64, u64)>,
    k: VoxelKey,
    ps: Seq<(u64, Vec<u8>)>,
    e: Entry,
)
    requires
        lookup(idx, loaded, k).1 == Ok::<Lookup, CopcError>(Lookup::Data(e)),
    ensures
        resolve_table(idx, loaded, k, ps) == (lookup(idx, loaded, k).0, loaded, Ok::<
            Entry,
            CopcError,
        >(e)),
{
    reveal(resolve_table);
}

/// A resolution whose first lookup fails fails with the same error.
proof fn lemma_resolve_err(
    idx: Seq<Entry>,
    loaded: Seq<(u64, u64)>,
    k: VoxelKey,
    ps: Seq<(u64, Vec<u8>)>,
    err: CopcError,
)
    requires
        lookup(idx, loaded, k).1 == Err::<Lookup, CopcError>(err),
    ensures
        resolve_table(idx, loaded, k, ps) == (lookup(idx, loaded, k).0, loaded, Err::<
            Entry,
            CopcError,
        >(err)),
{
    reveal(resolve_table);
}

/// A resolution that asks for a page the table does not hold ends there.
proof fn lemma_resolve_missing(
    idx: Seq<Entry>,
    loaded: Seq<(u64, u64)>,
    k: VoxelKey,
    ps: Seq<(u64, Vec<u8>)>,
    offset: u64,
    size: u64,
)
    requires
        lookup(idx, loaded, k).1 == Ok::<Lookup, CopcError>(Lookup::Fetch { offset, size }),
        table_index(ps, (offset, size)) < 0,
    ensures
        resolve_table(idx, loaded, k, ps) == (lookup(idx, loaded, k).0, loaded, Err::<
            Entry,
            CopcError,
        >(CopcError::TruncatedRecord)),
{
    reveal(resolve_table);
}

/// A resolution that loads a page from the table either ends with the load's error
/// or goes on from the state after the load.
proof fn lemma_resolve_load(
    idx: Seq<Entry>,
    loaded: Seq<(u64, u64)>,
    k: VoxelKey,
    ps: Seq<(u64, Vec<u8>)>,
    offset: u64,
    size: u64,
    j: int,
)
    requires
        lookup(idx, loaded, k).1 == Ok::<Lookup, CopcError>(Lookup::Fetch { offset, size }),
        table_index(ps, (offset, size)) == j,
        j >= 0,
    ensures
        ({
            let (idx2, loaded2, r) = load(lookup(idx, loaded, k).0, loaded, k, offset, size, ps[j].1@);
            &&& r matches Err(e) ==> resolve_table(idx, loaded, k, ps) == (idx2, loaded2, Err::<
                Entry,
                CopcError,
            >(e))
            &&& r is Ok ==> resolve_table(idx, loaded, k, ps) == resolve_table(idx2, loaded2, k, ps)
        }),
{
    reveal(resolve_table);
}

/// A load records the range it loaded, and on failure changes nothing.
proof fn lemma_load_ranges(
    idx: Seq<Entry>,
    loaded: Seq<(u64, u64)>,
    k: VoxelKey,
    offset: u64,
    size: u64,
    b: Seq<u8>,
)
    ensures
        load(idx, loaded, k, offset, size, b).2 is Ok ==> load(idx, loaded, k, offset, size, b).1
            == loaded.push((offset, size)),
        load(idx, loaded, k, offset, size, b).2 is Err ==> load(idx, loaded, k, offset, size, b).0
            == idx && load(idx, loaded, k, offset, size, b).1 == loaded,
{
    reveal(load);
}

#[via_fn]
proof fn resolve_table_decreases(
    idx: Seq<Entry>,
    loaded: Seq<(u64, u64)>,
    k: VoxelKey,
    ps: Seq<(u64, Vec<u8>)>,
) {
    lemma_fetch_fresh(idx, loaded, k);
    let (idx1, ans) = lookup(idx, loaded, k);
    if let Ok(Lookup::Fetch { offset, size }) = ans {
        let j = table_index(ps, (offset, size));
        if j >= 0 {
            let w = choose|i: int| 0 <= i < ps.len() && #[trigger] table_range(ps[i]) == (offset, size);
            lemma_table_index(ps, (offset, size), w);
            lemma_unloaded_count_drops(ps, loaded, (offset, size), j);
            lemma_load_ranges(idx1, loaded, k, offset, size, ps[j].1@);
        }
    }
}

/// A data answer is an entry of the index after the lookup, under the key asked for.
proof fn lemma_lookup_data(idx: Seq<Entry>, loaded: Seq<(u64, u64)>, k: VoxelKey)
    ensures
        lookup(idx, loaded, k).1 matches Ok(Lookup::Data(e)) ==> e.key == k && e.spec_is_data()
            && lookup(idx, loaded, k).0.contains(e),
    decreases idx.len(),
{
    reveal(lookup);
    reveal(load);
    lemma_position(idx, k);
    let j = followed(idx, k);
    if 0 <= j < idx.len() && loaded.contains(page_range(idx[j])) {
        lemma_lookup_data(idx.remove(j), loaded, k);
    }
    let i = position(idx, k);
    if i >= 0 {
        assert(idx[i] == idx[i]);
    }
}

/// The state of a reader over a COPC hierarchy: the metadata record, the index of
/// entries by key, and the byte ranges of the pages loaded so far.
#[derive(Debug)]
pub struct PageReader {
    copc: CopcData,
    index: Vec<Entry>,
    loaded: Vec<(u64, u64)>,
}

impl PageReader {
    /// The entries known so far.
    pub closed spec fn entries(&self) -> Seq<Entry> {
        self.index@
    }

    /// The byte ranges of the pages loaded so far, in load order.
    pub closed spec fn loaded_ranges(&self) -> Seq<(u64, u64)> {
        self.loaded@
    }

    /// The metadata record the reader was made with.
    pub closed spec fn metadata(&self) -> CopcData {
        self.copc
    }

    /// The index holds one entry per key.
    pub open spec fn wf(&self) -> bool {
        keys_unique(self.entries())
    }

    /// A reader over the hierarchy whose root page is the first `root_size` bytes of
    /// `root`, for the record `copc`; the root page's range counts as loaded.
    pub fn new(root: &[u8], root_size: u64, copc: CopcData) -> (r: Result<PageReader, CopcError>)
        ensures
            match r {
                Ok(p) => {
                    &&& p.wf()
                    &&& merge_page(Seq::empty(), root@, root_size) == Ok::<Seq<Entry>, CopcError>(
                        p.entries(),
                    )
                    &&& p.loaded_ranges() == seq![(copc.root_hier_offset, root_size)]
                    &&& p.metadata() == copc
                },
                Err(e) => merge_page(Seq::empty(), root@, root_size) == Err::<Seq<Entry>, CopcError>(
                    e,
                ),
            },
    {
        let empty: Vec<Entry> = Vec::new();
        let index = match merged(&empty, root, root_size) {
            Ok(m) => m,
            Err(e) => return Err(e),
        };
        let mut loaded: Vec<(u64, u64)> = Vec::new();
        loaded.push((copc.root_hier_offset, root_size));
        Ok(PageReader { copc, index, loaded })
    }

    /// The metadata record.
    pub fn copc(&self) -> (r: CopcData)
        ensures
            r == self.metadata(),
    {
        self.copc
    }

    /// Number of entries in the index.
    pub fn entry_count(&self) -> (r: usize)
        ensures
            r == self.entries().len(),
    {
        self.index.len()
    }

    /// Number of pages loaded, the root page included.
    pub fn page_count(&self) -> (r: usize)
        ensures
            r == self.loaded_ranges().len(),
    {
        self.loaded.len()
    }

    /// Resolves `key` against a hierarchy held in memory as a table of pages, each
    /// an offset and the bytes at that offset. Each page the lookup asks for is
    /// taken from the table (`TruncatedRecord` if the table has no page with that
    /// offset and size) and loaded, until the lookup answers. This ends on every
    /// table, cyclic ones included, and loads each range at most once.
    pub fn resolve_in(&mut self, key: VoxelKey, pages: &Vec<(u64, Vec<u8>)>) -> (r: Result<
        Entry,
        CopcError,
    >)
        requires
            old(self).wf(),
        ensures
            final(self).wf(),
            final(self).metadata() == old(self).metadata(),
            (final(self).entries(), final(self).loaded_ranges(), r) == resolve_table(
                old(self).entries(),
                old(self).loaded_ranges(),
                key,
                pages@,
            ),
            old(self).loaded_ranges().len() <= final(self).loaded_ranges().len(),
            final(self).loaded_ranges().subrange(0, old(self).loaded_ranges().len() as int)
                == old(self).loaded_ranges(),
            forall|a: int, b: int|
                old(self).loaded_ranges().len() <= a < final(self).loaded_ranges().len() && 0 <= b < a
                    ==> #[trigger] final(self).loaded_ranges()[a] != #[trigger] final(self).loaded_ranges()[b],
            r matches Ok(e) ==> e.key == key && e.spec_is_data(),
    {
        let ghost start = self.loaded@;
        loop
            invariant
                self.wf(),
                self.copc == old(self).copc,
                start == old(self).loaded@,
                resolve_table(self.index@, self.loaded@, key, pages@) == resolve_table(
                    old(self).index@,
                    start,
                    key,
                    pages@,
                ),
                start.len() <= self.loaded@.len(),
                self.loaded@.subrange(0, start.len() as int) == start,
                forall|a: int, b: int|
                    start.len() <= a < self.loaded@.len() && 0 <= b < a ==> #[trigger] self.loaded@[a]
                        != #[trigger] self.loaded@[b],
            decreases unloaded_count(pages@, self.loaded@),
        {
            let ghost prev = self.loaded@;
            match self.resolve_round(key, pages) {
                Ok(Some(e)) => return Ok(e),
                Ok(None) => {},
                Err(e) => return Err(e),
            }
            proof {
                assert(self.loaded@.subrange(0, start.len() as int) =~= prev.subrange(
                    0,
                    start.len() as int,
                ));
                assert forall|a: int, b: int|
                    start.len() <= a < self.loaded@.len() && 0 <= b < a implies #[trigger] self.loaded@[a]
                        != #[trigger] self.loaded@[b] by {
                    assert(self.loaded@[b] == self.loaded@.drop_last()[b]);
                    if a < prev.len() {
                        assert(self.loaded@[a] == self.loaded@.drop_last()[a]);
                    } else {
                        assert(prev[b] != self.loaded@.last());
                    }
                }
            }
        }
    }

    /// One round of [`PageReader::resolve_in`]: a lookup, and if it asks for a page,
    /// the fetch from the table and the load. `Ok(None)` when the page was loaded and
    /// the resolution goes on.
    #[verifier::rlimit(60)]
    #[verifier::spinoff_prover]
    fn resolve_round(&mut self, key: VoxelKey, pages: &Vec<(u64, Vec<u8>)>) -> (r: Result<
        Option<Entry>,
        CopcError,
    >)
        requires
            old(self).wf(),
        ensures
            final(self).wf(),
            final(self).copc == old(self).copc,
            r matches Ok(Some(e)) ==> e.key == key && e.spec_is_data() && resolve_table(
                old(self).index@,
                old(self).loaded@,
                key,
                pages@,
            ) == (final(self).index@, final(self).loaded@, Ok::<Entry, CopcError>(e)),
            r matches Err(e) ==> resolve_table(old(self).index@, old(self).loaded@, key, pages@)
                == (final(self).index@, final(self).loaded@, Err::<Entry, CopcError>(e)),
            r matches Ok(None) ==> ({
                &&& resolve_table(old(self).index@, old(self).loaded@, key, pages@) == resolve_table(
                    final(self).index@,
                    final(self).loaded@,
                    key,
                    pages@,
                )
                &&& final(self).loaded@.len() == old(self).loaded@.len() + 1
                &&& final(self).loaded@.drop_last() == old(self).loaded@
                &&& !old(self).loaded@.contains(final(self).loaded@.last())
                &&& unloaded_count(pages@, final(self).loaded@) < unloaded_count(
                    pages@,
                    old(self).loaded@,
                )
            }),
            !(r matches Ok(None)) ==> final(self).loaded@ == old(self).loaded@,
    {
        let ghost before = self.index@;
        let ghost prev = self.loaded@;
        let (offset, size) = match self.page_entry(key) {
            Ok(Lookup::Data(e)) => {
                proof {
                    lemma_resolve_data(before, prev, key, pages@, e);
                    lemma_lookup_data(before, prev, key);
                }
                return Ok(Some(e));
            },
            Ok(Lookup::Fetch { offset, size }) => (offset, size),
            Err(e) => {
                proof {
                    lemma_resolve_err(before, prev, key, pages@, e);
                }
                return Err(e);
            },
        };
        proof {
            lemma_fetch_fresh(before, prev, key);
        }
        let j = match find_page(pages, offset, size) {
            Some(j) => j,
            None => {
                proof {
                    lemma_resolve_missing(before, prev, key, pages@, offset, size);
                }
                return Err(CopcError::TruncatedRecord);
            },
        };
        let ghost mid = self.index@;
        proof {
            lemma_resolve_load(before, prev, key, pages@, offset, size, j as int);
            lemma_load_ranges(mid, prev, key, offset, size, pages@[j as int].1@);
            assert(mid == lookup(before, prev, key).0);
        }
        match self.load_page(key, offset, size, &pages[j].1) {
            Ok(()) => {},
            Err(e) => return Err(e),
        }
        proof {
            lemma_unloaded_count_drops(pages@, prev, (offset, size), j as int);
            assert(self.loaded@.drop_last() =~= prev);
        }
        Ok(None)
    }

    /// Looks `key` up: its data entry, or the page to fetch next, or an error
    /// (`KeyNotFound`, or `CorruptHierarchy` for an entry with an invalid point count
    /// or a negative page size). Only exact keys match; pointer entries of the key
    /// and of its ancestors are followed.
    pub fn page_entry(&mut self, key: VoxelKey) -> (r: Result<Lookup, CopcError>)
        requires
            old(self).wf(),
        ensures
            final(self).wf(),
            (final(self).entries(), r) == lookup(old(self).entries(), old(self).loaded_ranges(), key),
            final(self).loaded_ranges() == old(self).loaded_ranges(),
            final(self).metadata() == old(self).metadata(),
    {
        loop
            invariant
                self.wf(),
                self.loaded@ == old(self).loaded@,
                self.copc == old(self).copc,
                lookup(self.index@, self.loaded@, key) == lookup(old(self).index@, self.loaded@, key),
            decreases self.index@.len(),
        {
            let ghost idx = self.index@;
            proof {
                reveal(lookup);
                lemma_position(idx, key);
            }
            let own = find(&self.index, key);
            let j = match own {
                Some(i) => {
                    let e = self.index[i];
                    if e.is_data() {
                        return Ok(Lookup::Data(e));
                    }
                    if !e.is_pointer() {
                        return Err(CopcError::CorruptHierarchy);
                    }
                    i
                },
                None => match find_ancestor_pointer(&self.index, key) {
                    Some(j) => j,
                    None => return Err(CopcError::KeyNotFound),
                },
            };
            let e = self.index[j];
            if e.byte_size < 0 {
                return Err(CopcError::CorruptHierarchy);
            }
            let size = e.byte_size as u64;
            if !range_loaded(&self.loaded, e.offset, size) {
                return Ok(Lookup::Fetch { offset: e.offset, size });
            }
            self.index.remove(j);
            proof {
                lemma_remove_unique(idx, j as int);
            }
        }
    }

    /// Loads the page at `(offset, size)` that was fetched for `key`, held by the
    /// first `size` bytes of `bytes`: removes the pointer that the lookup of `key`
    /// followed there, merges the page's entries into the index and records the
    /// range. On an error the reader is left as it was.
    pub fn load_page(&mut self, key: VoxelKey, offset: u64, size: u64, bytes: &[u8]) -> (r: Result<
        (),
        CopcError,
    >)
        requires
            old(self).wf(),
        ensures
            final(self).wf(),
            (final(self).entries(), final(self).loaded_ranges(), r) == load(
                old(self).entries(),
                old(self).loaded_ranges(),
                key,
                offset,
                size,
                bytes@,
            ),
            final(self).metadata() == old(self).metadata(),
    {
        proof {
            reveal(load);
        }
        let base = unlinked(&self.index, key, offset, size);
        let m = match merged(&base, bytes, size) {
            Ok(m) => m,
            Err(e) => return Err(e),
        };
        self.index = m;
        self.loaded.push((offset, size));
        Ok(())
    }
}

/// Where the table first holds the page at `(offset, size)` (see [`table_index`]).
fn find_page(pages: &Vec<(u64, Vec<u8>)>, offset: u64, size: u64) -> (r: Option<usize>)
    ensures
        match r {
            Some(j) => j == table_index(pages@, (offset, size)) && j < pages@.len() && table_range(
                pages@[j as int],
            ) == (offset, size),
            None => table_index(pages@, (offset, size)) == -1,
        },
{
    let mut i: usize = 0;
    while i < pages.len()
        invariant
            i <= pages@.len(),
            forall|j: int| 0 <= j < i ==> #[trigger] table_range(pages@[j]) != (offset, size),
        decreases pages@.len() - i,
    {
        if pages[i].0 == offset && pages[i].1.len() as u64 == size {
            proof {
                let s = pages@;
                assert(table_range(s[i as int]) == (offset, size));
                let c = table_index(s, (offset, size));
                assert(0 <= c < s.len() && table_range(s[c]) == (offset, size));
                if c < i {
                    assert(table_range(s[c]) != (offset, size));
                }
                if c > i {
                    assert(table_range(s[i as int]) != (offset, size));
                }
            }
            return Some(i);
        }
        i = i + 1;
    }
    None
}

/// A copy of the index without the pointer entry that a lookup of `k` follows, if
/// that entry addresses `(offset, size)`.
fn unlinked(es: &Vec<Entry>, k: VoxelKey, offset: u64, size: u64) -> (r: Vec<Entry>)
    requires
        keys_unique(es@),
    ensures
        r@ == unlink(es@, k, offset, size),
        keys_unique(r@),
{
    let mut base: Vec<Entry> = copy_entries(es);
    let f = followed_pointer(&base, k);
    if let Some(j) = f {
        let e = base[j];
        if e.byte_size >= 0 && e.offset == offset && e.byte_size as u64 == size {
            base.remove(j);
            proof {
                lemma_remove_unique(es@, j as int);
            }
            return base;
        }
    }
    base
}

/// The pointer entry that a lookup of `k` follows (see [`followed`]).
fn followed_pointer(es: &Vec<Entry>, k: VoxelKey) -> (r: Option<usize>)
    requires
        keys_unique(es@),
    ensures
        match r {
            Some(j) => j == followed(es@, k) && j < es@.len(),
            None => followed(es@, k) == -1,
        },
{
    proof {
        lemma_position(es@, k);
    }
    match find(es, k) {
        Some(i) => {
            if es[i].is_pointer() {
                Some(i)
            } else {
                None
            }
        },
        None => find_ancestor_pointer(es, k),
    }
}

/// The first pointer entry of an ancestor of `k` (see [`first_ancestor_pointer`]).
fn find_ancestor_pointer(es: &Vec<Entry>, k: VoxelKey) -> (r: Option<usize>)
    ensures
        match r {
            Some(j) => j == first_ancestor_pointer(es@, k) && j < es@.len(),
            None => first_ancestor_pointer(es@, k) == -1,
        },
{
    let mut i: usize = 0;
    while i < es.len()
        invariant
            i <= es@.len(),
            forall|j: int| 0 <= j < i ==> !ancestor_pointer(#[trigger] es@[j], k),
        decreases es@.len() - i,
    {
        let e = es[i];
        if e.is_pointer() && e.key.is_ancestor_of(&k) {
            proof {
                let s = es@;
                assert(ancestor_pointer(s[i as int], k));
                let c = first_ancestor_pointer(s, k);
                assert(0 <= c < s.len() && ancestor_pointer(s[c], k));
                if c < i {
                    assert(!ancestor_pointer(s[c], k));
                }
                if c > i {
                    assert(forall|j: int| 0 <= j < c ==> !ancestor_pointer(#[trigger] s[j], k));
                    assert(!ancestor_pointer(s[i as int], k));
                }
            }
            return Some(i);
        }
        i = i + 1;
    }
    None
}

/// Where the entry for `k` stands in `es`.
fn find(es: &Vec<Entry>, k: VoxelKey) -> (r: Option<usize>)
    requires
        keys_unique(es@),
    ensures
        match r {
            Some(i) => i == position(es@, k),
            None => position(es@, k) == -1,
        },
{
    proof {
        lemma_position(es@, k);
    }
    let mut i: usize = 0;
    while i < es.len()
        invariant
            i <= es@.len(),
            keys_unique(es@),
            forall|j: int| 0 <= j < i ==> #[trigger] es@[j].key != k,
        decreases es@.len() - i,
    {
        if es[i].key == k {
            proof {
                lemma_position_unique(es@, k, i as int);
            }
            return Some(i);
        }
        i = i + 1;
    }
    None
}

/// Whether `(offset, size)` is among the loaded ranges.
fn range_loaded(loaded: &Vec<(u64, u64)>, offset: u64, size: u64) -> (r: bool)
    ensures
        r == loaded@.contains((offset, size)),
{
    let mut i: usize = 0;
    while i < loaded.len()
        invariant
            i <= loaded@.len(),
            forall|j: int| 0 <= j < i ==> #[trigger] loaded@[j] != (offset, size),
        decreases loaded@.len() - i,
    {
        let (o, s) = loaded[i];
        if o == offset && s == size {
            assert(loaded@[i as int] == (offset, size));
            return true;
        }
        i = i + 1;
    }
    false
}

/// A copy of the entries.
fn copy_entries(es: &Vec<Entry>) -> (r: Vec<Entry>)
    ensures
        r@ == es@,
{
    let mut r: Vec<Entry> = Vec::with_capacity(es.len());
    let mut i: usize = 0;
    while i < es.len()
        invariant
            i <= es@.len(),
            r@ == es@.subrange(0, i as int),
        decreases es@.len() - i,
    {
        r.push(es[i]);
        i = i + 1;
        assert(r@ =~= es@.subrange(0, i as int));
    }
    assert(r@ =~= es@);
    r
}

/// The index `idx` with the page in the first `size` bytes of `b` merged in.
fn merged(idx: &Vec<Entry>, b: &[u8], size: u64) -> (r: Result<Vec<Entry>, CopcError>)
    requires
        keys_unique(idx@),
    ensures
        match r {
            Ok(m) => merge_page(idx@, b@, size) == Ok::<Seq<Entry>, CopcError>(m@) && keys_unique(m@),
            Err(e) => merge_page(idx@, b@, size) == Err::<Seq<Entry>, CopcError>(e),
        },
{
    let page = match Page::read_from(b, size) {
        Ok(p) => p,
        Err(e) => return Err(e),
    };
    let ghost es = page@;
    proof {
        lemma_page_entries(es, b@, size as nat);
    }
    let mut out = copy_entries(idx);
    let mut i: usize = 0;
    while i < page.entries.len()
        invariant
            es == page@,
            page_entries(b@, size as nat) == es,
            size % 32 == 0,
            size <= b@.len(),
            i <= es.len(),
            merge_entries(idx@, es.subrange(0, i as int)) == Some(out@),
            keys_unique(out@),
        decreases es.len() - i,
    {
        let e = page.entries[i];
        let ghost before = out@;
        assert(es.subrange(0, i + 1).drop_last() =~= es.subrange(0, i as int));
        proof {
            lemma_position(before, e.key);
        }
        match find(&out, e.key) {
            None => {
                out.push(e);
            },
            Some(j) => {
                let cur = out[j];
                if cur.is_data() && e.is_data() {
                    if cur != e {
                        proof {
                            assert(es.subrange(0, i + 1).last() == e);
                            assert(merge_entry(before, e) is None);
                            assert(merge_entries(idx@, es.subrange(0, i + 1)) is None);
                            lemma_merge_none(idx@, es, i + 1);
                            assert(merge_entries(idx@, page_entries(b@, size as nat)) is None);
                        }
                        return Err(CopcError::CorruptHierarchy);
                    }
                } else if e.is_data() {
                    out.set(j, e);
                }
            },
        }
        assert(merge_entries(idx@, es.subrange(0, i + 1)) == Some(out@));
        proof {
            lemma_merge_entry_unique(before, e);
        }
        i = i + 1;
    }
    assert(es.subrange(0, es.len() as int) =~= es);
    Ok(out)
}

} // verus!
