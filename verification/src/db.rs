//! The on-disk index format. A file is a 64-byte header (the magic `NDL1`, the format version,
//! the entry count, an FNV-1a checksum of every other byte, zero flags, the save time), then
//! the paths each followed by a zero byte, the name and extension offsets and kind of each
//! entry, its size and times, and the extension table sorted by extension.
use crate::index::{
    Entry, Index, first_rel, fnv1a_64, fnv1a_spec, path_bytes, path_map_of, path_map_sound, tri_rel,
    ext_table_sound, ext_chars, name_has, name_starts,
};
use crate::postings::{postings_sound, strictly_increasing};
use crate::order::{
    BytesKey, SortableKey, bytes_lt, holds_position, is_permutation, stable_sort_order, stably_sorted,
};
use vstd::bytes::{
    spec_u16_from_le_bytes, spec_u16_to_le_bytes, spec_u32_from_le_bytes, spec_u32_to_le_bytes,
    spec_u64_from_le_bytes, spec_u64_to_le_bytes, u16_to_le_bytes, u32_to_le_bytes, u64_to_le_bytes,
};
use vstd::prelude::*;
use vstd::string::StringSliceAdditionalSpecFns;
use vstd::utf8::*;

verus! {

pub const VERSION: u32 = 3;

pub const MAX_INDEX_FILE_SIZE: usize = 1024 * 1024 * 1024;

pub const MAX_PATH_SECTION_LEN: usize = 512 * 1024 * 1024;

pub const MAX_ENTRY_COUNT: usize = 10_000_000;

pub const MAX_EXT_KEY_LEN: usize = 1024;

pub const MAX_EXT_VALUE_COUNT: usize = 10_000_000;

/// What a save wrote.
#[derive(Debug, Clone, Copy, PartialEq, Eq)]
pub struct SaveStats {
    pub entry_count: u32,
    pub bytes_written: u64,
}

/// `NDL1`.
pub open spec fn magic() -> Seq<u8> {
    seq![78u8, 68u8, 76u8, 49u8]
}

pub open spec fn le16(x: u16) -> Seq<u8> {
    spec_u16_to_le_bytes(x)
}

pub open spec fn le32(x: u32) -> Seq<u8> {
    spec_u32_to_le_bytes(x)
}

pub open spec fn le64(x: u64) -> Seq<u8> {
    spec_u64_to_le_bytes(x)
}

/// The concatenation of `f` over `s`.
pub open spec fn flat<A>(s: Seq<A>, f: spec_fn(A) -> Seq<u8>) -> Seq<u8>
    decreases s.len(),
{
    if s.len() == 0 {
        Seq::empty()
    } else {
        flat(s.drop_last(), f) + f(s.last())
    }
}

/// Each path's bytes followed by a zero byte.
pub open spec fn path_block(es: Seq<Entry>) -> Seq<u8> {
    flat(es, |e: Entry| path_bytes(e).push(0u8))
}

/// The five metadata bytes of an entry: name offset, extension offset, kind.
pub open spec fn meta_bytes(e: Entry) -> Seq<u8> {
    le16(e.name_off) + le16(e.ext_off) + seq![if e.is_dir { 1u8 } else { 0u8 }]
}

pub open spec fn meta_block(es: Seq<Entry>) -> Seq<u8> {
    flat(es, |e: Entry| meta_bytes(e))
}

/// The 32 bytes of an entry's size and times.
pub open spec fn times_bytes(e: Entry) -> Seq<u8> {
    le64(e.size) + le64(e.modified as u64) + le64(e.created as u64) + le64(e.accessed as u64)
}

pub open spec fn times_block(es: Seq<Entry>) -> Seq<u8> {
    flat(es, |e: Entry| times_bytes(e))
}

pub open spec fn ids_block(ids: Seq<u32>) -> Seq<u8> {
    flat(ids, |x: u32| le32(x))
}

/// One extension record: key length, key bytes, id count, ids.
pub open spec fn ext_record(key: Seq<u8>, ids: Seq<u32>) -> Seq<u8> {
    le32(key.len() as u32) + key + le32(ids.len() as u32) + ids_block(ids)
}

pub open spec fn ext_block(items: Seq<(Seq<u8>, Seq<u32>)>) -> Seq<u8> {
    flat(items, |it: (Seq<u8>, Seq<u32>)| ext_record(it.0, it.1))
}

/// Everything after the header.
pub open spec fn file_body(es: Seq<Entry>, items: Seq<(Seq<u8>, Seq<u32>)>) -> Seq<u8> {
    le64(path_block(es).len() as u64) + path_block(es) + meta_block(es) + times_block(es) + le32(
        items.len() as u32,
    ) + ext_block(items)
}

/// Header bytes before the checksum.
pub open spec fn header_front(n: u32) -> Seq<u8> {
    magic() + le32(VERSION) + le32(n)
}

/// Header bytes after the checksum: zero flags, the save time, zero padding to 64 bytes.
pub open spec fn header_back(timestamp: i64) -> Seq<u8> {
    le32(0) + le64(timestamp as u64) + Seq::new(32, |i: int| 0u8)
}

/// The bytes of a saved index.
pub open spec fn file_bytes(es: Seq<Entry>, items: Seq<(Seq<u8>, Seq<u32>)>, timestamp: i64) -> Seq<
    u8,
> {
    let front = header_front(es.len() as u32);
    let back = header_back(timestamp) + file_body(es, items);
    front + le64(fnv1a_spec(front + back)) + back
}

/// The extension table in the given order, keys as UTF-8 bytes.
pub open spec fn table_items(t: Seq<(String, Vec<u32>)>, order: Seq<usize>) -> Seq<(Seq<u8>, Seq<u32>)> {
    Seq::new(order.len(), |i: int| (encode_utf8(t[order[i] as int].0@), t[order[i] as int].1@))
}

/// Following `order`, the table's keys never decrease in byte order.
pub open spec fn keys_sorted(t: Seq<(String, Vec<u32>)>, order: Seq<usize>) -> bool {
    forall|i: int, j: int|
        0 <= i < j < order.len() ==> !bytes_lt(
            encode_utf8(#[trigger] t[order[j] as int].0@),
            encode_utf8(#[trigger] t[order[i] as int].0@),
        )
}

/// `v` followed by `s`.
fn append_bytes(v: &mut Vec<u8>, s: &[u8])
    ensures
        final(v)@ == old(v)@ + s@,
{
    let mut i: usize = 0;
    let ghost v0 = v@;
    while i < s.len()
        invariant
            i <= s@.len(),
            v@ == v0 + s@.subrange(0, i as int),
        decreases s.len() - i,
    {
        v.push(s[i]);
        assert(s@.subrange(0, i + 1) =~= s@.subrange(0, i as int).push(s@[i as int]));
        i += 1;
    }
    assert(s@.subrange(0, s@.len() as int) =~= s@);
}

fn push_u16(v: &mut Vec<u8>, x: u16)
    ensures
        final(v)@ == old(v)@ + le16(x),
{
    let b = u16_to_le_bytes(x);
    append_bytes(v, b.as_slice());
}

fn push_u32(v: &mut Vec<u8>, x: u32)
    ensures
        final(v)@ == old(v)@ + le32(x),
{
    let b = u32_to_le_bytes(x);
    append_bytes(v, b.as_slice());
}

fn push_u64(v: &mut Vec<u8>, x: u64)
    ensures
        final(v)@ == old(v)@ + le64(x),
{
    let b = u64_to_le_bytes(x);
    append_bytes(v, b.as_slice());
}

impl Index {
    /// The bytes of the index file for this index, saved at `timestamp` (seconds since the
    /// Unix epoch), with what was written. The extension table goes out sorted by extension.
    pub fn save(&self, timestamp: i64) -> (r: (Vec<u8>, SaveStats))
        ensures
            exists|order: Seq<usize>|
                {
                    &&& is_permutation(order, self.by_ext@.len() as int)
                    &&& keys_sorted(self.by_ext@, order)
                    &&& r.0@ == file_bytes(
                        self.entries@,
                        table_items(self.by_ext@, order),
                        timestamp,
                    )
                },
            r.1.entry_count == self.entries@.len() as u32,
            r.1.bytes_written == r.0@.len() as u64,
    {
        let es = &self.entries;
        let t = &self.by_ext;
        // Paths.
        let mut paths: Vec<u8> = Vec::new();
        let mut i: usize = 0;
        while i < es.len()
            invariant
                i <= es@.len(),
                paths@ == path_block(es@.subrange(0, i as int)),
            decreases es.len() - i,
        {
            assert(es@.subrange(0, i + 1).drop_last() =~= es@.subrange(0, i as int));
            append_bytes(&mut paths, es[i].path.as_str().as_bytes());
            paths.push(0u8);
            i += 1;
        }
        assert(es@.subrange(0, es@.len() as int) =~= es@);
        // Offsets and kinds.
        let mut meta: Vec<u8> = Vec::new();
        let mut i: usize = 0;
        while i < es.len()
            invariant
                i <= es@.len(),
                meta@ == meta_block(es@.subrange(0, i as int)),
            decreases es.len() - i,
        {
            assert(es@.subrange(0, i + 1).drop_last() =~= es@.subrange(0, i as int));
            push_u16(&mut meta, es[i].name_off);
            push_u16(&mut meta, es[i].ext_off);
            meta.push(if es[i].is_dir { 1u8 } else { 0u8 });
            assert(meta@ =~= meta_block(es@.subrange(0, i + 1)));
            i += 1;
        }
        // Sizes and times.
        let mut times: Vec<u8> = Vec::new();
        let mut i: usize = 0;
        while i < es.len()
            invariant
                i <= es@.len(),
                times@ == times_block(es@.subrange(0, i as int)),
            decreases es.len() - i,
        {
            assert(es@.subrange(0, i + 1).drop_last() =~= es@.subrange(0, i as int));
            push_u64(&mut times, es[i].size);
            push_u64(&mut times, es[i].modified as u64);
            push_u64(&mut times, es[i].created as u64);
            push_u64(&mut times, es[i].accessed as u64);
            assert(times@ =~= times_block(es@.subrange(0, i + 1)));
            i += 1;
        }
        // Extension table, sorted by key.
        let mut keys: Vec<BytesKey> = Vec::new();
        let mut k: usize = 0;
        while k < t.len()
            invariant
                k <= t@.len(),
                keys@.len() == k,
                forall|j: int| 0 <= j < k ==> (#[trigger] keys@[j]).bytes@ == encode_utf8(t@[j].0@),
            decreases t.len() - k,
        {
            let b = vstd::slice::slice_to_vec(t[k].0.as_str().as_bytes());
            keys.push(BytesKey { bytes: b });
            k += 1;
        }
        let order = stable_sort_order(&keys, true);
        let ghost items = table_items(t@, order@);
        let mut ext: Vec<u8> = Vec::new();
        let mut q: usize = 0;
        while q < order.len()
            invariant
                q <= order@.len(),
                is_permutation(order@, t@.len() as int),
                items == table_items(t@, order@),
                ext@ == ext_block(items.subrange(0, q as int)),
            decreases order.len() - q,
        {
            assert(items.subrange(0, q + 1).drop_last() =~= items.subrange(0, q as int));
            let slot = order[q];
            let kb = t[slot].0.as_str().as_bytes();
            let ids = &t[slot].1;
            push_u32(&mut ext, kb.len() as u32);
            append_bytes(&mut ext, kb);
            push_u32(&mut ext, ids.len() as u32);
            let mut j: usize = 0;
            let ghost before = ext@;
            while j < ids.len()
                invariant
                    j <= ids@.len(),
                    ext@ == before + ids_block(ids@.subrange(0, j as int)),
                decreases ids.len() - j,
            {
                assert(ids@.subrange(0, j + 1).drop_last() =~= ids@.subrange(0, j as int));
                push_u32(&mut ext, ids[j]);
                assert(ext@ =~= before + ids_block(ids@.subrange(0, j + 1)));
                j += 1;
            }
            assert(ids@.subrange(0, ids@.len() as int) =~= ids@);
            assert(ext@ =~= ext_block(items.subrange(0, q + 1)));
            q += 1;
        }
        assert(items.subrange(0, order@.len() as int) =~= items);
        // Header after the checksum, then the body.
        let mut back: Vec<u8> = Vec::new();
        push_u32(&mut back, 0);
        push_u64(&mut back, timestamp as u64);
        let mut z: usize = 0;
        let ghost b0 = back@;
        while z < 32
            invariant
                z <= 32,
                back@ == b0 + Seq::new(z as nat, |i: int| 0u8),
            decreases 32 - z,
        {
            back.push(0u8);
            assert(back@ =~= b0 + Seq::new((z + 1) as nat, |i: int| 0u8));
            z += 1;
        }
        push_u64(&mut back, paths.len() as u64);
        append_bytes(&mut back, paths.as_slice());
        append_bytes(&mut back, meta.as_slice());
        append_bytes(&mut back, times.as_slice());
        push_u32(&mut back, order.len() as u32);
        append_bytes(&mut back, ext.as_slice());
        let entry_count = es.len() as u32;
        let mut data: Vec<u8> = vec![78u8, 68u8, 76u8, 49u8];
        push_u32(&mut data, VERSION);
        push_u32(&mut data, entry_count);
        let ghost front = data@;
        assert(front =~= header_front(entry_count));
        let mut summed: Vec<u8> = Vec::new();
        append_bytes(&mut summed, data.as_slice());
        append_bytes(&mut summed, back.as_slice());
        let checksum = fnv1a_64(summed.as_slice());
        push_u64(&mut data, checksum);
        append_bytes(&mut data, back.as_slice());
        proof {
            assert(back@ =~= header_back(timestamp) + file_body(es@, items));
            assert(summed@ =~= front + back@);
            assert(data@ =~= file_bytes(es@, items, timestamp));
            assert(keys_sorted(t@, order@)) by {
                assert forall|i: int, j: int| 0 <= i < j < order@.len() implies !bytes_lt(
                    encode_utf8(#[trigger] t@[order@[j] as int].0@),
                    encode_utf8(#[trigger] t@[order@[i] as int].0@),
                ) by {
                    assert(!keys@[order@[j] as int].key_lt(keys@[order@[i] as int]));
                }
            }
        }
        let n = data.len() as u64;
        (data, SaveStats { entry_count, bytes_written: n })
    }
}

/// Why a file is not a loadable index.
#[derive(Debug, Clone, Copy, PartialEq, Eq)]
pub enum LoadError {
    TooLarge,
    TooShort,
    BadMagic,
    UnsupportedVersion,
    TooManyEntries,
    ChecksumMismatch,
    TruncatedPathSection,
    PathSectionTooLarge,
    PathSectionOverrun,
    InvalidUtf8Path,
    EntryCountMismatch,
    TruncatedMetadata,
    TruncatedExtSection,
    TruncatedExtKey,
    ExtKeyTooLong,
    ExtKeyOverrun,
    InvalidUtf8Ext,
    TruncatedExtValues,
    TooManyExtValues,
    ExtValuesOverrun,
    ExtTableMismatch,
}

pub open spec fn u16_at(d: Seq<u8>, off: int) -> u16 {
    spec_u16_from_le_bytes(d.subrange(off, off + 2))
}

pub open spec fn u32_at(d: Seq<u8>, off: int) -> u32 {
    spec_u32_from_le_bytes(d.subrange(off, off + 4))
}

pub open spec fn u64_at(d: Seq<u8>, off: int) -> u64 {
    spec_u64_from_le_bytes(d.subrange(off, off + 8))
}

/// The bytes the checksum covers: all but bytes 12..20, where it is stored.
pub open spec fn checksum_input(d: Seq<u8>) -> Seq<u8> {
    d.subrange(0, 12) + d.subrange(20, d.len() as int)
}

/// The runs of non-zero bytes of `s`, in order, after a run `cur` in progress: `s` split at its
/// zero bytes, empty pieces dropped.
pub open spec fn pieces_after(s: Seq<u8>, cur: Seq<u8>) -> Seq<Seq<u8>>
    decreases s.len(),
{
    if s.len() == 0 {
        if cur.len() > 0 {
            seq![cur]
        } else {
            Seq::empty()
        }
    } else if s[0] == 0 {
        (if cur.len() > 0 {
            seq![cur]
        } else {
            Seq::empty()
        }) + pieces_after(s.drop_first(), Seq::empty())
    } else {
        pieces_after(s.drop_first(), cur.push(s[0]))
    }
}

pub open spec fn pieces(s: Seq<u8>) -> Seq<Seq<u8>> {
    pieces_after(s, Seq::empty())
}

pub open spec fn entry_count(d: Seq<u8>) -> int {
    u32_at(d, 8) as int
}

pub open spec fn path_len(d: Seq<u8>) -> int {
    (u64_at(d, 64) as usize) as int
}

pub open spec fn path_section(d: Seq<u8>) -> Seq<u8> {
    d.subrange(72, 72 + path_len(d))
}

pub open spec fn meta_start(d: Seq<u8>) -> int {
    72 + path_len(d)
}

pub open spec fn times_start(d: Seq<u8>) -> int {
    meta_start(d) + 5 * entry_count(d)
}

/// The sizes and times are there (older files lack them; they load as zeros).
pub open spec fn has_times(d: Seq<u8>) -> bool {
    times_start(d) + 32 * entry_count(d) <= d.len()
}

pub open spec fn ext_start(d: Seq<u8>) -> int {
    if has_times(d) {
        times_start(d) + 32 * entry_count(d)
    } else {
        times_start(d)
    }
}

/// `c` extension records read from `off` on.
pub open spec fn ext_items(d: Seq<u8>, off: int, c: nat) -> Result<Seq<(Seq<u8>, Seq<u32>)>, LoadError>
    decreases c,
{
    if c == 0 {
        Ok(Seq::empty())
    } else if off + 4 > d.len() {
        Err(LoadError::TruncatedExtKey)
    } else {
        let klen = u32_at(d, off) as int;
        let ko = off + 4;
        if klen > MAX_EXT_KEY_LEN {
            Err(LoadError::ExtKeyTooLong)
        } else if ko + klen > d.len() {
            Err(LoadError::ExtKeyOverrun)
        } else if !valid_utf8(d.subrange(ko, ko + klen)) {
            Err(LoadError::InvalidUtf8Ext)
        } else if ko + klen + 4 > d.len() {
            Err(LoadError::TruncatedExtValues)
        } else {
            let vc = u32_at(d, ko + klen) as int;
            let io = ko + klen + 4;
            if vc > MAX_EXT_VALUE_COUNT {
                Err(LoadError::TooManyExtValues)
            } else if io + 4 * vc > d.len() {
                Err(LoadError::ExtValuesOverrun)
            } else {
                let item = (d.subrange(ko, ko + klen), Seq::new(vc as nat, |j: int| u32_at(d, io + 4 * j)));
                prepend(seq![item], ext_items(d, io + 4 * vc, (c - 1) as nat))
            }
        }
    }
}

pub open spec fn prepend(acc: Seq<(Seq<u8>, Seq<u32>)>, r: Result<Seq<(Seq<u8>, Seq<u32>)>, LoadError>) -> Result<
    Seq<(Seq<u8>, Seq<u32>)>,
    LoadError,
> {
    match r {
        Ok(rest) => Ok(acc + rest),
        Err(e) => Err(e),
    }
}

/// Whether `d` loads, and if so the extension records it holds; the checks come in this order.
pub open spec fn load_outcome(d: Seq<u8>) -> Result<Seq<(Seq<u8>, Seq<u32>)>, LoadError> {
    if d.len() > MAX_INDEX_FILE_SIZE {
        Err(LoadError::TooLarge)
    } else if d.len() < 64 {
        Err(LoadError::TooShort)
    } else if d.subrange(0, 4) != magic() {
        Err(LoadError::BadMagic)
    } else if u32_at(d, 4) != VERSION {
        Err(LoadError::UnsupportedVersion)
    } else if entry_count(d) > MAX_ENTRY_COUNT {
        Err(LoadError::TooManyEntries)
    } else if u64_at(d, 12) != fnv1a_spec(checksum_input(d)) {
        Err(LoadError::ChecksumMismatch)
    } else if 72 > d.len() {
        Err(LoadError::TruncatedPathSection)
    } else if path_len(d) > MAX_PATH_SECTION_LEN {
        Err(LoadError::PathSectionTooLarge)
    } else if 72 + path_len(d) > d.len() {
        Err(LoadError::PathSectionOverrun)
    } else if exists|i: int|
        0 <= i < pieces(path_section(d)).len() && !valid_utf8(#[trigger] pieces(path_section(d))[i]) {
        Err(LoadError::InvalidUtf8Path)
    } else if pieces(path_section(d)).len() != entry_count(d) {
        Err(LoadError::EntryCountMismatch)
    } else if times_start(d) > d.len() {
        Err(LoadError::TruncatedMetadata)
    } else if ext_start(d) + 4 > d.len() {
        Err(LoadError::TruncatedExtSection)
    } else {
        ext_items(d, ext_start(d) + 4, u32_at(d, ext_start(d)) as nat)
    }
}

/// Entry `i` of the index loaded from `d`.
pub open spec fn loaded_entry(e: Entry, d: Seq<u8>, i: int) -> bool {
    let m = meta_start(d) + 5 * i;
    let t = times_start(d) + 32 * i;
    &&& e.path@ == decode_utf8(pieces(path_section(d))[i])
    &&& e.name_off == u16_at(d, m)
    &&& e.ext_off == u16_at(d, m + 2)
    &&& e.is_dir == (d[m + 4] != 0)
    &&& e.size == if has_times(d) { u64_at(d, t) } else { 0 }
    &&& e.modified == if has_times(d) { u64_at(d, t + 8) as i64 } else { 0 }
    &&& e.created == if has_times(d) { u64_at(d, t + 16) as i64 } else { 0 }
    &&& e.accessed == if has_times(d) { u64_at(d, t + 24) as i64 } else { 0 }
}

/// The extension map the records give: a later record for the same extension replaces an
/// earlier one.
pub open spec fn items_map(items: Seq<(Seq<u8>, Seq<u32>)>) -> Map<Seq<char>, Seq<u32>>
    decreases items.len(),
{
    if items.len() == 0 {
        Map::empty()
    } else {
        items_map(items.drop_last()).insert(decode_utf8(items.last().0), items.last().1)
    }
}

/// No extension is listed twice.
pub open spec fn distinct_keys(t: Seq<(String, Vec<u32>)>) -> bool {
    forall|i: int, j: int| 0 <= i < j < t.len() ==> t[i].0@ != t[j].0@
}

/// An extension table read as a map from extension to ids.
pub open spec fn table_map(t: Seq<(String, Vec<u32>)>) -> Map<Seq<char>, Seq<u32>> {
    Map::new(
        |k: Seq<char>| exists|i: int| 0 <= i < t.len() && t[i].0@ == k,
        |k: Seq<char>| t[choose|i: int| 0 <= i < t.len() && t[i].0@ == k].1@,
    )
}

pub(crate) fn read_u16(d: &[u8], off: usize) -> (r: u16)
    requires
        off + 2 <= d@.len(),
    ensures
        r == u16_at(d@, off as int),
{
    let _len = d.len();
    vstd::bytes::u16_from_le_bytes(vstd::slice::slice_subrange(d, off, off + 2))
}

pub(crate) fn read_u32(d: &[u8], off: usize) -> (r: u32)
    requires
        off + 4 <= d@.len(),
    ensures
        r == u32_at(d@, off as int),
{
    let _len = d.len();
    vstd::bytes::u32_from_le_bytes(vstd::slice::slice_subrange(d, off, off + 4))
}

pub(crate) fn read_u64(d: &[u8], off: usize) -> (r: u64)
    requires
        off + 8 <= d@.len(),
    ensures
        r == u64_at(d@, off as int),
{
    let _len = d.len();
    vstd::bytes::u64_from_le_bytes(vstd::slice::slice_subrange(d, off, off + 8))
}

/// The decoded non-empty pieces of `sec` split at zero bytes, or `None` when one of them is not
/// UTF-8.
fn split_paths(sec: &[u8]) -> (r: Option<Vec<String>>)
    ensures
        match r {
            Some(v) => v@.len() == pieces(sec@).len() && forall|i: int|
                0 <= i < v@.len() ==> valid_utf8(#[trigger] pieces(sec@)[i]) && v@[i]@ == decode_utf8(
                    pieces(sec@)[i],
                ),
            None => exists|i: int| 0 <= i < pieces(sec@).len() && !valid_utf8(#[trigger] pieces(sec@)[i]),
        },
{
    let mut out: Vec<String> = Vec::new();
    let ghost mut done: Seq<Seq<u8>> = Seq::empty();
    let mut start: usize = 0;
    let mut i: usize = 0;
    assert(sec@.skip(0) =~= sec@);
    assert(sec@.subrange(0, 0) =~= Seq::<u8>::empty());
    while i < sec.len()
        invariant
            start <= i <= sec@.len(),
            pieces(sec@) == done + pieces_after(sec@.skip(i as int), sec@.subrange(start as int, i as int)),
            out@.len() == done.len(),
            forall|j: int| 0 <= j < done.len() ==> valid_utf8(#[trigger] done[j]) && out@[j]@ == decode_utf8(done[j]),
        decreases sec.len() - i,
    {
        let ghost cur = sec@.subrange(start as int, i as int);
        assert(sec@.skip(i as int).drop_first() =~= sec@.skip(i + 1));
        assert(sec@.skip(i as int)[0] == sec@[i as int]);
        if sec[i] == 0 {
            if start < i {
                let piece = vstd::slice::slice_subrange(sec, start, i);
                match crate::text::utf8_to_string(piece) {
                    Some(st) => {
                        out.push(st);
                        proof {
                            assert(done.push(cur) + pieces_after(sec@.skip(i + 1), Seq::empty()) =~= done + (
                            seq![cur] + pieces_after(sec@.skip(i + 1), Seq::empty())));
                            done = done.push(cur);
                        }
                    },
                    None => {
                        proof {
                            assert(pieces(sec@)[done.len() as int] == cur);
                        }
                        return None;
                    },
                }
            } else {
                assert(Seq::<Seq<u8>>::empty() + pieces_after(sec@.skip(i + 1), Seq::empty()) =~= pieces_after(
                    sec@.skip(i + 1),
                    Seq::empty(),
                ));
            }
            start = i + 1;
            assert(sec@.subrange(start as int, i + 1) =~= Seq::<u8>::empty());
        } else {
            assert(cur.push(sec@[i as int]) =~= sec@.subrange(start as int, i + 1));
        }
        i += 1;
    }
    let ghost cur = sec@.subrange(start as int, i as int);
    if start < i {
        let piece = vstd::slice::slice_subrange(sec, start, i);
        match crate::text::utf8_to_string(piece) {
            Some(st) => {
                out.push(st);
                proof {
                    done = done.push(cur);
                }
            },
            None => {
                proof {
                    assert(pieces(sec@)[done.len() as int] == cur);
                }
                return None;
            },
        }
    } else {
        assert(done + Seq::<Seq<u8>>::empty() =~= done);
    }
    assert(pieces(sec@) =~= done);
    Some(out)
}

/// In a table without repeated keys, each row's key maps to that row's ids.
proof fn lemma_table_map_row(t: Seq<(String, Vec<u32>)>, i: int)
    requires
        distinct_keys(t),
        0 <= i < t.len(),
    ensures
        table_map(t).contains_key(t[i].0@),
        table_map(t)[t[i].0@] == t[i].1@,
{
    let k = t[i].0@;
    assert(table_map(t).dom().contains(k));
    let j = choose|j: int| 0 <= j < t.len() && t[j].0@ == k;
    if j != i {
        if j < i {
            assert(t[j].0@ != t[i].0@);
        } else {
            assert(t[i].0@ != t[j].0@);
        }
    }
}

/// Sets the ids of extension `key` in a table without repeated keys: replaces its list when
/// the key is there, appends it otherwise.
fn table_insert(t: &mut Vec<(String, Vec<u32>)>, key: String, ids: Vec<u32>)
    requires
        distinct_keys(old(t)@),
    ensures
        distinct_keys(final(t)@),
        table_map(final(t)@) == table_map(old(t)@).insert(key@, ids@),
{
    let ghost t0 = t@;
    let ghost k = key@;
    let ghost v = ids@;
    let mut p: usize = 0;
    let mut found = false;
    while p < t.len() && !found
        invariant
            t@ == t0,
            k == key@,
            p <= t0.len(),
            found ==> p < t0.len() && t0[p as int].0@ == k,
            !found ==> forall|j: int| 0 <= j < p ==> t0[j].0@ != k,
        decreases t.len() - p, (if found { 0int } else { 1int }),
    {
        if crate::text::str_eq(t[p].0.as_str(), key.as_str()) {
            found = true;
        } else {
            p += 1;
        }
    }
    if found {
        t.set(p, (key, ids));
    } else {
        t.push((key, ids));
    }
    proof {
        let t1 = t@;
        let q = if found { p as int } else { t0.len() as int };
        assert(t1[q].0@ == k && t1[q].1@ == v);
        assert forall|i: int, j: int| 0 <= i < j < t1.len() implies t1[i].0@ != t1[j].0@ by {
            if i != q && j != q {
                assert(t1[i] == t0[i] && t1[j] == t0[j]);
            } else if i == q {
                assert(t1[j] == t0[j]);
            } else {
                assert(t1[i] == t0[i]);
            }
        }
        assert forall|k2: Seq<char>| #[trigger] table_map(t1).contains_key(k2) <==> table_map(t0).insert(k, v).contains_key(k2) by {
            if table_map(t1).contains_key(k2) {
                let i = choose|i: int| 0 <= i < t1.len() && t1[i].0@ == k2;
                if i != q {
                    assert(t1[i] == t0[i]);
                    assert(table_map(t0).dom().contains(k2));
                }
            }
            if table_map(t0).contains_key(k2) && k2 != k {
                let i = choose|i: int| 0 <= i < t0.len() && t0[i].0@ == k2;
                assert(i != q);
                assert(t1[i] == t0[i]);
                assert(table_map(t1).dom().contains(k2));
            }
            if k2 == k {
                assert(table_map(t1).dom().contains(k2));
            }
        }
        assert forall|k2: Seq<char>| #[trigger] table_map(t1).contains_key(k2) implies table_map(t1)[k2] == table_map(t0).insert(k, v)[k2] by {
            let i = choose|i: int| 0 <= i < t1.len() && t1[i].0@ == k2;
            lemma_table_map_row(t1, i);
            if i != q {
                assert(t1[i] == t0[i]);
                lemma_table_map_row(t0, i);
            }
        }
        assert(table_map(t1) =~= table_map(t0).insert(k, v));
    }
}

/// `idx` is the index read from the file bytes `d`: the file passed every check, entry `i` is
/// the `i`-th entry of the file, the extension table holds the file's records, and the path
/// map and posting lists are rebuilt from the entries. Where the file's extension records agree
/// with its entries, the index is well formed.
pub open spec fn loaded_index(idx: Index, d: Seq<u8>) -> bool {
    &&& load_outcome(d) is Ok
    &&& idx.entries@.len() == entry_count(d)
    &&& forall|i: int| 0 <= i < idx.entries@.len() ==> loaded_entry(#[trigger] idx.entries@[i], d, i)
    &&& distinct_keys(idx.by_ext@)
    &&& table_map(idx.by_ext@) == items_map(load_outcome(d)->Ok_0)
    &&& idx.path_to_id@ == path_map_of(idx.entries@)
    &&& path_map_sound(idx.path_to_id@, idx.entries@)
    &&& postings_sound(idx.trigrams@, idx.entries@.len() as int, tri_rel(idx.entries@))
    &&& postings_sound(idx.prefix_first_byte@, idx.entries@.len() as int, first_rel(idx.entries@))
    &&& ext_table_sound(idx.by_ext@, idx.entries@) ==> idx.wf()
}

impl Index {
    /// Reads an index from the bytes of an index file. Every check of the format comes in the
    /// order `load_outcome` gives; the path map, trigram lists and first-byte lists are rebuilt
    /// from the entries, and the extension table is taken from the file.
    pub fn load(data: &[u8]) -> (r: Result<Index, LoadError>)
        ensures
            match r {
                Ok(idx) => loaded_index(idx, data@),
                Err(e) => load_outcome(data@) == Err::<Seq<(Seq<u8>, Seq<u32>)>, LoadError>(e),
            },
    {
        let ghost d = data@;
        let len = data.len();
        if len > MAX_INDEX_FILE_SIZE {
            return Err(LoadError::TooLarge);
        }
        if len < 64 {
            return Err(LoadError::TooShort);
        }
        if !(data[0] == 78u8 && data[1] == 68u8 && data[2] == 76u8 && data[3] == 49u8) {
            proof {
                if d.subrange(0, 4) == magic() {
                    assert(d.subrange(0, 4)[0] == 78u8 && d.subrange(0, 4)[1] == 68u8);
                    assert(d.subrange(0, 4)[2] == 76u8 && d.subrange(0, 4)[3] == 49u8);
                }
            }
            return Err(LoadError::BadMagic);
        }
        assert(d.subrange(0, 4) =~= magic());
        if read_u32(data, 4) != VERSION {
            return Err(LoadError::UnsupportedVersion);
        }
        let n = read_u32(data, 8) as usize;
        if n > MAX_ENTRY_COUNT {
            return Err(LoadError::TooManyEntries);
        }
        let stored = read_u64(data, 12);
        let mut summed: Vec<u8> = Vec::new();
        append_bytes(&mut summed, vstd::slice::slice_subrange(data, 0, 12));
        append_bytes(&mut summed, vstd::slice::slice_subrange(data, 20, len));
        if stored != fnv1a_64(summed.as_slice()) {
            return Err(LoadError::ChecksumMismatch);
        }
        if 72 > len {
            return Err(LoadError::TruncatedPathSection);
        }
        let plen = read_u64(data, 64) as usize;
        if plen > MAX_PATH_SECTION_LEN {
            return Err(LoadError::PathSectionTooLarge);
        }
        if 72 + plen > len {
            return Err(LoadError::PathSectionOverrun);
        }
        let paths = match split_paths(vstd::slice::slice_subrange(data, 72, 72 + plen)) {
            Some(v) => v,
            None => {
                return Err(LoadError::InvalidUtf8Path);
            },
        };
        if paths.len() != n {
            return Err(LoadError::EntryCountMismatch);
        }
        let m1 = 72 + plen;
        if m1 + 5 * n > len {
            return Err(LoadError::TruncatedMetadata);
        }
        let m2 = m1 + 5 * n;
        let with_times = m2 + 32 * n <= len;
        let mut entries: Vec<Entry> = Vec::new();
        let mut i: usize = 0;
        while i < n
            invariant
                d == data@,
                len == d.len(),
                n == entry_count(d) <= MAX_ENTRY_COUNT,
                m1 == meta_start(d),
                m2 == times_start(d) <= d.len(),
                with_times == has_times(d),
                paths@.len() == n,
                forall|j: int|
                    0 <= j < n ==> #[trigger] paths@[j]@ == decode_utf8(pieces(path_section(d))[j]),
                i <= n,
                entries@.len() == i,
                forall|j: int| 0 <= j < i ==> loaded_entry(#[trigger] entries@[j], d, j),
            decreases n - i,
        {
            let mo = m1 + 5 * i;
            let name_off = read_u16(data, mo);
            let ext_off = read_u16(data, mo + 2);
            let is_dir = data[mo + 4] != 0;
            let mut size: u64 = 0;
            let mut modified: i64 = 0;
            let mut created: i64 = 0;
            let mut accessed: i64 = 0;
            if with_times {
                let to = m2 + 32 * i;
                size = read_u64(data, to);
                modified = read_u64(data, to + 8) as i64;
                created = read_u64(data, to + 16) as i64;
                accessed = read_u64(data, to + 24) as i64;
            }
            entries.push(
                Entry {
                    path: paths[i].clone(),
                    name_off,
                    ext_off,
                    is_dir,
                    size,
                    modified,
                    created,
                    accessed,
                },
            );
            i += 1;
        }
        let eo = if with_times {
            m2 + 32 * n
        } else {
            m2
        };
        if eo + 4 > len {
            return Err(LoadError::TruncatedExtSection);
        }
        let count = read_u32(data, eo);
        let ghost first = eo + 4;
        let mut off = eo + 4;
        let mut table: Vec<(String, Vec<u32>)> = Vec::new();
        let ghost mut acc: Seq<(Seq<u8>, Seq<u32>)> = Seq::empty();
        let mut c: u32 = 0;
        proof {
            assert(load_outcome(d) == ext_items(d, first, count as nat));
            assert(prepend(acc, ext_items(d, off as int, count as nat)) == ext_items(d, first, count as nat)) by {
                match ext_items(d, off as int, count as nat) {
                    Ok(rest) => {
                        assert(acc + rest =~= rest);
                    },
                    Err(e) => {},
                }
            }
            assert(table_map(table@) =~= items_map(acc));
        }
        while c < count
            invariant
                d == data@,
                len == d.len(),
                load_outcome(d) == ext_items(d, first, count as nat),
                c <= count,
                off <= len,
                ext_items(d, first, count as nat) == prepend(acc, ext_items(d, off as int, (count - c) as nat)),
                distinct_keys(table@),
                table_map(table@) == items_map(acc),
            decreases count - c,
        {
            let ghost rem = (count - c) as nat;
            if off + 4 > len {
                return Err(LoadError::TruncatedExtKey);
            }
            let klen = read_u32(data, off) as usize;
            let ko = off + 4;
            if klen > MAX_EXT_KEY_LEN {
                return Err(LoadError::ExtKeyTooLong);
            }
            if ko + klen > len {
                return Err(LoadError::ExtKeyOverrun);
            }
            let key = match crate::text::utf8_to_string(vstd::slice::slice_subrange(data, ko, ko + klen)) {
                Some(k) => k,
                None => {
                    return Err(LoadError::InvalidUtf8Ext);
                },
            };
            let vo = ko + klen;
            if vo + 4 > len {
                return Err(LoadError::TruncatedExtValues);
            }
            let vc = read_u32(data, vo) as usize;
            let io = vo + 4;
            if vc > MAX_EXT_VALUE_COUNT {
                return Err(LoadError::TooManyExtValues);
            }
            if io + 4 * vc > len {
                return Err(LoadError::ExtValuesOverrun);
            }
            let mut ids: Vec<u32> = Vec::new();
            let mut j: usize = 0;
            while j < vc
                invariant
                    d == data@,
                    len == d.len(),
                    io + 4 * vc <= len,
                    j <= vc,
                    ids@.len() == j,
                    forall|q: int| 0 <= q < j ==> ids@[q] == u32_at(d, io + 4 * q),
                decreases vc - j,
            {
                ids.push(read_u32(data, io + 4 * j));
                j += 1;
            }
            let ghost item = (d.subrange(ko as int, ko + klen), ids@);
            proof {
                assert(ids@ =~= Seq::new(vc as nat, |q: int| u32_at(d, io + 4 * q)));
                assert(ext_items(d, off as int, rem) == prepend(seq![item], ext_items(d, io + 4 * vc, (rem - 1) as nat)));
                match ext_items(d, io + 4 * vc, (rem - 1) as nat) {
                    Ok(rest) => {
                        assert(acc + (seq![item] + rest) =~= acc.push(item) + rest);
                    },
                    Err(e) => {},
                }
                assert(acc.push(item).drop_last() =~= acc);
            }
            table_insert(&mut table, key, ids);
            proof {
                acc = acc.push(item);
            }
            off = io + 4 * vc;
            c += 1;
        }
        proof {
            assert(acc + Seq::<(Seq<u8>, Seq<u32>)>::empty() =~= acc);
        }
        Ok(Index::from_parts(entries, table))
    }
}

proof fn lemma_flat_append<A>(a: Seq<A>, b: Seq<A>, f: spec_fn(A) -> Seq<u8>)
    ensures
        flat(a + b, f) == flat(a, f) + flat(b, f),
    decreases b.len(),
{
    if b.len() == 0 {
        assert(a + b =~= a);
        assert(flat(a, f) + flat(b, f) =~= flat(a, f));
    } else {
        assert((a + b).drop_last() =~= a + b.drop_last());
        assert((a + b).last() == b.last());
        lemma_flat_append(a, b.drop_last(), f);
        assert(flat(a, f) + flat(b.drop_last(), f) + f(b.last()) =~= flat(a, f) + (flat(
            b.drop_last(),
            f,
        ) + f(b.last())));
    }
}

proof fn lemma_flat_first<A>(s: Seq<A>, f: spec_fn(A) -> Seq<u8>)
    requires
        s.len() > 0,
    ensures
        flat(s, f) == f(s[0]) + flat(s.drop_first(), f),
{
    assert(s =~= seq![s[0]] + s.drop_first());
    lemma_flat_append(seq![s[0]], s.drop_first(), f);
    assert(seq![s[0]].drop_last() =~= Seq::<A>::empty());
    assert(flat(seq![s[0]].drop_last(), f) =~= Seq::<u8>::empty());
    assert(flat(seq![s[0]], f) =~= f(s[0]));
}

/// With pieces all `w` bytes long, piece `i` sits at `w * i`.
proof fn lemma_flat_fixed<A>(s: Seq<A>, f: spec_fn(A) -> Seq<u8>, w: int)
    requires
        w >= 0,
        forall|x: A| #[trigger] f(x).len() == w,
    ensures
        flat(s, f).len() == w * s.len(),
        forall|i: int| 0 <= i < s.len() ==> flat(s, f).subrange(w * i, w * i + w) == f(#[trigger] s[i]),
    decreases s.len(),
{
    if s.len() > 0 {
        let n = s.len() as int;
        lemma_flat_fixed(s.drop_last(), f, w);
        assert(w * (n - 1) + w == w * n) by (nonlinear_arith);
        let whole = flat(s, f);
        let init = flat(s.drop_last(), f);
        assert forall|i: int| 0 <= i < s.len() implies whole.subrange(w * i, w * i + w) == f(#[trigger] s[i]) by {
            if i < n - 1 {
                assert(w * i + w <= w * (n - 1)) by (nonlinear_arith)
                    requires
                        i < n - 1,
                        w >= 0,
                ;
                assert(w * i >= 0) by (nonlinear_arith)
                    requires
                        i >= 0,
                        w >= 0,
                ;
                assert(whole.subrange(w * i, w * i + w) =~= init.subrange(w * i, w * i + w));
                assert(s.drop_last()[i] == s[i]);
            } else {
                assert(whole.subrange(w * i, w * i + w) =~= f(s.last()));
            }
        }
    }
}

/// Bytes that are not zero join the run in progress.
proof fn lemma_pieces_nonzero(p: Seq<u8>, s: Seq<u8>, cur: Seq<u8>)
    requires
        forall|i: int| 0 <= i < p.len() ==> p[i] != 0,
    ensures
        pieces_after(p + s, cur) == pieces_after(s, cur + p),
    decreases p.len(),
{
    if p.len() == 0 {
        assert(p + s =~= s);
        assert(cur + p =~= cur);
    } else {
        assert((p + s)[0] == p[0]);
        assert((p + s).drop_first() =~= p.drop_first() + s);
        lemma_pieces_nonzero(p.drop_first(), s, cur.push(p[0]));
        assert(cur.push(p[0]) + p.drop_first() =~= cur + p);
    }
}

/// The path of a saved entry: not empty, no zero byte.
pub open spec fn storable_path(e: Entry) -> bool {
    &&& path_bytes(e).len() > 0
    &&& forall|i: int| 0 <= i < path_bytes(e).len() ==> path_bytes(e)[i] != 0
}

/// Splitting the path block at zero bytes gives back each path.
proof fn lemma_pieces_of_paths(es: Seq<Entry>)
    requires
        forall|i: int| 0 <= i < es.len() ==> storable_path(#[trigger] es[i]),
    ensures
        pieces(path_block(es)) == Seq::new(es.len(), |i: int| path_bytes(es[i])),
    decreases es.len(),
{
    let f = |e: Entry| path_bytes(e).push(0u8);
    if es.len() == 0 {
        assert(pieces(path_block(es)) =~= Seq::new(es.len(), |i: int| path_bytes(es[i])));
    } else {
        let p0 = path_bytes(es[0]);
        let rest = es.drop_first();
        assert forall|i: int| 0 <= i < rest.len() implies storable_path(#[trigger] rest[i]) by {
            assert(rest[i] == es[i + 1]);
        }
        lemma_pieces_of_paths(rest);
        lemma_flat_first(es, f);
        assert(storable_path(es[0]));
        let tail = path_block(rest);
        assert(p0.push(0u8) + tail =~= p0 + (seq![0u8] + tail));
        lemma_pieces_nonzero(p0, seq![0u8] + tail, Seq::empty());
        assert(Seq::<u8>::empty() + p0 =~= p0);
        assert((seq![0u8] + tail)[0] == 0u8);
        assert((seq![0u8] + tail).drop_first() =~= tail);
        assert(pieces(path_block(es)) =~= Seq::new(es.len(), |i: int| path_bytes(es[i])));
    }
}

/// The extension records that saving writes: keys of at most 1024 valid UTF-8 bytes, at most
/// ten million ids each.
pub open spec fn storable_items(items: Seq<(Seq<u8>, Seq<u32>)>) -> bool {
    forall|i: int|
        0 <= i < items.len() ==> {
            &&& valid_utf8((#[trigger] items[i]).0)
            &&& items[i].0.len() <= MAX_EXT_KEY_LEN
            &&& items[i].1.len() <= MAX_EXT_VALUE_COUNT
        }
}

pub(crate) proof fn lemma_le_roundtrips()
    ensures
        forall|x: u16| #[trigger] le16(x).len() == 2 && spec_u16_from_le_bytes(le16(x)) == x,
        forall|x: u32| #[trigger] le32(x).len() == 4 && spec_u32_from_le_bytes(le32(x)) == x,
        forall|x: u64| #[trigger] le64(x).len() == 8 && spec_u64_from_le_bytes(le64(x)) == x,
{
    vstd::bytes::lemma_auto_spec_u16_to_from_le_bytes();
    vstd::bytes::lemma_auto_spec_u32_to_from_le_bytes();
    vstd::bytes::lemma_auto_spec_u64_to_from_le_bytes();
    assert forall|x: u16| #[trigger] le16(x).len() == 2 && spec_u16_from_le_bytes(le16(x)) == x by {
        assert(spec_u16_to_le_bytes(x).len() == 2);
    }
    assert forall|x: u32| #[trigger] le32(x).len() == 4 && spec_u32_from_le_bytes(le32(x)) == x by {
        assert(spec_u32_to_le_bytes(x).len() == 4);
    }
    assert forall|x: u64| #[trigger] le64(x).len() == 8 && spec_u64_from_le_bytes(le64(x)) == x by {
        assert(spec_u64_to_le_bytes(x).len() == 8);
    }
}

/// A window of `d` over a block written at `off` is the same window of the block.
pub(crate) proof fn lemma_window(d: Seq<u8>, off: int, blk: Seq<u8>, a: int, b: int)
    requires
        0 <= off,
        off + blk.len() <= d.len(),
        d.subrange(off, off + blk.len()) == blk,
        0 <= a <= b <= blk.len(),
    ensures
        d.subrange(off + a, off + b) == blk.subrange(a, b),
{
    assert forall|j: int| 0 <= j < b - a implies d.subrange(off + a, off + b)[j] == blk.subrange(a, b)[j] by {
        assert(d.subrange(off, off + blk.len())[a + j] == blk[a + j]);
    }
    assert(d.subrange(off + a, off + b) =~= blk.subrange(a, b));
}

/// Reading the extension records back from where they were written gives them back.
proof fn lemma_ext_items_read(d: Seq<u8>, off: int, items: Seq<(Seq<u8>, Seq<u32>)>)
    requires
        0 <= off,
        off + ext_block(items).len() <= d.len(),
        d.subrange(off, off + ext_block(items).len()) == ext_block(items),
        storable_items(items),
    ensures
        ext_items(d, off, items.len()) == Ok::<Seq<(Seq<u8>, Seq<u32>)>, LoadError>(items),
    decreases items.len(),
{
    let f = |it: (Seq<u8>, Seq<u32>)| ext_record(it.0, it.1);
    if items.len() == 0 {
        assert(items =~= Seq::<(Seq<u8>, Seq<u32>)>::empty());
    } else {
        lemma_le_roundtrips();
        let key = items[0].0;
        let ids = items[0].1;
        assert(storable_items(items) ==> valid_utf8(items[0].0) && items[0].0.len() <= MAX_EXT_KEY_LEN && items[0].1.len() <= MAX_EXT_VALUE_COUNT);
        let rest = items.drop_first();
        lemma_flat_first(items, f);
        let rec = ext_record(key, ids);
        let blk = ext_block(items);
        let g = |x: u32| le32(x);
        lemma_flat_fixed(ids, g, 4);
        let klen = key.len() as int;
        let vc = ids.len() as int;
        assert(rec.len() == 4 + klen + 4 + 4 * vc);
        lemma_window(d, off, blk, 0, 4);
        assert(blk.subrange(0, 4) =~= le32(key.len() as u32));
        assert(u32_at(d, off) as int == klen);
        let ko = off + 4;
        lemma_window(d, off, blk, 4, 4 + klen);
        assert(blk.subrange(4, 4 + klen) =~= key);
        lemma_window(d, off, blk, 4 + klen, 8 + klen);
        assert(blk.subrange(4 + klen, 8 + klen) =~= le32(ids.len() as u32));
        assert(u32_at(d, ko + klen) as int == vc);
        let io = ko + klen + 4;
        assert forall|j: int| 0 <= j < vc implies u32_at(d, io + 4 * j) == ids[j] by {
            lemma_window(d, off, blk, 8 + klen + 4 * j, 8 + klen + 4 * j + 4);
            assert(blk.subrange(8 + klen + 4 * j, 8 + klen + 4 * j + 4) =~= ids_block(ids).subrange(4 * j, 4 * j + 4));
            assert(ids_block(ids).subrange(4 * j, 4 * j + 4) == g(ids[j]));
        }
        assert(Seq::new(vc as nat, |j: int| u32_at(d, io + 4 * j)) =~= ids);
        assert forall|i: int| 0 <= i < rest.len() implies {
            &&& valid_utf8((#[trigger] rest[i]).0)
            &&& rest[i].0.len() <= MAX_EXT_KEY_LEN
            &&& rest[i].1.len() <= MAX_EXT_VALUE_COUNT
        } by {
            assert(rest[i] == items[i + 1]);
        }
        let noff = io + 4 * vc;
        lemma_window(d, off, blk, rec.len() as int, blk.len() as int);
        assert(blk.subrange(rec.len() as int, blk.len() as int) =~= ext_block(rest));
        lemma_ext_items_read(d, noff, rest);
        assert(rest.len() == (items.len() - 1) as nat);
        assert(valid_utf8(d.subrange(ko, ko + klen)));
        assert(klen <= MAX_EXT_KEY_LEN);
        assert(vc <= MAX_EXT_VALUE_COUNT);
        assert(io + 4 * vc <= d.len());
        let item = (d.subrange(ko, ko + klen), Seq::new(vc as nat, |j: int| u32_at(d, io + 4 * j)));
        assert(item == (key, ids));
        assert(ext_items(d, off, items.len()) == prepend(seq![item], ext_items(d, noff, rest.len())));
        assert(seq![(key, ids)] + rest =~= items);
    }
}

/// Where each part of a saved file lies.
#[verifier::rlimit(60)]
proof fn lemma_file_layout(es: Seq<Entry>, items: Seq<(Seq<u8>, Seq<u32>)>, timestamp: i64)
    ensures
        ({
            let d = file_bytes(es, items, timestamp);
            let n = es.len() as int;
            let big_p = path_block(es).len() as int;
            let ms = 72 + big_p;
            let ts = ms + 5 * n;
            let xs = ts + 32 * n;
            let front = header_front(es.len() as u32);
            let back = header_back(timestamp) + file_body(es, items);
            &&& d.len() == xs + 4 + ext_block(items).len()
            &&& d.subrange(0, 12) == front
            &&& d.subrange(12, 20) == le64(fnv1a_spec(front + back))
            &&& d.subrange(20, d.len() as int) == back
            &&& d.subrange(64, 72) == le64(big_p as u64)
            &&& d.subrange(72, ms) == path_block(es)
            &&& d.subrange(ms, ts) == meta_block(es)
            &&& d.subrange(ts, xs) == times_block(es)
            &&& d.subrange(xs, xs + 4) == le32(items.len() as u32)
            &&& d.subrange(xs + 4, d.len() as int) == ext_block(items)
        }),
{
    lemma_le_roundtrips();
    let n = es.len() as int;
    lemma_flat_fixed(es, |e: Entry| meta_bytes(e), 5);
    lemma_flat_fixed(es, |e: Entry| times_bytes(e), 32);
    let front = header_front(es.len() as u32);
    let hb = header_back(timestamp);
    let body = file_body(es, items);
    let back = hb + body;
    let ck = le64(fnv1a_spec(front + back));
    let d = file_bytes(es, items, timestamp);
    assert(front.len() == 12);
    assert(hb.len() == 44);
    assert(d =~= front + ck + back);
    assert(d.subrange(0, 12) =~= front);
    assert(d.subrange(12, 20) =~= ck);
    assert(d.subrange(20, d.len() as int) =~= back);
    let lp = le64(path_block(es).len() as u64);
    let pb = path_block(es);
    let mb = meta_block(es);
    let tb = times_block(es);
    let lc = le32(items.len() as u32);
    let eb = ext_block(items);
    assert(body =~= lp + (pb + (mb + (tb + (lc + eb)))));
    lemma_window(d, 20, back, 44, back.len() as int);
    assert(back.subrange(44, back.len() as int) =~= body);
    let big_p = pb.len() as int;
    let ms = 72 + big_p;
    let ts = ms + 5 * n;
    let xs = ts + 32 * n;
    lemma_window(d, 64, body, 0, 8);
    assert(body.subrange(0, 8) =~= lp);
    lemma_window(d, 64, body, 8, 8 + big_p);
    assert(body.subrange(8, 8 + big_p) =~= pb);
    lemma_window(d, 64, body, 8 + big_p, 8 + big_p + 5 * n);
    assert(body.subrange(8 + big_p, 8 + big_p + 5 * n) =~= mb);
    lemma_window(d, 64, body, 8 + big_p + 5 * n, 8 + big_p + 37 * n);
    assert(body.subrange(8 + big_p + 5 * n, 8 + big_p + 37 * n) =~= tb);
    lemma_window(d, 64, body, 8 + big_p + 37 * n, 12 + big_p + 37 * n);
    assert(body.subrange(8 + big_p + 37 * n, 12 + big_p + 37 * n) =~= lc);
    lemma_window(d, 64, body, 12 + big_p + 37 * n, body.len() as int);
    assert(body.subrange(12 + big_p + 37 * n, body.len() as int) =~= eb);
}

/// Each entry of a saved file reads back as saved.
proof fn lemma_entries_read(d: Seq<u8>, es: Seq<Entry>)
    requires
        forall|i: int| 0 <= i < es.len() ==> storable_path(#[trigger] es[i]),
        entry_count(d) == es.len(),
        pieces(path_section(d)) == Seq::new(es.len(), |i: int| path_bytes(es[i])),
        meta_start(d) >= 0,
        has_times(d),
        d.subrange(meta_start(d), times_start(d)) == meta_block(es),
        d.subrange(times_start(d), times_start(d) + 32 * es.len()) == times_block(es),
    ensures
        forall|i: int| 0 <= i < es.len() ==> loaded_entry(#[trigger] es[i], d, i),
{
    lemma_le_roundtrips();
    let n = es.len() as int;
    let ms = meta_start(d);
    let ts = times_start(d);
    let mb = meta_block(es);
    let tb = times_block(es);
    lemma_flat_fixed(es, |e: Entry| meta_bytes(e), 5);
    lemma_flat_fixed(es, |e: Entry| times_bytes(e), 32);
    assert forall|i: int| 0 <= i < n implies loaded_entry(#[trigger] es[i], d, i) by {
        let e = es[i];
        assert(pieces(path_section(d))[i] == path_bytes(e));
        encode_utf8_decode_utf8(e.path@);
        let m = ms + 5 * i;
        lemma_window(d, ms, mb, 5 * i, 5 * i + 5);
        assert(mb.subrange(5 * i, 5 * i + 5) == meta_bytes(e));
        lemma_window(d, m, meta_bytes(e), 0, 2);
        assert(meta_bytes(e).subrange(0, 2) =~= le16(e.name_off));
        lemma_window(d, m, meta_bytes(e), 2, 4);
        assert(meta_bytes(e).subrange(2, 4) =~= le16(e.ext_off));
        assert(d.subrange(m, m + 5)[4] == meta_bytes(e)[4]);
        let t = ts + 32 * i;
        lemma_window(d, ts, tb, 32 * i, 32 * i + 32);
        assert(tb.subrange(32 * i, 32 * i + 32) == times_bytes(e));
        let tm = times_bytes(e);
        lemma_window(d, t, tm, 0, 8);
        assert(tm.subrange(0, 8) =~= le64(e.size));
        lemma_window(d, t, tm, 8, 16);
        assert(tm.subrange(8, 16) =~= le64(e.modified as u64));
        lemma_window(d, t, tm, 16, 24);
        assert(tm.subrange(16, 24) =~= le64(e.created as u64));
        lemma_window(d, t, tm, 24, 32);
        assert(tm.subrange(24, 32) =~= le64(e.accessed as u64));
        let (a, b, c) = (e.modified, e.created, e.accessed);
        assert((a as u64) as i64 == a && (b as u64) as i64 == b && (c as u64) as i64 == c) by (bit_vector);
    }
}

/// What saving writes, loading reads back: a file written from entries with storable paths
/// and storable extension records, within the format's limits, loads with those records and
/// entry `i` of the loaded index equal to entry `i` that was saved.
pub proof fn law_saved_file_loads(es: Seq<Entry>, items: Seq<(Seq<u8>, Seq<u32>)>, timestamp: i64)
    requires
        es.len() <= MAX_ENTRY_COUNT,
        forall|i: int| 0 <= i < es.len() ==> storable_path(#[trigger] es[i]),
        path_block(es).len() <= MAX_PATH_SECTION_LEN,
        storable_items(items),
        items.len() <= u32::MAX,
        file_bytes(es, items, timestamp).len() <= MAX_INDEX_FILE_SIZE,
    ensures
        load_outcome(file_bytes(es, items, timestamp)) == Ok::<Seq<(Seq<u8>, Seq<u32>)>, LoadError>(items),
        entry_count(file_bytes(es, items, timestamp)) == es.len(),
        forall|i: int| 0 <= i < es.len() ==> loaded_entry(#[trigger] es[i], file_bytes(es, items, timestamp), i),
{
    lemma_le_roundtrips();
    lemma_file_layout(es, items, timestamp);
    let n = es.len() as int;
    let d = file_bytes(es, items, timestamp);
    let front = header_front(es.len() as u32);
    let back = header_back(timestamp) + file_body(es, items);
    let big_p = path_block(es).len() as int;
    let xs = 72 + big_p + 37 * n;
    // Header.
    lemma_window(d, 0, front, 0, 4);
    assert(front.subrange(0, 4) =~= magic());
    lemma_window(d, 0, front, 4, 8);
    assert(front.subrange(4, 8) =~= le32(VERSION));
    lemma_window(d, 0, front, 8, 12);
    assert(front.subrange(8, 12) =~= le32(es.len() as u32));
    assert(entry_count(d) == n);
    assert(checksum_input(d) =~= front + back);
    // Paths.
    assert(path_len(d) == big_p);
    lemma_pieces_of_paths(es);
    let ps = pieces(path_section(d));
    assert forall|i: int| 0 <= i < ps.len() implies valid_utf8(#[trigger] ps[i]) by {
        assert(ps[i] == path_bytes(es[i]));
        encode_utf8_valid_utf8(es[i].path@);
    }
    // Sizes and times present; the extension records.
    assert(times_start(d) == 72 + big_p + 5 * n);
    assert(has_times(d));
    assert(ext_start(d) == xs);
    assert(u32_at(d, xs) as int == items.len());
    lemma_window(d, xs + 4, ext_block(items), 0, ext_block(items).len() as int);
    assert(d.subrange(xs + 4, xs + 4 + ext_block(items).len()) =~= ext_block(items));
    lemma_ext_items_read(d, xs + 4, items);
    lemma_entries_read(d, es);
}

proof fn lemma_items_prefix(t: Seq<(String, Vec<u32>)>, o: Seq<usize>, k: int)
    requires
        distinct_keys(t),
        is_permutation(o, t.len() as int),
        0 <= k <= o.len(),
    ensures
        forall|key: Seq<char>|
            #[trigger] items_map(table_items(t, o.subrange(0, k))).contains_key(key) <==> exists|j: int|
                0 <= j < k && t[o[j] as int].0@ == key,
        forall|j: int|
            0 <= j < k ==> items_map(table_items(t, o.subrange(0, k)))[#[trigger] t[o[j] as int].0@]
                == t[o[j] as int].1@,
    decreases k,
{
    let m = items_map(table_items(t, o.subrange(0, k)));
    if k > 0 {
        lemma_items_prefix(t, o, k - 1);
        let prev = items_map(table_items(t, o.subrange(0, k - 1)));
        assert(table_items(t, o.subrange(0, k)).drop_last() =~= table_items(t, o.subrange(0, k - 1)));
        let last = t[o[k - 1] as int];
        encode_utf8_decode_utf8(last.0@);
        assert(m == prev.insert(last.0@, last.1@));
        assert forall|key: Seq<char>| #[trigger] m.contains_key(key) <==> exists|j: int|
            0 <= j < k && t[o[j] as int].0@ == key by {
            if key == last.0@ {
                assert(t[o[k - 1] as int].0@ == key);
            }
            if exists|j: int| 0 <= j < k && t[o[j] as int].0@ == key {
                let j = choose|j: int| 0 <= j < k && t[o[j] as int].0@ == key;
                if j < k - 1 {
                    assert(prev.contains_key(key));
                }
            }
        }
        assert forall|j: int| 0 <= j < k implies m[#[trigger] t[o[j] as int].0@] == t[o[j] as int].1@ by {
            if j < k - 1 {
                assert(o[j] != o[k - 1]);
                if (o[j] as int) < (o[k - 1] as int) {
                    assert(t[o[j] as int].0@ != t[o[k - 1] as int].0@);
                } else {
                    assert(t[o[k - 1] as int].0@ != t[o[j] as int].0@);
                }
            }
        }
    } else {
        assert(table_items(t, o.subrange(0, k)).len() == 0);
    }
}

/// Reading back the extension records of a table, in any order, gives the table's map.
proof fn lemma_items_of_table(t: Seq<(String, Vec<u32>)>, o: Seq<usize>)
    requires
        distinct_keys(t),
        is_permutation(o, t.len() as int),
    ensures
        items_map(table_items(t, o)) == table_map(t),
{
    let n = t.len() as int;
    lemma_items_prefix(t, o, n);
    assert(o.subrange(0, n) =~= o);
    let m = items_map(table_items(t, o));
    assert forall|key: Seq<char>| #[trigger] m.contains_key(key) <==> table_map(t).contains_key(key) by {
        if table_map(t).contains_key(key) {
            let i = choose|i: int| 0 <= i < t.len() && t[i].0@ == key;
            assert(holds_position(o, i));
            let j = choose|j: int| 0 <= j < o.len() && o[j] == i;
            assert(t[o[j] as int].0@ == key);
        }
        if m.contains_key(key) {
            let j = choose|j: int| 0 <= j < n && t[o[j] as int].0@ == key;
            assert(table_map(t).dom().contains(key));
        }
    }
    assert forall|key: Seq<char>| #[trigger] m.contains_key(key) implies m[key] == table_map(t)[key] by {
        let j = choose|j: int| 0 <= j < n && t[o[j] as int].0@ == key;
        lemma_table_map_row(t, o[j] as int);
    }
    assert(m =~= table_map(t));
}

/// Saving an index and loading the file back gives its entries and its extension table: for a
/// well-formed index whose paths are storable and whose file keeps within the format's limits,
/// the saved file loads, entry `i` reads back as entry `i`, and the records read back form the
/// same extension map.
pub proof fn law_index_saved_and_loaded(idx: Index, order: Seq<usize>, timestamp: i64)
    requires
        idx.wf(),
        is_permutation(order, idx.by_ext@.len() as int),
        idx.entries@.len() <= MAX_ENTRY_COUNT,
        forall|i: int| 0 <= i < idx.entries@.len() ==> storable_path(#[trigger] idx.entries@[i]),
        path_block(idx.entries@).len() <= MAX_PATH_SECTION_LEN,
        forall|i: int|
            0 <= i < idx.by_ext@.len() ==> encode_utf8((#[trigger] idx.by_ext@[i]).0@).len() <= MAX_EXT_KEY_LEN
                && idx.by_ext@[i].1@.len() <= MAX_EXT_VALUE_COUNT,
        idx.by_ext@.len() <= u32::MAX,
        file_bytes(idx.entries@, table_items(idx.by_ext@, order), timestamp).len() <= MAX_INDEX_FILE_SIZE,
    ensures
        ({
            let items = table_items(idx.by_ext@, order);
            let d = file_bytes(idx.entries@, items, timestamp);
            &&& load_outcome(d) == Ok::<Seq<(Seq<u8>, Seq<u32>)>, LoadError>(items)
            &&& entry_count(d) == idx.entries@.len()
            &&& forall|i: int| 0 <= i < idx.entries@.len() ==> loaded_entry(#[trigger] idx.entries@[i], d, i)
            &&& items_map(items) == table_map(idx.by_ext@)
        }),
{
    let t = idx.by_ext@;
    let items = table_items(t, order);
    assert forall|i: int| 0 <= i < items.len() implies {
        &&& valid_utf8((#[trigger] items[i]).0)
        &&& items[i].0.len() <= MAX_EXT_KEY_LEN
        &&& items[i].1.len() <= MAX_EXT_VALUE_COUNT
    } by {
        let r = t[order[i] as int];
        encode_utf8_valid_utf8(r.0@);
    }
    law_saved_file_loads(idx.entries@, items, timestamp);
    lemma_items_of_table(t, order);
}

/// Two entries hold the same path, offsets, kind, size and times.
pub open spec fn same_entry(a: Entry, b: Entry) -> bool {
    &&& a.path@ == b.path@
    &&& a.name_off == b.name_off
    &&& a.ext_off == b.ext_off
    &&& a.is_dir == b.is_dir
    &&& a.size == b.size
    &&& a.modified == b.modified
    &&& a.created == b.created
    &&& a.accessed == b.accessed
}

/// An extension table sound for some entries stays sound for a table with the same map and
/// entries that are the same entry by entry.
proof fn lemma_ext_table_transfer(
    t1: Seq<(String, Vec<u32>)>,
    e1: Seq<Entry>,
    t2: Seq<(String, Vec<u32>)>,
    e2: Seq<Entry>,
)
    requires
        ext_table_sound(t1, e1),
        distinct_keys(t2),
        table_map(t2) == table_map(t1),
        e1.len() == e2.len(),
        forall|i: int| 0 <= i < e1.len() ==> same_entry(#[trigger] e1[i], e2[i]),
    ensures
        ext_table_sound(t2, e2),
{
    assert(distinct_keys(t1));
    assert forall|i: int| 0 <= i < t2.len() implies exists|j: int|
        0 <= j < t1.len() && t1[j].0@ == t2[i].0@ && #[trigger] t2[i].1@ == t1[j].1@ by {
        lemma_table_map_row(t2, i);
        let k = t2[i].0@;
        assert(table_map(t1).contains_key(k));
        let j = choose|j: int| 0 <= j < t1.len() && t1[j].0@ == k;
        lemma_table_map_row(t1, j);
    }
    assert forall|i: int| 0 <= i < t2.len() implies strictly_increasing(#[trigger] t2[i].1@) by {
        let j = choose|j: int| 0 <= j < t1.len() && t1[j].0@ == t2[i].0@ && t2[i].1@ == t1[j].1@;
        assert(strictly_increasing(t1[j].1@));
    }
    assert forall|i: int, m: int| 0 <= i < t2.len() && 0 <= m < t2[i].1@.len() implies (
    #[trigger] t2[i].1@[m] as int) < e2.len() && !e2[t2[i].1@[m] as int].is_dir && ext_chars(
        e2[t2[i].1@[m] as int],
    ) == t2[i].0@ by {
        let j = choose|j: int| 0 <= j < t1.len() && t1[j].0@ == t2[i].0@ && t2[i].1@ == t1[j].1@;
        assert(t1[j].1@[m] == t2[i].1@[m]);
        let x = t2[i].1@[m] as int;
        assert(same_entry(e1[x], e2[x]));
    }
    assert forall|x: int| 0 <= x < e2.len() && !(#[trigger] e2[x]).is_dir implies exists|i: int|
        0 <= i < t2.len() && t2[i].0@ == ext_chars(e2[x]) && t2[i].1@.contains(x as u32) by {
        assert(same_entry(e1[x], e2[x]));
        assert(!e1[x].is_dir);
        let j = choose|j: int|
            0 <= j < t1.len() && t1[j].0@ == ext_chars(e1[x]) && t1[j].1@.contains(x as u32);
        lemma_table_map_row(t1, j);
        let k = t1[j].0@;
        assert(table_map(t2).contains_key(k));
        let i = choose|i: int| 0 <= i < t2.len() && t2[i].0@ == k;
        lemma_table_map_row(t2, i);
    }
}

/// Saving an index and loading the file back gives an index that holds the same entries, in
/// the same order, and the same extension map, and is well formed; so every search on it
/// selects the same ids as on the saved index. `loaded` is any index that loading the saved
/// file returns.
pub proof fn law_loaded_index_matches_saved(idx: Index, order: Seq<usize>, timestamp: i64, loaded: Index)
    requires
        idx.wf(),
        is_permutation(order, idx.by_ext@.len() as int),
        idx.entries@.len() <= MAX_ENTRY_COUNT,
        forall|i: int| 0 <= i < idx.entries@.len() ==> storable_path(#[trigger] idx.entries@[i]),
        path_block(idx.entries@).len() <= MAX_PATH_SECTION_LEN,
        forall|i: int|
            0 <= i < idx.by_ext@.len() ==> encode_utf8((#[trigger] idx.by_ext@[i]).0@).len() <= MAX_EXT_KEY_LEN
                && idx.by_ext@[i].1@.len() <= MAX_EXT_VALUE_COUNT,
        idx.by_ext@.len() <= u32::MAX,
        file_bytes(idx.entries@, table_items(idx.by_ext@, order), timestamp).len() <= MAX_INDEX_FILE_SIZE,
        loaded_index(loaded, file_bytes(idx.entries@, table_items(idx.by_ext@, order), timestamp)),
    ensures
        loaded.wf(),
        loaded.entries@.len() == idx.entries@.len(),
        forall|i: int| 0 <= i < idx.entries@.len() ==> same_entry(#[trigger] loaded.entries@[i], idx.entries@[i]),
        table_map(loaded.by_ext@) == table_map(idx.by_ext@),
        forall|x: int, needle: Seq<u8>|
            0 <= x < idx.entries@.len() ==> #[trigger] name_has(loaded.entries@[x], needle) == name_has(
                idx.entries@[x],
                needle,
            ),
        forall|x: int, needle: Seq<u8>|
            0 <= x < idx.entries@.len() ==> #[trigger] name_starts(loaded.entries@[x], needle)
                == name_starts(idx.entries@[x], needle),
{
    let d = file_bytes(idx.entries@, table_items(idx.by_ext@, order), timestamp);
    law_index_saved_and_loaded(idx, order, timestamp);
    assert forall|i: int| 0 <= i < idx.entries@.len() implies same_entry(
        #[trigger] loaded.entries@[i],
        idx.entries@[i],
    ) by {
        assert(loaded_entry(loaded.entries@[i], d, i));
        assert(loaded_entry(idx.entries@[i], d, i));
    }
    assert forall|i: int| 0 <= i < idx.entries@.len() implies same_entry(
        #[trigger] idx.entries@[i],
        loaded.entries@[i],
    ) by {
        assert(same_entry(loaded.entries@[i], idx.entries@[i]));
    }
    lemma_ext_table_transfer(idx.by_ext@, idx.entries@, loaded.by_ext@, loaded.entries@);
    assert forall|x: int, needle: Seq<u8>| 0 <= x < idx.entries@.len() implies #[trigger] name_has(
        loaded.entries@[x],
        needle,
    ) == name_has(idx.entries@[x], needle) && name_starts(loaded.entries@[x], needle) == name_starts(
        idx.entries@[x],
        needle,
    ) by {
        assert(same_entry(loaded.entries@[x], idx.entries@[x]));
        assert(path_bytes(loaded.entries@[x]) == path_bytes(idx.entries@[x]));
    }
    assert forall|x: int, needle: Seq<u8>| 0 <= x < idx.entries@.len() implies #[trigger] name_starts(
        loaded.entries@[x],
        needle,
    ) == name_starts(idx.entries@[x], needle) by {
        assert(name_has(loaded.entries@[x], needle) == name_has(idx.entries@[x], needle));
    }
}

/// A search's result is fixed by the ids it selects: two strictly increasing id lists with the
/// same members are the same list.
pub proof fn law_search_result_fixed_by_members(a: Seq<u32>, b: Seq<u32>)
    requires
        strictly_increasing(a),
        strictly_increasing(b),
        forall|x: u32| a.contains(x) <==> b.contains(x),
    ensures
        a == b,
    decreases a.len() + b.len(),
{
    if a.len() == 0 {
        if b.len() > 0 {
            assert(b.contains(b[0]));
        }
        assert(a =~= b);
    } else if b.len() == 0 {
        assert(a.contains(a[0]));
    } else {
        assert(a.contains(a[0]));
        assert(b.contains(b[0]));
        let ia = choose|k: int| 0 <= k < a.len() && a[k] == b[0];
        let ib = choose|k: int| 0 <= k < b.len() && b[k] == a[0];
        assert(a[0] == b[0]) by {
            if a[0] < b[0] {
                assert(b[ib] == a[0]);
                if ib > 0 {
                    assert(b[0] < b[ib]);
                }
            } else if b[0] < a[0] {
                assert(a[ia] == b[0]);
                if ia > 0 {
                    assert(a[0] < a[ia]);
                }
            }
        }
        let a1 = a.drop_first();
        let b1 = b.drop_first();
        assert forall|x: u32| a1.contains(x) <==> b1.contains(x) by {
            if a1.contains(x) {
                let k = choose|k: int| 0 <= k < a1.len() && a1[k] == x;
                assert(a[k + 1] == x);
                assert(a[0] < a[k + 1]);
                assert(b.contains(x));
                let m = choose|m: int| 0 <= m < b.len() && b[m] == x;
                assert(m != 0);
                assert(b1[m - 1] == x);
            }
            if b1.contains(x) {
                let k = choose|k: int| 0 <= k < b1.len() && b1[k] == x;
                assert(b[k + 1] == x);
                assert(b[0] < b[k + 1]);
                assert(a.contains(x));
                let m = choose|m: int| 0 <= m < a.len() && a[m] == x;
                assert(m != 0);
                assert(a1[m - 1] == x);
            }
        }
        law_search_result_fixed_by_members(a1, b1);
        assert(a =~= seq![a[0]] + a1);
        assert(b =~= seq![b[0]] + b1);
    }
}

/// The row of `ext` in an extension table, if it has one.
fn table_row(t: &Vec<(String, Vec<u32>)>, ext: &str) -> (r: Option<usize>)
    ensures
        match r {
            Some(a) => a < t@.len() && t@[a as int].0@ == ext@,
            None => forall|b: int| 0 <= b < t@.len() ==> t@[b].0@ != ext@,
        },
{
    let mut a: usize = 0;
    while a < t.len()
        invariant
            a <= t@.len(),
            forall|b: int| 0 <= b < a ==> t@[b].0@ != ext@,
        decreases t.len() - a,
    {
        if crate::text::str_eq(t[a].0.as_str(), ext) {
            return Some(a);
        }
        a += 1;
    }
    None
}

/// Whether `x` is in `l`.
fn list_has(l: &Vec<u32>, x: u32) -> (r: bool)
    ensures
        r == l@.contains(x),
{
    let mut m: usize = 0;
    while m < l.len()
        invariant
            m <= l@.len(),
            forall|c: int| 0 <= c < m ==> l@[c] != x,
        decreases l.len() - m,
    {
        if l[m] == x {
            assert(l@[m as int] == x);
            return true;
        }
        m += 1;
    }
    false
}

/// Whether an extension table is sound for the entries: keys once each, strictly increasing
/// lists of files with that extension, and every file listed under its extension.
fn ext_table_checked(t: &Vec<(String, Vec<u32>)>, es: &Vec<Entry>) -> (r: bool)
    requires
        es@.len() <= u32::MAX,
    ensures
        r == ext_table_sound(t@, es@),
{
    let n = t.len();
    // Keys once each.
    let mut i: usize = 0;
    while i < n
        invariant
            i <= n == t@.len(),
            forall|a: int, b: int| 0 <= a < b < t@.len() && a < i ==> t@[a].0@ != t@[b].0@,
        decreases n - i,
    {
        let mut j: usize = i + 1;
        while j < n
            invariant
                i < n == t@.len(),
                i + 1 <= j <= n,
                forall|a: int, b: int| 0 <= a < b < t@.len() && a < i ==> t@[a].0@ != t@[b].0@,
                forall|b: int| i < b < j ==> t@[i as int].0@ != t@[b].0@,
            decreases n - j,
        {
            if crate::text::str_eq(t[i].0.as_str(), t[j].0.as_str()) {
                assert(!ext_table_sound(t@, es@));
                return false;
            }
            j += 1;
        }
        i += 1;
    }
    // Each list: strictly increasing ids of files with the list's extension.
    let mut i: usize = 0;
    while i < n
        invariant
            i <= n == t@.len(),
            forall|a: int, b: int| 0 <= a < b < t@.len() ==> t@[a].0@ != t@[b].0@,
            forall|a: int| 0 <= a < i ==> strictly_increasing(#[trigger] t@[a].1@),
            forall|a: int, m: int|
                0 <= a < i && 0 <= m < t@[a].1@.len() ==> (#[trigger] t@[a].1@[m] as int) < es@.len()
                    && !es@[t@[a].1@[m] as int].is_dir && ext_chars(es@[t@[a].1@[m] as int])
                    == t@[a].0@,
        decreases n - i,
    {
        let l = &t[i].1;
        let mut m: usize = 0;
        while m < l.len()
            invariant
                i < n == t@.len(),
                l@ == t@[i as int].1@,
                m <= l@.len(),
                forall|a: int, b: int| 0 <= a < b < m ==> l@[a] < l@[b],
                forall|c: int|
                    0 <= c < m ==> (#[trigger] l@[c] as int) < es@.len() && !es@[l@[c] as int].is_dir
                        && ext_chars(es@[l@[c] as int]) == t@[i as int].0@,
            decreases l.len() - m,
        {
            let x = l[m];
            if m > 0 && l[m - 1] >= x {
                assert(!strictly_increasing(t@[i as int].1@)) by {
                    assert(l@[m - 1] >= l@[m as int]);
                }
                return false;
            }
            if (x as usize) >= es.len() || es[x as usize].is_dir || !crate::text::str_eq(
                es[x as usize].extension(),
                t[i].0.as_str(),
            ) {
                assert(t@[i as int].1@[m as int] == x);
                assert(!ext_table_sound(t@, es@));
                return false;
            }
            m += 1;
        }
        i += 1;
    }
    // Every file listed under its extension.
    let mut x: usize = 0;
    while x < es.len()
        invariant
            x <= es@.len() <= u32::MAX,
            n == t@.len(),
            forall|a: int, b: int| 0 <= a < b < t@.len() ==> t@[a].0@ != t@[b].0@,
            forall|a: int| 0 <= a < t@.len() ==> strictly_increasing(#[trigger] t@[a].1@),
            forall|a: int, m: int|
                0 <= a < t@.len() && 0 <= m < t@[a].1@.len() ==> (#[trigger] t@[a].1@[m] as int)
                    < es@.len() && !es@[t@[a].1@[m] as int].is_dir && ext_chars(
                    es@[t@[a].1@[m] as int],
                ) == t@[a].0@,
            forall|y: int|
                0 <= y < x && !(#[trigger] es@[y]).is_dir ==> exists|a: int|
                    0 <= a < t@.len() && t@[a].0@ == ext_chars(es@[y]) && t@[a].1@.contains(y as u32),
        decreases es.len() - x,
    {
        if !es[x].is_dir {
            let ext = es[x].extension();
            match table_row(t, ext) {
                None => {
                    return false;
                },
                Some(a) => {
                    if !list_has(&t[a].1, x as u32) {
                        proof {
                            assert forall|b: int|
                                0 <= b < t@.len() && t@[b].0@ == ext_chars(es@[x as int]) implies !t@[b].1@.contains(
                                x as u32,
                            ) by {
                                if b != a {
                                    if b < a {
                                        assert(t@[b].0@ != t@[a as int].0@);
                                    } else {
                                        assert(t@[a as int].0@ != t@[b].0@);
                                    }
                                }
                            }
                        }
                        return false;
                    }
                },
            }
        }
        x += 1;
    }
    true
}

impl Index {
    /// Reads an index from the bytes of an index file and checks that its extension table
    /// agrees with its entries, so that the index is well formed: the file's own error where
    /// the file does not load, else `ExtTableMismatch` where no index read from it would be
    /// well formed.
    pub fn load_checked(data: &[u8]) -> (r: Result<Index, LoadError>)
        ensures
            match r {
                Ok(idx) => loaded_index(idx, data@) && idx.wf(),
                Err(e) => load_outcome(data@) == Err::<Seq<(Seq<u8>, Seq<u32>)>, LoadError>(e) || (e
                    == LoadError::ExtTableMismatch && load_outcome(data@) is Ok && forall|l: Index|
                    #[trigger] loaded_index(l, data@) ==> !l.wf()),
            },
    {
        let idx = match Index::load(data) {
            Ok(idx) => idx,
            Err(e) => {
                return Err(e);
            },
        };
        if idx.entries.len() > u32::MAX as usize {
            proof {
                assert forall|l: Index| #[trigger] loaded_index(l, data@) implies !l.wf() by {
                    assert(l.entries@.len() == idx.entries@.len());
                }
            }
            return Err(LoadError::ExtTableMismatch);
        }
        if ext_table_checked(&idx.by_ext, &idx.entries) {
            assert(idx.wf());
            Ok(idx)
        } else {
            proof {
                let d = data@;
                assert forall|l: Index| #[trigger] loaded_index(l, d) implies !l.wf() by {
                    if l.wf() {
                        assert forall|i: int| 0 <= i < l.entries@.len() implies same_entry(
                            #[trigger] l.entries@[i],
                            idx.entries@[i],
                        ) by {
                            assert(loaded_entry(l.entries@[i], d, i));
                            assert(loaded_entry(idx.entries@[i], d, i));
                        }
                        lemma_ext_table_transfer(l.by_ext@, l.entries@, idx.by_ext@, idx.entries@);
                    }
                }
            }
            Err(LoadError::ExtTableMismatch)
        }
    }
}

} // verus!
