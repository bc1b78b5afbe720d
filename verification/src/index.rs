//! Core in-memory index.
use crate::postings::{
    lemma_postings_remove_rename, lemma_postings_removed,
    lemma_postings_swap_remove, list_remove_id, list_replace_id, map_remove_id_all, map_replace_id_all,
    lemma_prefix_to_set_step,
    lemma_pushed_on_empty, lemma_pushed_on_step,
    lemma_postings_push, lemma_postings_transfer, pushed_on, lower_bound, map_push, map_remove_id, map_replace_id, postings_sound, strictly_increasing,
};
use crate::text::{
    str_eq,
    bytes_match_at,
    lemma_ascii_lowered, lower_chars,
    ascii_lower, ascii_lower_bytes, ascii_lower_char, ascii_lower_chars, bytes_contains,
    lowered_bytes_of, no_ascii_upper, occurs_at, seq_contains, seq_starts_with, to_lowercase,
    unicode_lower,
};
use std::collections::HashMap;
use vstd::prelude::*;
use vstd::std_specs::hash::obeys_key_model;
use vstd::string::StringSliceAdditionalSpecFns;
use vstd::utf8::*;

verus! {

broadcast use {vstd::std_specs::hash::group_hash_axioms, vstd::string::is_ascii_spec_bytes};

/// An entry in the search index.
#[derive(Debug, Clone, PartialEq, Eq)]
pub struct Entry {
    pub path: String,
    pub name_off: u16,
    pub ext_off: u16,
    pub is_dir: bool,
    pub size: u64,
    pub modified: i64,
    pub created: i64,
    pub accessed: i64,
}

/// The UTF-8 bytes of the entry's path.
pub open spec fn path_bytes(e: Entry) -> Seq<u8> {
    encode_utf8(e.path@)
}

/// The bytes of the file name: the path from `name_off` on, when that is a character boundary.
pub open spec fn name_bytes(e: Entry) -> Seq<u8> {
    let pb = path_bytes(e);
    if is_char_boundary(pb, e.name_off as int) {
        pb.subrange(e.name_off as int, pb.len() as int)
    } else {
        Seq::empty()
    }
}

pub open spec fn name_chars(e: Entry) -> Seq<char> {
    decode_utf8(name_bytes(e))
}

/// The extension: the path from `ext_off` on, when that lies inside the name, before the
/// end, on a character boundary; empty otherwise.
pub open spec fn ext_chars(e: Entry) -> Seq<char> {
    let pb = path_bytes(e);
    if e.ext_off > e.name_off && (e.ext_off as int) < pb.len() && is_char_boundary(
        pb,
        e.ext_off as int,
    ) {
        decode_utf8(pb.subrange(e.ext_off as int, pb.len() as int))
    } else {
        Seq::empty()
    }
}

/// The UTF-8 bytes of the lower-cased file name (what the trigram and prefix lists key on).
pub open spec fn lowered_name(e: Entry) -> Seq<u8> {
    lowered_bytes_of(name_chars(e))
}

/// Tail of `s` from byte `off` on, when `off` is a character boundary.
fn tail_from(s: &str, off: usize) -> (r: &str)
    requires
        is_char_boundary(s.spec_bytes(), off as int),
    ensures
        r@ == decode_utf8(s.spec_bytes().subrange(off as int, s.spec_bytes().len() as int)),
{
    let (_, t) = s.split_at(off);
    proof {
        encode_utf8_decode_utf8(t@);
    }
    t
}

impl Entry {
    /// Return the filename portion of the path.
    pub fn name(&self) -> (r: &str)
        ensures
            r@ == name_chars(*self),
    {
        let p = self.path.as_str();
        let off = self.name_off as usize;
        if p.is_char_boundary(off) {
            tail_from(p, off)
        } else {
            let e = "";
            proof {
                reveal_strlit("");
            }
            e
        }
    }

    /// Return the extension (without dot), or empty string if none.
    pub fn extension(&self) -> (r: &str)
        ensures
            r@ == ext_chars(*self),
    {
        let name_start = self.name_off as usize;
        let ext_start = self.ext_off as usize;
        let p = self.path.as_str();
        proof {
            assert(p.spec_bytes() == path_bytes(*self));
        }
        if ext_start > name_start && ext_start < p.as_bytes().len() && p.is_char_boundary(ext_start) {
            tail_from(p, ext_start)
        } else {
            let e = "";
            proof {
                reveal_strlit("");
            }
            e
        }
    }
}

pub const FNV_OFFSET: u64 = 0xcbf2_9ce4_8422_2325;

pub const FNV_PRIME: u64 = 0x0000_0100_0000_01b3;

/// 64-bit FNV-1a of a byte sequence.
pub open spec fn fnv1a_spec(data: Seq<u8>) -> u64
    decreases data.len(),
{
    if data.len() == 0 {
        FNV_OFFSET
    } else {
        (fnv1a_spec(data.drop_last()) ^ (data.last() as u64)).wrapping_mul(FNV_PRIME)
    }
}

/// 64-bit FNV-1a hash, used to key paths.
pub fn fnv1a_64(data: &[u8]) -> (r: u64)
    ensures
        r == fnv1a_spec(data@),
{
    let mut hash: u64 = FNV_OFFSET;
    let mut i: usize = 0;
    while i < data.len()
        invariant
            i <= data.len(),
            hash == fnv1a_spec(data@.subrange(0, i as int)),
        decreases data.len() - i,
    {
        proof {
            assert(data@.subrange(0, i + 1).drop_last() =~= data@.subrange(0, i as int));
        }
        hash = (hash ^ (data[i] as u64)).wrapping_mul(FNV_PRIME);
        i += 1;
    }
    assert(data@.subrange(0, data.len() as int) =~= data@);
    hash
}

/// The key of the trigram `a b c`.
pub open spec fn trigram_key(a: u8, b: u8, c: u8) -> u32 {
    ((a as u32) * 65536 + (b as u32) * 256 + (c as u32)) as u32
}

/// `s` holds the trigram `t` at some position.
pub open spec fn has_trigram(s: Seq<u8>, t: u32) -> bool {
    exists|i: int| 0 <= i && i + 3 <= s.len() && #[trigger] trigram_key(s[i], s[i + 1], s[i + 2]) == t
}

/// Pack 3 bytes into a u32 trigram key.
pub fn pack_trigram(a: u8, b: u8, c: u8) -> (r: u32)
    ensures
        r == trigram_key(a, b, c),
{
    let r = (a as u32) << 16 | (b as u32) << 8 | (c as u32);
    assert(r == trigram_key(a, b, c)) by (bit_vector)
        requires
            r == (a as u32) << 16 | (b as u32) << 8 | (c as u32),
    ;
    r
}

/// The trigram keys of every window of three bytes, in order.
pub fn extract_trigrams(name_lower: &[u8]) -> (r: Vec<u32>)
    ensures
        name_lower@.len() < 3 ==> r@.len() == 0,
        name_lower@.len() >= 3 ==> r@.len() == name_lower@.len() - 2,
        forall|i: int|
            0 <= i < r@.len() ==> r@[i] == trigram_key(
                name_lower@[i],
                name_lower@[i + 1],
                name_lower@[i + 2],
            ),
{
    if name_lower.len() < 3 {
        return Vec::new();
    }
    let mut trigrams: Vec<u32> = Vec::new();
    let mut i: usize = 0;
    while i < name_lower.len() - 2
        invariant
            name_lower@.len() >= 3,
            i <= name_lower@.len() - 2,
            trigrams@.len() == i,
            forall|k: int|
                0 <= k < i ==> trigrams@[k] == trigram_key(
                    name_lower@[k],
                    name_lower@[k + 1],
                    name_lower@[k + 2],
                ),
        decreases name_lower.len() - i,
    {
        trigrams.push(pack_trigram(name_lower[i], name_lower[i + 1], name_lower[i + 2]));
        i += 1;
    }
    trigrams
}

/// The distinct trigram keys of `name_lower`, in increasing order.
pub fn unique_trigrams(name_lower: &[u8]) -> (r: Vec<u32>)
    ensures
        strictly_increasing(r@),
        forall|t: u32| r@.contains(t) <==> has_trigram(name_lower@, t),
{
    let all = extract_trigrams(name_lower);
    let mut out: Vec<u32> = Vec::new();
    let mut i: usize = 0;
    while i < all.len()
        invariant
            i <= all@.len(),
            strictly_increasing(out@),
            forall|t: u32| out@.contains(t) <==> exists|k: int| 0 <= k < i && all@[k] == t,
        decreases all.len() - i,
    {
        let t = all[i];
        let p = lower_bound(&out, t);
        let ghost before = out@;
        if p < out.len() && out[p] == t {
            proof {
                assert forall|u: u32|
                    out@.contains(u) <==> exists|k: int| 0 <= k < i + 1 && all@[k] == u by {
                    if exists|k: int| 0 <= k < i + 1 && all@[k] == u {
                        let k = choose|k: int| 0 <= k < i + 1 && all@[k] == u;
                        if k == i {
                            assert(out@[p as int] == u);
                        } else {
                            assert(exists|k2: int| 0 <= k2 < i && all@[k2] == u);
                        }
                    }
                    if out@.contains(u) {
                        let k = choose|k: int| 0 <= k < i && all@[k] == u;
                        assert(0 <= k < i + 1 && all@[k] == u);
                    }
                }
            }
        } else {
            out.insert(p, t);
            proof {
                assert forall|a: int, b: int| 0 <= a < b < out@.len() implies out@[a] < out@[b] by {
                    if b < p {
                        assert(out@[a] == before[a] && out@[b] == before[b]);
                    } else if b == p {
                        assert(out@[a] == before[a]);
                    } else if a < p {
                        assert(out@[b] == before[b - 1]);
                    } else if a == p {
                        assert(out@[b] == before[b - 1]);
                        assert(before[b - 1] >= t);
                        assert(before[b - 1] != t);
                    } else {
                        assert(out@[a] == before[a - 1] && out@[b] == before[b - 1]);
                    }
                }
                assert forall|u: u32|
                    out@.contains(u) <==> exists|k: int| 0 <= k < i + 1 && all@[k] == u by {
                    if out@.contains(u) {
                        let k = choose|k: int| 0 <= k < out@.len() && out@[k] == u;
                        if k < p {
                            assert(before[k] == u);
                        } else if k > p {
                            assert(before[k - 1] == u);
                        } else {
                            assert(all@[i as int] == u);
                        }
                        if k != p {
                            assert(before.contains(u));
                            let k2 = choose|k2: int| 0 <= k2 < i && all@[k2] == u;
                            assert(0 <= k2 < i + 1 && all@[k2] == u);
                        }
                    }
                    if exists|k: int| 0 <= k < i + 1 && all@[k] == u {
                        let k = choose|k: int| 0 <= k < i + 1 && all@[k] == u;
                        if k == i {
                            assert(out@[p as int] == u);
                        } else {
                            assert(before.contains(u));
                            let j = choose|j: int| 0 <= j < before.len() && before[j] == u;
                            if j < p {
                                assert(out@[j] == u);
                            } else {
                                assert(out@[j + 1] == u);
                            }
                        }
                    }
                }
            }
        }
        i += 1;
    }
    proof {
        assert forall|t: u32| out@.contains(t) <==> has_trigram(name_lower@, t) by {
            if out@.contains(t) {
                let k = choose|k: int| 0 <= k < all@.len() && all@[k] == t;
                assert(trigram_key(name_lower@[k], name_lower@[k + 1], name_lower@[k + 2]) == t);
            }
            if has_trigram(name_lower@, t) {
                let k = choose|k: int|
                    0 <= k && k + 3 <= name_lower@.len() && #[trigger] trigram_key(
                        name_lower@[k],
                        name_lower@[k + 1],
                        name_lower@[k + 2],
                    ) == t;
                assert(all@[k] == t);
            }
        }
    }
    out
}

/// ASCII folding of one byte.
pub fn ascii_lower_u8(b: u8) -> (r: u8)
    ensures
        r == ascii_lower(b),
{
    if 65 <= b && b <= 90 {
        b + 32
    } else {
        b
    }
}

/// Zero-allocation case-insensitive substring check: `needle_lower` (already lower-cased)
/// occurs in the lower-cased bytes of `haystack`.
pub fn contains_ignore_case(haystack: &str, needle_lower: &str) -> (r: bool)
    requires
        no_ascii_upper(needle_lower@),
    ensures
        r == seq_contains(lowered_bytes_of(haystack@), needle_lower.spec_bytes()),
{
    let nb = needle_lower.as_bytes();
    if nb.len() == 0 {
        proof {
            assert(lowered_bytes_of(haystack@).subrange(0, 0) =~= nb@);
            assert(occurs_at(lowered_bytes_of(haystack@), nb@, 0));
        }
        return true;
    }
    if !haystack.is_ascii() || !needle_lower.is_ascii() {
        let low = to_lowercase(haystack);
        let lb = low.as_str().as_bytes();
        return bytes_contains(lb, nb);
    }
    let hb = haystack.as_bytes();
    proof {
        lemma_ascii_lowered(haystack@);
        vstd::utf8::is_ascii_chars_encode_utf8(needle_lower@);
        assert forall|k: int| 0 <= k < nb@.len() implies ascii_lower(#[trigger] nb@[k]) == nb@[k] by {
            assert(needle_lower@[k] as u8 == nb@[k]);
            assert(!('A' <= needle_lower@[k] <= 'Z'));
        }
    }
    let ghost low = lowered_bytes_of(haystack@);
    if nb.len() > hb.len() {
        proof {
            assert forall|i: int| !occurs_at(low, nb@, i) by {}
        }
        return false;
    }
    let mut i: usize = 0;
    while i <= hb.len() - nb.len()
        invariant
            hb@ == haystack.spec_bytes(),
            nb@ == needle_lower.spec_bytes(),
            low == lowered_bytes_of(haystack@),
            low == ascii_lower_bytes(hb@),
            0 < nb@.len() <= hb@.len(),
            i <= hb@.len() - nb@.len() + 1,
            forall|k: int| 0 <= k < i ==> !occurs_at(low, nb@, k),
        decreases hb.len() + 1 - i,
    {
        let mut j: usize = 0;
        let mut all = true;
        while j < nb.len()
            invariant
                low == ascii_lower_bytes(hb@),
                i + nb.len() <= hb.len(),
                j <= nb@.len(),
                all == (forall|k: int| 0 <= k < j ==> low[i + k] == nb@[k]),
            decreases nb.len() - j,
        {
            if ascii_lower_u8(hb[i + j]) != nb[j] {
                all = false;
            }
            j += 1;
        }
        if all {
            proof {
                assert(low.subrange(i as int, i + nb@.len()) =~= nb@);
                assert(occurs_at(low, nb@, i as int));
            }
            return true;
        }
        proof {
            assert(!(forall|k: int| 0 <= k < nb@.len() ==> low[i + k] == nb@[k]));
            let k = choose|k: int| !(0 <= k < nb@.len() ==> low[i + k] == nb@[k]);
            if occurs_at(low, nb@, i as int) {
                assert(low.subrange(i as int, i + nb@.len())[k] == nb@[k]);
            }
        }
        i += 1;
    }
    proof {
        assert forall|k: int| !occurs_at(low, nb@, k) by {
            if 0 <= k < i {
            }
        }
    }
    false
}

/// Zero-allocation case-insensitive prefix check: the lower-cased bytes of `haystack`
/// start with `prefix_lower` (already lower-cased).
pub fn starts_with_ignore_case(haystack: &str, prefix_lower: &str) -> (r: bool)
    requires
        no_ascii_upper(prefix_lower@),
    ensures
        r == seq_starts_with(lowered_bytes_of(haystack@), prefix_lower.spec_bytes()),
{
    let pb = prefix_lower.as_bytes();
    if !haystack.is_ascii() || !prefix_lower.is_ascii() {
        let low = to_lowercase(haystack);
        let lb = low.as_str().as_bytes();
        if pb.len() > lb.len() {
            return false;
        }
        let r = bytes_match_at(lb, pb, 0);
        proof {
            assert(occurs_at(lb@, pb@, 0) ==> lb@.subrange(0, pb@.len() as int) == pb@);
        }
        return r;
    }
    let hb = haystack.as_bytes();
    proof {
        lemma_ascii_lowered(haystack@);
        vstd::utf8::is_ascii_chars_encode_utf8(prefix_lower@);
        assert forall|k: int| 0 <= k < pb@.len() implies ascii_lower(#[trigger] pb@[k]) == pb@[k] by {
            assert(prefix_lower@[k] as u8 == pb@[k]);
            assert(!('A' <= prefix_lower@[k] <= 'Z'));
        }
    }
    let ghost low = lowered_bytes_of(haystack@);
    if hb.len() < pb.len() {
        return false;
    }
    let mut j: usize = 0;
    while j < pb.len()
        invariant
            low == lowered_bytes_of(haystack@),
            pb@ == prefix_lower.spec_bytes(),
            low == ascii_lower_bytes(hb@),
            pb@.len() <= hb@.len(),
            j <= pb@.len(),
            forall|k: int| 0 <= k < j ==> low[k] == pb@[k],
        decreases pb.len() - j,
    {
        if ascii_lower_u8(hb[j]) != pb[j] {
            proof {
                assert(low.subrange(0, pb@.len() as int)[j as int] != pb@[j as int]);
            }
            return false;
        }
        j += 1;
    }
    assert(low.subrange(0, pb@.len() as int) =~= pb@);
    true
}

/// Position of the last occurrence of byte `b` in `s`, or -1.
pub open spec fn last_index_of(s: Seq<u8>, b: u8) -> int
    decreases s.len(),
{
    if s.len() == 0 {
        -1
    } else if s.last() == b {
        s.len() - 1
    } else {
        last_index_of(s.drop_last(), b)
    }
}

pub proof fn lemma_last_index_of(s: Seq<u8>, b: u8)
    ensures
        -1 <= last_index_of(s, b) < s.len(),
        last_index_of(s, b) >= 0 ==> s[last_index_of(s, b)] == b,
        forall|i: int| last_index_of(s, b) < i < s.len() ==> s[i] != b,
    decreases s.len(),
{
    if s.len() > 0 && s.last() != b {
        lemma_last_index_of(s.drop_last(), b);
        assert forall|i: int| last_index_of(s, b) < i < s.len() implies s[i] != b by {
            if i < s.len() - 1 {
                assert(s.drop_last()[i] == s[i]);
            }
        }
    }
}

/// Last position of byte `b` in `s`, if any.
pub fn rfind_byte(s: &[u8], b: u8) -> (r: Option<usize>)
    ensures
        match r {
            Some(i) => i as int == last_index_of(s@, b),
            None => last_index_of(s@, b) == -1,
        },
{
    let mut i = s.len();
    assert(s@.subrange(0, i as int) =~= s@);
    while i > 0
        invariant
            i <= s.len(),
            last_index_of(s@, b) == last_index_of(s@.subrange(0, i as int), b),
        decreases i,
    {
        assert(s@.subrange(0, i as int).drop_last() =~= s@.subrange(0, i - 1));
        if s[i - 1] == b {
            return Some(i - 1);
        }
        i -= 1;
    }
    None
}

/// Byte offset of the file name: just past the last `/`, kept in 16 bits.
pub open spec fn name_off_of(pb: Seq<u8>) -> u16 {
    ((last_index_of(pb, 47) + 1) % 65536) as u16
}

/// Byte offset of the extension: just past the last `.` of the name, kept in 16 bits; 0 for
/// directories and for names without a dot.
pub open spec fn ext_off_of(pb: Seq<u8>, is_dir: bool) -> u16 {
    if is_dir {
        0
    } else {
        let no = name_off_of(pb);
        let d = last_index_of(pb.subrange(no as int, pb.len() as int), 46);
        if d < 0 {
            0
        } else {
            ((no + d + 1) % 65536) as u16
        }
    }
}

/// The offsets that `insert` computes for `pb` fall on character boundaries, so that the name
/// and extension can be cut out of the path.
pub open spec fn insertable(pb: Seq<u8>, is_dir: bool) -> bool {
    &&& is_char_boundary(pb, name_off_of(pb) as int)
    &&& (!is_dir && ext_off_of(pb, false) > name_off_of(pb)) ==> is_char_boundary(
        pb,
        ext_off_of(pb, false) as int,
    )
}

/// `e` is the entry that `insert_with_metadata` records for these arguments.
pub open spec fn is_new_entry(
    e: Entry,
    path: Seq<char>,
    is_dir: bool,
    size: u64,
    modified: i64,
    created: i64,
    accessed: i64,
) -> bool {
    &&& e.path@ == path
    &&& e.name_off == name_off_of(encode_utf8(path))
    &&& e.ext_off == ext_off_of(encode_utf8(path), is_dir)
    &&& e.is_dir == is_dir
    &&& e.size == size
    &&& e.modified == modified
    &&& e.created == created
    &&& e.accessed == accessed
}

/// Trigram membership: id `x` of `es` has trigram `t` in its lower-cased name.
pub open spec fn tri_rel(es: Seq<Entry>) -> spec_fn(int, u32) -> bool {
    |x: int, t: u32| has_trigram(lowered_name(es[x]), t)
}

/// First-byte membership: id `x` of `es` has a lower-cased name starting with byte `b`.
pub open spec fn first_rel(es: Seq<Entry>) -> spec_fn(int, u8) -> bool {
    |x: int, b: u8| lowered_name(es[x]).len() > 0 && lowered_name(es[x])[0] == b
}

/// Every hash in the path map leads to an entry whose path has that hash.
pub open spec fn path_map_sound(m: Map<u64, u32>, es: Seq<Entry>) -> bool {
    forall|h: u64| #[trigger] m.contains_key(h) ==> (m[h] as int) < es.len() && fnv1a_spec(
        path_bytes(es[m[h] as int]),
    ) == h
}

/// The extension table lists each extension once, with the strictly increasing ids of exactly
/// the files that have it, and every file's extension is listed.
pub open spec fn ext_table_sound(t: Seq<(String, Vec<u32>)>, es: Seq<Entry>) -> bool {
    &&& forall|i: int, j: int| 0 <= i < j < t.len() ==> t[i].0@ != t[j].0@
    &&& forall|i: int| 0 <= i < t.len() ==> strictly_increasing(#[trigger] t[i].1@)
    &&& forall|i: int, j: int|
        0 <= i < t.len() && 0 <= j < t[i].1@.len() ==> (#[trigger] t[i].1@[j] as int) < es.len()
            && !es[t[i].1@[j] as int].is_dir && ext_chars(es[t[i].1@[j] as int]) == t[i].0@
    &&& forall|x: int|
        0 <= x < es.len() && !(#[trigger] es[x]).is_dir ==> exists|i: int|
            0 <= i < t.len() && t[i].0@ == ext_chars(es[x]) && t[i].1@.contains(x as u32)
}

/// Tiered search index.
#[derive(Debug, Clone)]
pub struct Index {
    pub entries: Vec<Entry>,
    /// Extension -> ids of the files with that extension.
    pub by_ext: Vec<(String, Vec<u32>)>,
    /// Hash of an extension -> its likely slot in `by_ext` (a lookup shortcut only).
    pub ext_slots: HashMap<u64, usize>,
    pub path_to_id: HashMap<u64, u32>,
    pub trigrams: HashMap<u32, Vec<u32>>,
    pub prefix_first_byte: HashMap<u8, Vec<u32>>,
}

/// Slot of `ext` in the extension table, if it is there.
fn ext_find(table: &Vec<(String, Vec<u32>)>, slots: &HashMap<u64, usize>, ext: &str) -> (r: Option<
    usize,
>)
    ensures
        match r {
            Some(i) => i < table@.len() && table@[i as int].0@ == ext@,
            None => forall|i: int| 0 <= i < table@.len() ==> table@[i].0@ != ext@,
        },
{
    let h = fnv1a_64(ext.as_bytes());
    match slots.get(&h) {
        Some(k) => {
            let k = *k;
            if k < table.len() && str_eq(table[k].0.as_str(), ext) {
                return Some(k);
            }
        },
        None => {},
    }
    let mut i: usize = 0;
    while i < table.len()
        invariant
            i <= table@.len(),
            forall|j: int| 0 <= j < i ==> table@[j].0@ != ext@,
        decreases table.len() - i,
    {
        if str_eq(table[i].0.as_str(), ext) {
            return Some(i);
        }
        i += 1;
    }
    None
}

impl Index {
    /// The structural invariant that every operation keeps.
    pub open spec fn wf(&self) -> bool {
        &&& self.entries@.len() <= u32::MAX
        &&& path_map_sound(self.path_to_id@, self.entries@)
        &&& postings_sound(self.trigrams@, self.entries@.len() as int, tri_rel(self.entries@))
        &&& postings_sound(
            self.prefix_first_byte@,
            self.entries@.len() as int,
            first_rel(self.entries@),
        )
        &&& ext_table_sound(self.by_ext@, self.entries@)
    }

    /// The extensions that have a list (once listed, an extension stays listed).
    pub open spec fn ext_keys(&self) -> Set<Seq<char>> {
        Set::new(|e: Seq<char>| exists|i: int| 0 <= i < self.by_ext@.len() && self.by_ext@[i].0@ == e)
    }

    pub fn new() -> (r: Self)
        ensures
            r.wf(),
            r.entries@.len() == 0,
            r.path_to_id@ == Map::<u64, u32>::empty(),
            r.ext_keys() == Set::<Seq<char>>::empty(),
    {
        let r = Index {
            entries: Vec::new(),
            by_ext: Vec::new(),
            ext_slots: HashMap::new(),
            path_to_id: HashMap::new(),
            trigrams: HashMap::new(),
            prefix_first_byte: HashMap::new(),
        };
        assert(r.ext_keys() =~= Set::<Seq<char>>::empty());
        r
    }

    /// Appends `id` to the list of extension `ext`, adding the extension when it is new.
    fn ext_push(&mut self, ext: &str, id: u32)
        requires
            forall|i: int, j: int|
                0 <= i < j < old(self).by_ext@.len() ==> old(self).by_ext@[i].0@ != old(self).by_ext@[j].0@,
        ensures
            final(self).entries == old(self).entries,
            final(self).path_to_id == old(self).path_to_id,
            final(self).trigrams == old(self).trigrams,
            final(self).prefix_first_byte == old(self).prefix_first_byte,
            forall|i: int, j: int|
                0 <= i < j < final(self).by_ext@.len() ==> final(self).by_ext@[i].0@ != final(self).by_ext@[j].0@,
            final(self).by_ext@.len() >= old(self).by_ext@.len(),
            forall|i: int|
                0 <= i < old(self).by_ext@.len() ==> #[trigger] final(self).by_ext@[i].0@ == old(self).by_ext@[i].0@
                    && final(self).by_ext@[i].1@ == if old(self).by_ext@[i].0@ == ext@ {
                    old(self).by_ext@[i].1@.push(id)
                } else {
                    old(self).by_ext@[i].1@
                },
            forall|i: int|
                old(self).by_ext@.len() <= i < final(self).by_ext@.len() ==> #[trigger] final(self).by_ext@[i].0@ == ext@
                    && final(self).by_ext@[i].1@ == seq![id],
            (exists|i: int| 0 <= i < old(self).by_ext@.len() && old(self).by_ext@[i].0@ == ext@)
                || final(self).by_ext@.len() == old(self).by_ext@.len() + 1,
            (exists|i: int| 0 <= i < old(self).by_ext@.len() && old(self).by_ext@[i].0@ == ext@)
                ==> final(self).by_ext@.len() == old(self).by_ext@.len(),
    {
        match ext_find(&self.by_ext, &self.ext_slots, ext) {
            Some(i) => {
                self.by_ext[i].1.push(id);
            },
            None => {
                let h = fnv1a_64(ext.as_bytes());
                let slot = self.by_ext.len();
                let mut list = Vec::new();
                list.push(id);
                self.by_ext.push((ext.to_owned(), list));
                self.ext_slots.insert(h, slot);
                assert(self.by_ext@.last().1@ =~= seq![id]);
            },
        }
    }
}

/// The extension table after a new last entry: unchanged for a directory, or with the new id
/// appended to (or starting) the list of the new file's extension.
proof fn lemma_ext_table_push(
    old_t: Seq<(String, Vec<u32>)>,
    new_t: Seq<(String, Vec<u32>)>,
    old_es: Seq<Entry>,
    new_es: Seq<Entry>,
    ext: Seq<char>,
    id: u32,
)
    requires
        ext_table_sound(old_t, old_es),
        id as int == old_es.len(),
        new_es.len() == old_es.len() + 1,
        forall|x: int| 0 <= x < old_es.len() ==> new_es[x] == old_es[x],
        new_es[id as int].is_dir ==> new_t == old_t,
        !new_es[id as int].is_dir ==> {
            &&& ext == ext_chars(new_es[id as int])
            &&& forall|i: int, j: int| 0 <= i < j < new_t.len() ==> new_t[i].0@ != new_t[j].0@
            &&& new_t.len() >= old_t.len()
            &&& forall|i: int|
                0 <= i < old_t.len() ==> #[trigger] new_t[i].0@ == old_t[i].0@ && new_t[i].1@ == if old_t[i].0@ == ext {
                    old_t[i].1@.push(id)
                } else {
                    old_t[i].1@
                }
            &&& forall|i: int|
                old_t.len() <= i < new_t.len() ==> #[trigger] new_t[i].0@ == ext && new_t[i].1@
                    == seq![id]
            &&& (exists|i: int| 0 <= i < old_t.len() && old_t[i].0@ == ext) || new_t.len()
                == old_t.len() + 1
        },
    ensures
        ext_table_sound(new_t, new_es),
{
    if new_es[id as int].is_dir {
        assert forall|i: int, j: int|
            0 <= i < new_t.len() && 0 <= j < new_t[i].1@.len() implies (#[trigger] new_t[i].1@[j] as int)
            < new_es.len() && !new_es[new_t[i].1@[j] as int].is_dir && ext_chars(
            new_es[new_t[i].1@[j] as int],
        ) == new_t[i].0@ by {
            assert((old_t[i].1@[j] as int) < old_es.len());
        }
        assert forall|x: int| 0 <= x < new_es.len() && !(#[trigger] new_es[x]).is_dir implies exists|i: int|
            0 <= i < new_t.len() && new_t[i].0@ == ext_chars(new_es[x]) && new_t[i].1@.contains(
                x as u32,
            ) by {
            assert(new_es[x] == old_es[x]);
            assert(!old_es[x].is_dir);
        }
    } else {
        assert forall|i: int| 0 <= i < new_t.len() implies strictly_increasing(#[trigger] new_t[i].1@) by {
            if i < old_t.len() {
                assert(new_t[i].0@ == old_t[i].0@);
            } else {
                assert(new_t[i].0@ == ext);
            }
            if i < old_t.len() && old_t[i].0@ == ext {
                let b = old_t[i].1@;
                assert(strictly_increasing(b));
                assert forall|a: int, c: int| 0 <= a < c < new_t[i].1@.len() implies new_t[i].1@[a]
                    < new_t[i].1@[c] by {
                    if c == b.len() {
                        assert(new_t[i].1@[a] == b[a]);
                        assert((b[a] as int) < old_es.len());
                    } else {
                        assert(new_t[i].1@[a] == b[a] && new_t[i].1@[c] == b[c]);
                    }
                }
            } else if i < old_t.len() {
                assert(strictly_increasing(old_t[i].1@));
            }
        }
        assert forall|i: int, j: int|
            0 <= i < new_t.len() && 0 <= j < new_t[i].1@.len() implies (#[trigger] new_t[i].1@[j] as int)
            < new_es.len() && !new_es[new_t[i].1@[j] as int].is_dir && ext_chars(
            new_es[new_t[i].1@[j] as int],
        ) == new_t[i].0@ by {
            if i < old_t.len() {
                assert(new_t[i].0@ == old_t[i].0@);
                if j < old_t[i].1@.len() {
                    assert(new_t[i].1@[j] == old_t[i].1@[j]);
                    assert((old_t[i].1@[j] as int) < old_es.len());
                } else {
                    assert(new_t[i].1@[j] == id);
                }
            } else {
                assert(new_t[i].0@ == ext);
                assert(new_t[i].1@[j] == id);
            }
        }
        assert forall|x: int| 0 <= x < new_es.len() && !(#[trigger] new_es[x]).is_dir implies exists|i: int|
            0 <= i < new_t.len() && new_t[i].0@ == ext_chars(new_es[x]) && new_t[i].1@.contains(
                x as u32,
            ) by {
            if x == id {
                if exists|i: int| 0 <= i < old_t.len() && old_t[i].0@ == ext {
                    let i = choose|i: int| 0 <= i < old_t.len() && old_t[i].0@ == ext;
                    assert(new_t[i].0@ == old_t[i].0@);
                    assert(new_t[i].1@[new_t[i].1@.len() - 1] == id);
                } else {
                    let i = old_t.len() as int;
                    assert(new_t[i].0@ == ext);
                    assert(new_t[i].1@[0] == id);
                }
            } else {
                assert(new_es[x] == old_es[x]);
                let i = choose|i: int|
                    0 <= i < old_t.len() && old_t[i].0@ == ext_chars(old_es[x]) && old_t[i].1@.contains(
                        x as u32,
                    );
                let j = choose|j: int| 0 <= j < old_t[i].1@.len() && old_t[i].1@[j] == x as u32;
                assert(new_t[i].0@ == old_t[i].0@);
                assert(new_t[i].1@[j] == x as u32);
            }
        }
    }
}

/// Whether `path` can be recorded: its name and extension offsets, kept in 16 bits, fall on
/// character boundaries (always so for paths shorter than 64 KiB).
pub fn insertable_path(path: &str, is_dir: bool) -> (r: bool)
    ensures
        r == insertable(path.spec_bytes(), is_dir),
{
    let pb = path.as_bytes();
    let _n = pb.len();
    proof {
        lemma_last_index_of(pb@, 47u8);
    }
    let name_off: u16 = match rfind_byte(pb, 47u8) {
        Some(i) => ((i + 1) % 65536) as u16,
        None => 0,
    };
    if (name_off as usize) > pb.len() || !path.is_char_boundary(name_off as usize) {
        return false;
    }
    if is_dir {
        return true;
    }
    let name_slice = &pb[name_off as usize..pb.len()];
    let ext_off: u16 = match rfind_byte(name_slice, 46u8) {
        Some(d) => {
            proof {
                lemma_last_index_of(name_slice@, 46u8);
            }
            ((name_off as usize + d + 1) % 65536) as u16
        },
        None => 0,
    };
    assert(name_slice@ =~= pb@.subrange(name_off as int, pb@.len() as int));
    if ext_off > name_off {
        (ext_off as usize) <= pb.len() && path.is_char_boundary(ext_off as usize)
    } else {
        true
    }
}

impl Index {
    pub fn insert(&mut self, path: &str, is_dir: bool) -> (id: u32)
        requires
            old(self).wf(),
            old(self).entries@.len() < u32::MAX,
            insertable(path.spec_bytes(), is_dir),
        ensures
            final(self).wf(),
            id as int == old(self).entries@.len(),
            final(self).entries@ == old(self).entries@.push(final(self).entries@[id as int]),
            is_new_entry(final(self).entries@[id as int], path@, is_dir, 0, 0, 0, 0),
            final(self).path_to_id@ == old(self).path_to_id@.insert(
                fnv1a_spec(path.spec_bytes()),
                id,
            ),
            final(self).ext_keys() == if is_dir {
                old(self).ext_keys()
            } else {
                old(self).ext_keys().insert(ext_chars(final(self).entries@[id as int]))
            },
    {
        self.insert_with_metadata(path, is_dir, 0, 0, 0, 0)
    }

    pub fn insert_with_metadata(
        &mut self,
        path: &str,
        is_dir: bool,
        size: u64,
        modified: i64,
        created: i64,
        accessed: i64,
    ) -> (id: u32)
        requires
            old(self).wf(),
            old(self).entries@.len() < u32::MAX,
            insertable(path.spec_bytes(), is_dir),
        ensures
            final(self).wf(),
            id as int == old(self).entries@.len(),
            final(self).entries@ == old(self).entries@.push(final(self).entries@[id as int]),
            is_new_entry(
                final(self).entries@[id as int],
                path@,
                is_dir,
                size,
                modified,
                created,
                accessed,
            ),
            final(self).path_to_id@ == old(self).path_to_id@.insert(
                fnv1a_spec(path.spec_bytes()),
                id,
            ),
            final(self).ext_keys() == if is_dir {
                old(self).ext_keys()
            } else {
                old(self).ext_keys().insert(ext_chars(final(self).entries@[id as int]))
            },
    {
        let ghost old_es = self.entries@;
        let ghost old_tri = self.trigrams@;
        let ghost old_pre = self.prefix_first_byte@;
        let ghost old_t = self.by_ext@;
        let ghost old_keys = self.ext_keys();
        assert(old_keys == old_t_keys(old_t));
        let id = self.entries.len() as u32;
        let pb = path.as_bytes();
        proof {
            lemma_last_index_of(pb@, 47u8);
            assert(pb@.len() == pb.len());
        }
        let name_off: u16 = match rfind_byte(pb, 47u8) {
            Some(i) => ((i + 1) % 65536) as u16,
            None => 0,
        };
        let ext_off: u16 = if is_dir {
            0
        } else {
            let name_slice = &pb[name_off as usize..pb.len()];
            match rfind_byte(name_slice, 46u8) {
                Some(d) => {
                    proof {
                        lemma_last_index_of(name_slice@, 46u8);
                    }
                    ((name_off as usize + d + 1) % 65536) as u16
                },
                None => 0,
            }
        };
        let entry = Entry {
            path: path.to_owned(),
            name_off,
            ext_off,
            is_dir,
            size,
            modified,
            created,
            accessed,
        };
        assert(is_new_entry(entry, path@, is_dir, size, modified, created, accessed));
        let path_hash = fnv1a_64(pb);
        let ext_string: Option<String> = if is_dir {
            None
        } else {
            Some(entry.extension().to_owned())
        };
        let nl = to_lowercase(entry.name());
        let ghost e = entry;
        self.entries.push(entry);
        self.path_to_id.insert(path_hash, id);
        let ghost new_es = self.entries@;
        proof {
            assert(new_es[id as int] == e);
            assert forall|x: int| 0 <= x < old_es.len() implies new_es[x] == old_es[x] by {}
            assert forall|h: u64| #[trigger] self.path_to_id@.contains_key(h) implies (
            self.path_to_id@[h] as int) < new_es.len() && fnv1a_spec(
                path_bytes(new_es[self.path_to_id@[h] as int]),
            ) == h by {
                if h != path_hash {
                    assert(new_es[self.path_to_id@[h] as int] == old_es[self.path_to_id@[h] as int]);
                }
            }
        }
        match ext_string {
            Some(ext) => {
                self.ext_push(ext.as_str(), id);
                proof {
                    lemma_ext_table_push(old_t, self.by_ext@, old_es, new_es, ext@, id);
                    let nt = self.by_ext@;
                    assert forall|e: Seq<char>| #[trigger] self.ext_keys().contains(e) <==> old_keys.insert(
                        ext@,
                    ).contains(e) by {
                        if self.ext_keys().contains(e) {
                            let i = choose|i: int| 0 <= i < nt.len() && nt[i].0@ == e;
                            if i < old_t.len() {
                                assert(nt[i].0@ == old_t[i].0@);
                            } else {
                                assert(nt[i].0@ == ext@);
                            }
                        }
                        if old_keys.contains(e) {
                            let i = choose|i: int| 0 <= i < old_t.len() && old_t[i].0@ == e;
                            assert(nt[i].0@ == old_t[i].0@);
                        }
                        if e == ext@ {
                            if exists|i: int| 0 <= i < old_t.len() && old_t[i].0@ == ext@ {
                                let i = choose|i: int| 0 <= i < old_t.len() && old_t[i].0@ == ext@;
                                assert(nt[i].0@ == old_t[i].0@);
                            } else {
                                assert(nt[old_t.len() as int].0@ == ext@);
                            }
                        }
                    }
                    assert(self.ext_keys() =~= old_keys.insert(ext@));
                }
            },
            None => {
                proof {
                    lemma_ext_table_push(old_t, self.by_ext@, old_es, new_es, Seq::empty(), id);
                }
            },
        }
        let nlb = nl.as_str().as_bytes();
        assert(nlb@ == lowered_name(new_es[id as int]));
        let ghost mid_t = self.by_ext@;
        let ghost mid_p = self.path_to_id@;
        proof {
            assert forall|x: int, t: u32| 0 <= x < id implies #[trigger] tri_rel(old_es)(x, t) == tri_rel(new_es)(x, t) by {
                assert(new_es[x] == old_es[x]);
            }
            assert forall|x: int, b: u8| 0 <= x < id implies #[trigger] first_rel(old_es)(x, b) == first_rel(new_es)(x, b) by {
                assert(new_es[x] == old_es[x]);
            }
            lemma_postings_transfer(old_tri, id as int, tri_rel(old_es), tri_rel(new_es));
            lemma_postings_transfer(old_pre, id as int, first_rel(old_es), first_rel(new_es));
        }
        add_name_postings(&mut self.trigrams, &mut self.prefix_first_byte, Ghost(new_es), id, nlb);
        id
    }
}

/// Adds the new last id `id` to the trigram lists and the first-byte list of its lower-cased
/// name `nlb`.
fn add_name_postings(
    trigrams: &mut HashMap<u32, Vec<u32>>,
    prefix_first_byte: &mut HashMap<u8, Vec<u32>>,
    Ghost(es): Ghost<Seq<Entry>>,
    id: u32,
    nlb: &[u8],
)
    requires
        (id as int) < es.len(),
        id < u32::MAX,
        nlb@ == lowered_name(es[id as int]),
        postings_sound(old(trigrams)@, id as int, tri_rel(es)),
        postings_sound(old(prefix_first_byte)@, id as int, first_rel(es)),
    ensures
        postings_sound(final(trigrams)@, id + 1, tri_rel(es)),
        postings_sound(final(prefix_first_byte)@, id + 1, first_rel(es)),
{
    let ghost old_tri = trigrams@;
    let ghost old_pre = prefix_first_byte@;
    let tris = unique_trigrams(nlb);
    let mut k: usize = 0;
    proof {
        lemma_pushed_on_empty(old_tri, id);
        assert(tris@.subrange(0, 0).to_set() =~= Set::<u32>::empty());
    }
    while k < tris.len()
        invariant
            prefix_first_byte@ == old_pre,
            strictly_increasing(tris@),
            k <= tris@.len(),
            pushed_on(old_tri, trigrams@, tris@.subrange(0, k as int).to_set(), id),
            obeys_key_model::<u32>(),
        decreases tris.len() - k,
    {
        let ghost mid = trigrams@;
        proof {
            assert(!tris@.subrange(0, k as int).to_set().contains(tris@[k as int])) by {
                if tris@.subrange(0, k as int).to_set().contains(tris@[k as int]) {
                    let j = choose|j: int| 0 <= j < k && tris@.subrange(0, k as int)[j] == tris@[k as int];
                    assert(tris@[j] < tris@[k as int]);
                }
            }
        }
        map_push(trigrams, tris[k], id);
        proof {
            lemma_pushed_on_step(
                old_tri,
                mid,
                trigrams@,
                tris@.subrange(0, k as int).to_set(),
                tris@[k as int],
                id,
            );
            lemma_prefix_to_set_step(tris@, k as int);
        }
        k += 1;
    }
    proof {
        assert(tris@.subrange(0, k as int) =~= tris@);
        let keys = tris@.to_set();
        assert forall|t: u32| #[trigger] tri_rel(es)(id as int, t) <==> keys.contains(t) by {}
        lemma_postings_push(
            old_tri,
            trigrams@,
            id as int,
            tri_rel(es),
            tri_rel(es),
            keys,
        );
    }
    if nlb.len() > 0 {
        let ghost mid = prefix_first_byte@;
        proof {
            lemma_pushed_on_empty(old_pre, id);
        }
        map_push(prefix_first_byte, nlb[0], id);
        proof {
            lemma_pushed_on_step(
                old_pre,
                mid,
                prefix_first_byte@,
                Set::<u8>::empty(),
                nlb@[0],
                id,
            );
            let keys = Set::<u8>::empty().insert(nlb@[0]);
            assert forall|b: u8| #[trigger] first_rel(es)(id as int, b) <==> keys.contains(b) by {}
            lemma_postings_push(
                old_pre,
                prefix_first_byte@,
                id as int,
                first_rel(es),
                first_rel(es),
                keys,
            );
        }
    } else {
        proof {
            lemma_pushed_on_empty(old_pre, id);
            let keys = Set::<u8>::empty();
            assert forall|b: u8| #[trigger] first_rel(es)(id as int, b) <==> keys.contains(b) by {}
            lemma_postings_push(
                old_pre,
                prefix_first_byte@,
                id as int,
                first_rel(es),
                first_rel(es),
                keys,
            );
        }
    }
}

/// The extensions listed in an extension table.
pub open spec fn old_t_keys(t: Seq<(String, Vec<u32>)>) -> Set<Seq<char>> {
    Set::new(|e: Seq<char>| exists|i: int| 0 <= i < t.len() && t[i].0@ == e)
}

/// `s` with its element at `i` replaced by its last element, then shortened by one (what
/// `Vec::swap_remove` does).
pub open spec fn swap_removed<A>(s: Seq<A>, i: int) -> Seq<A> {
    s.update(i, s.last()).drop_last()
}

/// The extension table after dropping id `id` and renaming the last id to `id`.
proof fn lemma_ext_table_swap_remove(
    old_t: Seq<(String, Vec<u32>)>,
    new_t: Seq<(String, Vec<u32>)>,
    old_es: Seq<Entry>,
    id: int,
)
    requires
        ext_table_sound(old_t, old_es),
        0 <= id < old_es.len() <= u32::MAX,
        new_t.len() == old_t.len(),
        forall|i: int| 0 <= i < new_t.len() ==> #[trigger] new_t[i].0@ == old_t[i].0@,
        forall|i: int| 0 <= i < new_t.len() ==> strictly_increasing(#[trigger] new_t[i].1@),
        forall|i: int, y: u32|
            0 <= i < new_t.len() ==> (#[trigger] new_t[i].1@.contains(y) <==> ((old_t[i].1@.contains(y)
                && y as int != id && y as int != old_es.len() - 1) || (id < old_es.len() - 1 && y as int
                == id && !old_es[old_es.len() - 1].is_dir && ext_chars(old_es[old_es.len() - 1])
                == old_t[i].0@))),
    ensures
        ext_table_sound(new_t, swap_removed(old_es, id)),
{
    let n = old_es.len() as int;
    let new_es = swap_removed(old_es, id);
    assert forall|i: int, j: int| 0 <= i < j < new_t.len() implies new_t[i].0@ != new_t[j].0@ by {
        assert(new_t[i].0@ == old_t[i].0@ && new_t[j].0@ == old_t[j].0@);
    }
    assert forall|i: int, j: int|
        0 <= i < new_t.len() && 0 <= j < new_t[i].1@.len() implies (#[trigger] new_t[i].1@[j] as int)
        < new_es.len() && !new_es[new_t[i].1@[j] as int].is_dir && ext_chars(
        new_es[new_t[i].1@[j] as int],
    ) == new_t[i].0@ by {
        let y = new_t[i].1@[j];
        assert(new_t[i].1@.contains(y));
        assert(new_t[i].0@ == old_t[i].0@);
        if y as int != id {
            let k = choose|k: int| 0 <= k < old_t[i].1@.len() && old_t[i].1@[k] == y;
            assert(old_t[i].1@[k] == y);
            assert(new_es[y as int] == old_es[y as int]);
        } else {
            assert(new_es[id] == old_es[n - 1]);
        }
    }
    assert forall|x: int| 0 <= x < new_es.len() && !(#[trigger] new_es[x]).is_dir implies exists|i: int|
        0 <= i < new_t.len() && new_t[i].0@ == ext_chars(new_es[x]) && new_t[i].1@.contains(
            x as u32,
        ) by {
        if x != id {
            assert(new_es[x] == old_es[x]);
            assert(!old_es[x].is_dir);
            let i = choose|i: int|
                0 <= i < old_t.len() && old_t[i].0@ == ext_chars(old_es[x]) && old_t[i].1@.contains(
                    x as u32,
                );
            assert(new_t[i].0@ == old_t[i].0@);
            assert(new_t[i].1@.contains(x as u32));
        } else {
            assert(new_es[x] == old_es[n - 1]);
            assert(!old_es[n - 1].is_dir);
            let i = choose|i: int|
                0 <= i < old_t.len() && old_t[i].0@ == ext_chars(old_es[n - 1])
                    && old_t[i].1@.contains((n - 1) as u32);
            assert(new_t[i].0@ == old_t[i].0@);
            assert(new_t[i].1@.contains(x as u32));
        }
    }
}

impl Index {
    /// Drops `id` from the list of extension `ext`.
    fn ext_remove_id(&mut self, ext: &str, id: u32)
        requires
            forall|i: int, j: int|
                0 <= i < j < old(self).by_ext@.len() ==> old(self).by_ext@[i].0@ != old(self).by_ext@[j].0@,
            forall|i: int| 0 <= i < old(self).by_ext@.len() ==> strictly_increasing(#[trigger] old(self).by_ext@[i].1@),
        ensures
            final(self).entries == old(self).entries,
            final(self).path_to_id == old(self).path_to_id,
            final(self).trigrams == old(self).trigrams,
            final(self).prefix_first_byte == old(self).prefix_first_byte,
            final(self).by_ext@.len() == old(self).by_ext@.len(),
            forall|i: int| 0 <= i < final(self).by_ext@.len() ==> #[trigger] final(self).by_ext@[i].0@ == old(self).by_ext@[i].0@,
            forall|i: int| 0 <= i < final(self).by_ext@.len() ==> strictly_increasing(#[trigger] final(self).by_ext@[i].1@),
            forall|i: int, y: u32|
                0 <= i < final(self).by_ext@.len() ==> (#[trigger] final(self).by_ext@[i].1@.contains(y) <==> (
                old(self).by_ext@[i].1@.contains(y) && !(y == id && old(self).by_ext@[i].0@ == ext@))),
    {
        match ext_find(&self.by_ext, &self.ext_slots, ext) {
            Some(i) => {
                list_remove_id(&mut self.by_ext[i].1, id);
            },
            None => {},
        }
    }

    /// Renames `old_id` to `new_id` in the list of extension `ext`.
    fn ext_replace_id(&mut self, ext: &str, old_id: u32, new_id: u32)
        requires
            forall|i: int, j: int|
                0 <= i < j < old(self).by_ext@.len() ==> old(self).by_ext@[i].0@ != old(self).by_ext@[j].0@,
            forall|i: int| 0 <= i < old(self).by_ext@.len() ==> strictly_increasing(#[trigger] old(self).by_ext@[i].1@),
            forall|i: int| 0 <= i < old(self).by_ext@.len() ==> !(#[trigger] old(self).by_ext@[i].1@).contains(new_id),
        ensures
            final(self).entries == old(self).entries,
            final(self).path_to_id == old(self).path_to_id,
            final(self).trigrams == old(self).trigrams,
            final(self).prefix_first_byte == old(self).prefix_first_byte,
            final(self).by_ext@.len() == old(self).by_ext@.len(),
            forall|i: int| 0 <= i < final(self).by_ext@.len() ==> #[trigger] final(self).by_ext@[i].0@ == old(self).by_ext@[i].0@,
            forall|i: int| 0 <= i < final(self).by_ext@.len() ==> strictly_increasing(#[trigger] final(self).by_ext@[i].1@),
            forall|i: int, y: u32|
                0 <= i < final(self).by_ext@.len() ==> (#[trigger] final(self).by_ext@[i].1@.contains(y) <==> if old(self).by_ext@[i].0@ == ext@
                    && old(self).by_ext@[i].1@.contains(old_id) {
                    (old(self).by_ext@[i].1@.contains(y) && y != old_id) || y == new_id
                } else {
                    old(self).by_ext@[i].1@.contains(y)
                }),
    {
        match ext_find(&self.by_ext, &self.ext_slots, ext) {
            Some(i) => {
                list_replace_id(&mut self.by_ext[i].1, old_id, new_id);
            },
            None => {},
        }
    }
}

/// `path` is in the index: its hash is mapped to an entry with exactly this path.
pub open spec fn path_hit(m: Map<u64, u32>, es: Seq<Entry>, path: Seq<char>) -> bool {
    let h = fnv1a_spec(encode_utf8(path));
    m.contains_key(h) && es[m[h] as int].path@ == path
}

/// The path map after removing the entry of `path` at `id` and moving the last entry to `id`.
pub open spec fn path_map_after_remove(m: Map<u64, u32>, es: Seq<Entry>, path: Seq<char>) -> Map<
    u64,
    u32,
> {
    let h = fnv1a_spec(encode_utf8(path));
    let id = m[h];
    if (id as int) < es.len() - 1 {
        m.remove(h).insert(fnv1a_spec(path_bytes(es.last())), id)
    } else {
        m.remove(h)
    }
}

/// The first byte of `s`, as a list of zero or one key.
fn first_byte_keys(s: &[u8]) -> (r: Vec<u8>)
    ensures
        r@.no_duplicates(),
        forall|b: u8| r@.contains(b) <==> (s@.len() > 0 && s@[0] == b),
{
    let mut r: Vec<u8> = Vec::new();
    if s.len() > 0 {
        r.push(s[0]);
        proof {
            assert forall|b: u8| r@.contains(b) <==> (s@.len() > 0 && s@[0] == b) by {
                if b == s@[0] {
                    assert(r@[0] == b);
                }
            }
        }
    }
    r
}

pub proof fn lemma_strictly_increasing_no_dup(s: Seq<u32>)
    requires
        strictly_increasing(s),
    ensures
        s.no_duplicates(),
{
    assert forall|i: int, j: int| 0 <= i < s.len() && 0 <= j < s.len() && i != j implies s[i] != s[j] by {
        if i < j {
        } else {
        }
    }
}

impl Index {
    pub fn remove(&mut self, path: &str) -> (r: bool)
        requires
            old(self).wf(),
        ensures
            final(self).wf(),
            r == path_hit(old(self).path_to_id@, old(self).entries@, path@),
            r ==> final(self).entries@ == swap_removed(
                old(self).entries@,
                old(self).path_to_id@[fnv1a_spec(path.spec_bytes())] as int,
            ),
            r ==> final(self).path_to_id@ == path_map_after_remove(
                old(self).path_to_id@,
                old(self).entries@,
                path@,
            ),
            !r ==> final(self).entries@ == old(self).entries@ && final(self).path_to_id@ == old(
                self,
            ).path_to_id@,
            final(self).ext_keys() == old(self).ext_keys(),
    {
        let ghost old_es = self.entries@;
        let ghost old_keys = self.ext_keys();
        let ghost tri0 = self.trigrams@;
        let ghost pre0 = self.prefix_first_byte@;
        let ghost t0 = self.by_ext@;
        let ghost pm0 = self.path_to_id@;
        let pb = path.as_bytes();
        let path_hash = fnv1a_64(pb);
        let id = match self.path_to_id.get(&path_hash) {
            Some(v) => *v,
            None => {
                return false;
            },
        };
        if !str_eq(self.entries[id as usize].path.as_str(), path) {
            return false;
        }
        let ghost n = old_es.len() as int;
        self.path_to_id.remove(&path_hash);
        let is_dir = self.entries[id as usize].is_dir;
        let nl = to_lowercase(self.entries[id as usize].name());
        let nlb = nl.as_str().as_bytes();
        let tr = unique_trigrams(nlb);
        map_remove_id_all(&mut self.trigrams, &tr, id);
        let pk = first_byte_keys(nlb);
        map_remove_id_all(&mut self.prefix_first_byte, &pk, id);
        let ghost mut ext_r: Seq<char> = Seq::empty();
        if !is_dir {
            let ext = self.entries[id as usize].extension().to_owned();
            proof {
                ext_r = ext@;
            }
            self.ext_remove_id(ext.as_str(), id);
        }
        let ghost tri1 = self.trigrams@;
        let ghost pre1 = self.prefix_first_byte@;
        let ghost t1 = self.by_ext@;
        proof {
            lemma_postings_removed(tri0, tri1, n, id as int, tri_rel(old_es), tr@.to_set());
            lemma_postings_removed(pre0, pre1, n, id as int, first_rel(old_es), pk@.to_set());
            lemma_ext_after_remove(t0, t1, old_es, id as int, ext_r);
        }
        let old_last_id = (self.entries.len() - 1) as u32;
        self.entries.swap_remove(id as usize);
        let ghost new_es = self.entries@;
        assert(new_es == swap_removed(old_es, id as int));
        let ghost mut ts_g: Seq<u32> = Seq::empty();
        let ghost mut sk_g: Seq<u8> = Seq::empty();
        let ghost mut ext_s: Seq<char> = Seq::empty();
        if id != old_last_id {
            let swapped_hash = fnv1a_64(self.entries[id as usize].path.as_str().as_bytes());
            self.path_to_id.insert(swapped_hash, id);
            let snl = to_lowercase(self.entries[id as usize].name());
            let snlb = snl.as_str().as_bytes();
            let ts = unique_trigrams(snlb);
            proof {
                lemma_strictly_increasing_no_dup(ts@);
                ts_g = ts@;
            }
            map_replace_id_all(&mut self.trigrams, &ts, old_last_id, id);
            let sk = first_byte_keys(snlb);
            proof {
                sk_g = sk@;
            }
            map_replace_id_all(&mut self.prefix_first_byte, &sk, old_last_id, id);
            if !self.entries[id as usize].is_dir {
                let sext = self.entries[id as usize].extension().to_owned();
                proof {
                    ext_s = sext@;
                }
                self.ext_replace_id(sext.as_str(), old_last_id, id);
            }
        }
        proof {
            let last = n - 1;
            assert(old_es[last] == old_es.last());
            if (id as int) < last {
                assert(new_es[id as int] == old_es[last]);
            }
            assert forall|x: int, k: u32| 0 <= x < n - 1 && x != id implies #[trigger] tri_rel(new_es)(x, k)
                == tri_rel(old_es)(x, k) by {
                assert(new_es[x] == old_es[x]);
            }
            assert forall|x: int, k: u8| 0 <= x < n - 1 && x != id implies #[trigger] first_rel(new_es)(x, k)
                == first_rel(old_es)(x, k) by {
                assert(new_es[x] == old_es[x]);
            }
            lemma_postings_remove_rename(
                tri0,
                tri1,
                self.trigrams@,
                n,
                id as int,
                tri_rel(old_es),
                tri_rel(new_es),
                tr@.to_set(),
                ts_g.to_set(),
            );
            lemma_postings_remove_rename(
                pre0,
                pre1,
                self.prefix_first_byte@,
                n,
                id as int,
                first_rel(old_es),
                first_rel(new_es),
                pk@.to_set(),
                sk_g.to_set(),
            );
            lemma_ext_after_rename(t0, t1, self.by_ext@, old_es, id as int, ext_s);
            lemma_path_map_after_remove(pm0, self.path_to_id@, old_es, id as int, path_hash);
            let t2 = self.by_ext@;
            assert forall|e: Seq<char>| #[trigger] self.ext_keys().contains(e) <==> old_keys.contains(e) by {
                if self.ext_keys().contains(e) {
                    let i = choose|i: int| 0 <= i < t2.len() && t2[i].0@ == e;
                    assert(t2[i].0@ == t0[i].0@);
                }
                if old_keys.contains(e) {
                    let i = choose|i: int| 0 <= i < t0.len() && t0[i].0@ == e;
                    assert(t2[i].0@ == t0[i].0@);
                }
            }
            assert(self.ext_keys() =~= old_keys);
        }
        true
    }
}

/// The extension table after dropping id `id` from the list of its extension.
proof fn lemma_ext_after_remove(
    t0: Seq<(String, Vec<u32>)>,
    t1: Seq<(String, Vec<u32>)>,
    es: Seq<Entry>,
    id: int,
    ext_r: Seq<char>,
)
    requires
        ext_table_sound(t0, es),
        0 <= id < es.len() <= u32::MAX,
        es[id].is_dir ==> t1 == t0,
        !es[id].is_dir ==> {
            &&& ext_r == ext_chars(es[id])
            &&& t1.len() == t0.len()
            &&& forall|i: int| 0 <= i < t1.len() ==> #[trigger] t1[i].0@ == t0[i].0@
            &&& forall|i: int| 0 <= i < t1.len() ==> strictly_increasing(#[trigger] t1[i].1@)
            &&& forall|i: int, y: u32|
                0 <= i < t1.len() ==> (#[trigger] t1[i].1@.contains(y) <==> (t0[i].1@.contains(y)
                    && !(y == id as u32 && t0[i].0@ == ext_r)))
        },
    ensures
        t1.len() == t0.len(),
        forall|i: int| 0 <= i < t1.len() ==> #[trigger] t1[i].0@ == t0[i].0@,
        forall|i: int| 0 <= i < t1.len() ==> strictly_increasing(#[trigger] t1[i].1@),
        forall|i: int| 0 <= i < t1.len() ==> !(#[trigger] t1[i].1@).contains(id as u32),
        forall|i: int, y: u32|
            0 <= i < t1.len() ==> (#[trigger] t1[i].1@.contains(y) <==> (t0[i].1@.contains(y) && y
                != id as u32)),
        forall|i: int, j: int| 0 <= i < j < t1.len() ==> t1[i].0@ != t1[j].0@,
{
    assert forall|i: int, y: u32| 0 <= i < t1.len() implies (#[trigger] t1[i].1@.contains(y) <==> (
    t0[i].1@.contains(y) && y != id as u32)) by {
        if t0[i].1@.contains(id as u32) {
            let j = choose|j: int| 0 <= j < t0[i].1@.len() && t0[i].1@[j] == id as u32;
            assert(t0[i].1@[j] == id as u32);
        }
    }
    assert forall|i: int| 0 <= i < t1.len() implies !(#[trigger] t1[i].1@).contains(id as u32) by {
        assert(t1[i].1@.contains(id as u32) <==> (t0[i].1@.contains(id as u32) && id as u32 != id as u32));
    }
    assert forall|i: int, j: int| 0 <= i < j < t1.len() implies t1[i].0@ != t1[j].0@ by {
        assert(t1[i].0@ == t0[i].0@ && t1[j].0@ == t0[j].0@);
    }
}

/// The extension table after also renaming the last id to `id` in the list of its extension.
proof fn lemma_ext_after_rename(
    t0: Seq<(String, Vec<u32>)>,
    t1: Seq<(String, Vec<u32>)>,
    t2: Seq<(String, Vec<u32>)>,
    es: Seq<Entry>,
    id: int,
    ext_s: Seq<char>,
)
    requires
        ext_table_sound(t0, es),
        0 <= id < es.len() <= u32::MAX,
        t1.len() == t0.len(),
        forall|i: int| 0 <= i < t1.len() ==> #[trigger] t1[i].0@ == t0[i].0@,
        forall|i: int| 0 <= i < t1.len() ==> strictly_increasing(#[trigger] t1[i].1@),
        forall|i: int, y: u32|
            0 <= i < t1.len() ==> (#[trigger] t1[i].1@.contains(y) <==> (t0[i].1@.contains(y) && y
                != id as u32)),
        (id == es.len() - 1 || es[es.len() - 1].is_dir) ==> t2 == t1,
        (id < es.len() - 1 && !es[es.len() - 1].is_dir) ==> {
            &&& ext_s == ext_chars(es[es.len() - 1])
            &&& t2.len() == t1.len()
            &&& forall|i: int| 0 <= i < t2.len() ==> #[trigger] t2[i].0@ == t1[i].0@
            &&& forall|i: int| 0 <= i < t2.len() ==> strictly_increasing(#[trigger] t2[i].1@)
            &&& forall|i: int, y: u32|
                0 <= i < t2.len() ==> (#[trigger] t2[i].1@.contains(y) <==> if t1[i].0@ == ext_s
                    && t1[i].1@.contains((es.len() - 1) as u32) {
                    (t1[i].1@.contains(y) && y != (es.len() - 1) as u32) || y == id as u32
                } else {
                    t1[i].1@.contains(y)
                })
        },
    ensures
        ext_table_sound(t2, swap_removed(es, id)),
        t2.len() == t0.len(),
        forall|i: int| 0 <= i < t2.len() ==> #[trigger] t2[i].0@ == t0[i].0@,
{
    let n = es.len() as int;
    let last = n - 1;
    assert forall|i: int| 0 <= i < t2.len() implies #[trigger] t2[i].0@ == t0[i].0@ by {
        assert(t1[i].0@ == t0[i].0@);
    }
    assert forall|i: int| 0 <= i < t2.len() implies strictly_increasing(#[trigger] t2[i].1@) by {
        assert(strictly_increasing(t1[i].1@));
    }
    assert forall|i: int, y: u32| 0 <= i < t2.len() implies (#[trigger] t2[i].1@.contains(y) <==> ((
    t0[i].1@.contains(y) && y as int != id && y as int != last) || (id < last && y as int == id
        && !es[last].is_dir && ext_chars(es[last]) == t0[i].0@))) by {
        assert(t1[i].0@ == t0[i].0@);
        assert(t1[i].1@.contains(y) <==> (t0[i].1@.contains(y) && y != id as u32));
        if t0[i].1@.contains(last as u32) {
            let j = choose|j: int| 0 <= j < t0[i].1@.len() && t0[i].1@[j] == last as u32;
            assert(t0[i].1@[j] == last as u32);
        }
        if id < last && !es[last].is_dir && ext_chars(es[last]) == t0[i].0@ {
            let i2 = choose|i2: int|
                0 <= i2 < t0.len() && t0[i2].0@ == ext_chars(es[last]) && t0[i2].1@.contains(
                    last as u32,
                );
            assert(i2 == i);
            assert(t1[i].1@.contains(last as u32) <==> (t0[i].1@.contains(last as u32) && last as u32
                != id as u32));
        }
        if id == last || es[last].is_dir {
            assert(t2[i] == t1[i]);
        }
    }
    lemma_ext_table_swap_remove(t0, t2, es, id);
}

/// The path map after removing the hash of the removed path and pointing the moved entry's
/// hash at its new id.
proof fn lemma_path_map_after_remove(
    pm0: Map<u64, u32>,
    pm2: Map<u64, u32>,
    es: Seq<Entry>,
    id: int,
    h: u64,
)
    requires
        path_map_sound(pm0, es),
        0 <= id < es.len() <= u32::MAX,
        pm0.contains_key(h),
        pm0[h] as int == id,
        id == es.len() - 1 ==> pm2 == pm0.remove(h),
        id < es.len() - 1 ==> pm2 == pm0.remove(h).insert(fnv1a_spec(path_bytes(es[es.len() - 1])), id as u32),
    ensures
        path_map_sound(pm2, swap_removed(es, id)),
{
    let new_es = swap_removed(es, id);
    let last = es.len() - 1;
    assert forall|k: u64| #[trigger] pm2.contains_key(k) implies (pm2[k] as int) < new_es.len()
        && fnv1a_spec(path_bytes(new_es[pm2[k] as int])) == k by {
        if id < last && k == fnv1a_spec(path_bytes(es[last])) {
            assert(new_es[id] == es[last]);
        } else {
            let v = pm0[k] as int;
            assert(k != h);
            assert(fnv1a_spec(path_bytes(es[v])) == k);
            if v == last {
                assert(id < last);
            }
            assert(v != id);
            assert(new_es[v] == es[v]);
        }
    }
}

/// `x` lies in the list of every key of `keys` that the map holds, and the map holds one of them.
pub open spec fn in_all_lists(m: Map<u32, Vec<u32>>, keys: Seq<u32>, x: u32) -> bool {
    &&& exists|i: int| 0 <= i < keys.len() && m.contains_key(#[trigger] keys[i])
    &&& forall|i: int| 0 <= i < keys.len() && m.contains_key(#[trigger] keys[i]) ==> m[keys[i]]@.contains(x)
}

/// Intersect the sorted lists of the given keys (keys the map lacks are skipped); the ids that
/// appear in all of them, in increasing order.
pub fn intersect_trigram_lists(trigrams: &HashMap<u32, Vec<u32>>, keys: &[u32]) -> (r: Vec<u32>)
    requires
        forall|k: u32| #[trigger] trigrams@.contains_key(k) ==> strictly_increasing(trigrams@[k]@),
    ensures
        strictly_increasing(r@),
        forall|x: u32| r@.contains(x) <==> in_all_lists(trigrams@, keys@, x),
{
    let ghost m = trigrams@;
    let mut lists: Vec<&Vec<u32>> = Vec::new();
    let ghost mut from: Seq<int> = Seq::empty();
    let mut q: usize = 0;
    while q < keys.len()
        invariant
            q <= keys@.len(),
            m == trigrams@,
            lists@.len() == from.len(),
            forall|i: int| 0 <= i < from.len() ==> 0 <= #[trigger] from[i] < q && m.contains_key(keys@[from[i]])
                && *lists@[i] == m[keys@[from[i]]],
            forall|j: int| 0 <= j < q && m.contains_key(#[trigger] keys@[j]) ==> exists|i: int|
                0 <= i < from.len() && from[i] == j,
        decreases keys.len() - q,
    {
        let ghost from0 = from;
        match trigrams.get(&keys[q]) {
            Some(l) => {
                lists.push(l);
                proof {
                    from = from.push(q as int);
                }
            },
            None => {},
        }
        proof {
            assert forall|j: int| 0 <= j < q + 1 && m.contains_key(#[trigger] keys@[j]) implies exists|i: int|
                0 <= i < from.len() && from[i] == j by {
                if j == q {
                    assert(from[from.len() - 1] == j);
                } else {
                    let i = choose|i: int| 0 <= i < from0.len() && from0[i] == j;
                    assert(from[i] == j);
                }
            }
        }
        q += 1;
    }
    let ghost ls: Seq<Seq<u32>> = Seq::new(lists@.len(), |i: int| lists@[i]@);
    proof {
        assert forall|x: u32| in_all_lists(m, keys@, x) <==> (ls.len() > 0 && in_every(ls, x)) by {
            if in_all_lists(m, keys@, x) {
                let j = choose|j: int| 0 <= j < keys@.len() && m.contains_key(#[trigger] keys@[j]);
                let i = choose|i: int| 0 <= i < from.len() && from[i] == j;
                assert forall|i2: int| 0 <= i2 < ls.len() implies (#[trigger] ls[i2]).contains(x) by {
                    assert(m.contains_key(keys@[from[i2]]));
                }
            }
            if ls.len() > 0 && in_every(ls, x) {
                assert(m.contains_key(keys@[from[0]]));
                assert forall|j: int| 0 <= j < keys@.len() && m.contains_key(#[trigger] keys@[j]) implies m[keys@[j]]@.contains(x) by {
                    let i = choose|i: int| 0 <= i < from.len() && from[i] == j;
                    assert(ls[i].contains(x));
                }
            }
        }
    }
    if lists.len() == 0 {
        return Vec::new();
    }
    let first: &Vec<u32> = lists[0];
    assert forall|i: int| 0 <= i < ls.len() implies strictly_increasing(#[trigger] ls[i]) by {
        assert(m.contains_key(keys@[from[i]]));
    }
    let mut idx: Vec<usize> = Vec::new();
    let mut z: usize = 0;
    while z < lists.len()
        invariant
            z <= lists@.len(),
            idx@.len() == z,
            forall|i: int| 0 <= i < z ==> idx@[i] == 0,
        decreases lists.len() - z,
    {
        idx.push(0);
        z += 1;
    }
    let mut result: Vec<u32> = Vec::new();
    let nl = lists.len();
    proof {
        assert(result@.len() == 0);
        assert forall|x: u32| result@.contains(x) <==> (in_every(ls, x) && exists|j: int| 0 <= j < idx@[0] && ls[0][j] == x) by {
        }
    }
    while idx[0] < first.len()
        invariant
            nl == lists@.len() == ls.len() >= 1,
            forall|i: int| 0 <= i < nl ==> #[trigger] ls[i] == lists@[i]@,
            first@ == ls[0],
            idx@.len() == nl,
            forall|i: int| 0 <= i < nl ==> strictly_increasing(#[trigger] ls[i]),
            intersect_progress(ls, idx@, result@),
        decreases first.len() - idx@[0],
    {
        let c0 = idx[0];
        let candidate = first[c0];
        let ghost idx_before = idx@;
        let mut ok = true;
        let mut i: usize = 1;
        while ok && i < nl
            invariant
                nl == lists@.len() == ls.len() >= 1,
                forall|i2: int| 0 <= i2 < nl ==> #[trigger] ls[i2] == lists@[i2]@,
                idx@.len() == nl,
                idx@[0] == c0 < ls[0].len(),
                candidate == ls[0][c0 as int],
                1 <= i <= nl,
                forall|i2: int| 0 <= i2 < nl ==> strictly_increasing(#[trigger] ls[i2]),
                forall|i2: int| 0 <= i2 < nl ==> #[trigger] idx@[i2] <= ls[i2].len(),
                forall|i2: int, j: int| 1 <= i2 < nl && 0 <= j < idx@[i2] ==> #[trigger] ls[i2][j] < candidate,
                ok ==> matched_upto(ls, idx@, i as int, candidate),
                !ok ==> !in_every(ls, candidate),
            decreases nl - i, (if ok { 1int } else { 0int }),
        {
            let li: &Vec<u32> = lists[i];
            while idx[i] < li.len() && li[idx[i]] < candidate
                invariant
                    nl == ls.len() >= 1,
                    idx@.len() == nl,
                    1 <= i < nl,
                    li@ == ls[i as int],
                    idx@[0] == c0,
                    forall|i2: int| 0 <= i2 < nl ==> #[trigger] idx@[i2] <= ls[i2].len(),
                    forall|i2: int, j: int| 1 <= i2 < nl && 0 <= j < idx@[i2] ==> #[trigger] ls[i2][j] < candidate,
                    matched_upto(ls, idx@, i as int, candidate),
                decreases li.len() - idx@[i as int],
            {
                let ghost pre = idx@;
                let v = idx[i] + 1;
                idx.set(i, v);
                proof {
                    assert forall|i2: int| 1 <= i2 < i implies #[trigger] idx@[i2] < ls[i2].len() && ls[i2][idx@[i2] as int] == candidate by {
                        assert(idx@[i2] == pre[i2]);
                        assert(pre[i2] < ls[i2].len());
                    }
                }
            }
            assert(li@ == ls[i as int]);
            if idx[i] >= li.len() || li[idx[i]] != candidate {
                proof {
                    let l = ls[i as int];
                    if l.contains(candidate) {
                        let j = choose|j: int| 0 <= j < l.len() && l[j] == candidate;
                        if j < idx@[i as int] {
                        } else if j > idx@[i as int] {
                            assert(l[idx@[i as int] as int] < l[j]);
                        }
                    }
                    assert(!ls[i as int].contains(candidate));
                }
                ok = false;
            } else {
                proof {
                    assert forall|i2: int| 1 <= i2 < i + 1 implies #[trigger] idx@[i2] < ls[i2].len() && ls[i2][idx@[i2] as int] == candidate by {
                        if i2 < i {
                            assert(idx@[i2] < ls[i2].len());
                        }
                    }
                }
                i += 1;
            }
        }
        let ghost old_result = result@;
        let ghost old_idx = idx@;
        proof {
            assert(idx_before[0] == c0);
            assert forall|j: int| 0 <= j < old_result.len() implies #[trigger] old_result[j] < candidate by {
            }
        }
        if ok {
            result.push(candidate);
            assert forall|i2: int| 0 <= i2 < nl implies #[trigger] old_idx[i2] < ls[i2].len() by {
                if i2 >= 1 {
                    assert(ls[i2][old_idx[i2] as int] == candidate);
                }
            }
            let mut w: usize = 0;
            while w < nl
                invariant
                    nl == lists@.len() == ls.len(),
                    forall|i2: int| 0 <= i2 < nl ==> #[trigger] ls[i2] == lists@[i2]@,
                    idx@.len() == nl,
                    old_idx.len() == nl,
                    w <= nl,
                    forall|i2: int| 0 <= i2 < w ==> #[trigger] idx@[i2] == old_idx[i2] + 1,
                    forall|i2: int| w <= i2 < nl ==> #[trigger] idx@[i2] == old_idx[i2],
                    forall|i2: int| 0 <= i2 < nl ==> #[trigger] old_idx[i2] < ls[i2].len(),
                decreases nl - w,
            {
                assert(lists@[w as int].len() == ls[w as int].len());
                let v = idx[w] + 1;
                idx.set(w, v);
                w += 1;
            }
            proof {
                lemma_intersect_hit(ls, old_idx, idx@, old_result, candidate);
            }
        } else {
            idx.set(0, c0 + 1);
            proof {
                lemma_intersect_miss(ls, old_idx, idx@, old_result, candidate);
            }
        }
    }
    proof {
        assert forall|x: u32| result@.contains(x) <==> in_every(ls, x) by {
            if in_every(ls, x) {
                assert(ls[0].contains(x));
            }
        }
    }
    result
}

/// The cursors of lists `1..i` stand on `candidate`.
pub open spec fn matched_upto(ls: Seq<Seq<u32>>, idx: Seq<usize>, i: int, candidate: u32) -> bool {
    forall|i2: int| 1 <= i2 < i ==> #[trigger] idx[i2] < ls[i2].len() && ls[i2][idx[i2] as int] == candidate
}

/// `x` lies in each of the lists.
pub open spec fn in_every(ls: Seq<Seq<u32>>, x: u32) -> bool {
    forall|i: int| 0 <= i < ls.len() ==> (#[trigger] ls[i]).contains(x)
}

/// Where the merge stands: cursors within their lists, every id passed over in the other lists
/// below the current candidate of the first, and `result` the increasing run of ids before the
/// first list's cursor that lie in every list.
pub open spec fn intersect_progress(ls: Seq<Seq<u32>>, idx: Seq<usize>, result: Seq<u32>) -> bool {
    &&& forall|i: int| 0 <= i < ls.len() ==> #[trigger] idx[i] <= ls[i].len()
    &&& forall|i: int, j: int|
        1 <= i < ls.len() && 0 <= j < idx[i] && idx[0] < ls[0].len() ==> #[trigger] ls[i][j] < ls[0][idx[0] as int]
    &&& strictly_increasing(result)
    &&& forall|j: int| 0 <= j < result.len() && idx[0] < ls[0].len() ==> #[trigger] result[j] < ls[0][idx[0] as int]
    &&& forall|x: u32| #[trigger] result.contains(x) <==> (in_every(ls, x) && exists|j: int| 0 <= j < idx[0] && ls[0][j] == x)
}

proof fn lemma_intersect_hit(ls: Seq<Seq<u32>>, old_idx: Seq<usize>, new_idx: Seq<usize>, old_result: Seq<u32>, candidate: u32)
    requires
        ls.len() >= 1,
        old_idx.len() == ls.len(),
        new_idx.len() == ls.len(),
        forall|i: int| 0 <= i < ls.len() ==> strictly_increasing(#[trigger] ls[i]),
        old_idx[0] < ls[0].len(),
        ls[0][old_idx[0] as int] == candidate,
        forall|i: int| 1 <= i < ls.len() ==> #[trigger] old_idx[i] < ls[i].len() && ls[i][old_idx[i] as int] == candidate,
        forall|i: int| 0 <= i < ls.len() ==> #[trigger] new_idx[i] == old_idx[i] + 1,
        forall|i: int, j: int| 1 <= i < ls.len() && 0 <= j < old_idx[i] ==> #[trigger] ls[i][j] < candidate,
        strictly_increasing(old_result),
        forall|j: int| 0 <= j < old_result.len() ==> #[trigger] old_result[j] < candidate,
        forall|x: u32| #[trigger] old_result.contains(x) <==> (in_every(ls, x) && exists|j: int| 0 <= j < old_idx[0] && ls[0][j] == x),
    ensures
        intersect_progress(ls, new_idx, old_result.push(candidate)),
{
    let r = old_result.push(candidate);
    let c0 = old_idx[0] as int;
    if c0 + 1 < ls[0].len() {
        assert(ls[0][c0] < ls[0][c0 + 1]);
    }
    assert(in_every(ls, candidate)) by {
        assert forall|i: int| 0 <= i < ls.len() implies (#[trigger] ls[i]).contains(candidate) by {
            if i == 0 {
                assert(ls[0][c0] == candidate);
            } else {
                assert(ls[i][old_idx[i] as int] == candidate);
            }
        }
    }
    assert forall|i: int, j: int|
        1 <= i < ls.len() && 0 <= j < new_idx[i] && new_idx[0] < ls[0].len() implies #[trigger] ls[i][j] < ls[0][new_idx[0] as int] by {
        if j < old_idx[i] {
        } else {
            assert(ls[i][old_idx[i] as int] == candidate);
        }
    }
    assert forall|j: int| 0 <= j < r.len() && new_idx[0] < ls[0].len() implies #[trigger] r[j] < ls[0][new_idx[0] as int] by {
        if j < old_result.len() {
            assert(r[j] == old_result[j]);
        }
    }
    assert forall|x: u32| #[trigger] r.contains(x) <==> (in_every(ls, x) && exists|j: int| 0 <= j < new_idx[0] && ls[0][j] == x) by {
        if r.contains(x) {
            let k = choose|k: int| 0 <= k < r.len() && r[k] == x;
            if k < old_result.len() {
                assert(old_result[k] == x);
                assert(old_result.contains(x));
            } else {
                assert(ls[0][c0] == x);
            }
        }
        if in_every(ls, x) && exists|j: int| 0 <= j < new_idx[0] && ls[0][j] == x {
            let j = choose|j: int| 0 <= j < new_idx[0] && ls[0][j] == x;
            if j < c0 {
                assert(old_result.contains(x));
                let k = choose|k: int| 0 <= k < old_result.len() && old_result[k] == x;
                assert(r[k] == x);
            } else {
                assert(r[old_result.len() as int] == x);
            }
        }
    }
}

proof fn lemma_intersect_miss(ls: Seq<Seq<u32>>, old_idx: Seq<usize>, new_idx: Seq<usize>, result: Seq<u32>, candidate: u32)
    requires
        ls.len() >= 1,
        old_idx.len() == ls.len(),
        forall|i: int| 0 <= i < ls.len() ==> strictly_increasing(#[trigger] ls[i]),
        forall|i: int| 0 <= i < ls.len() ==> #[trigger] old_idx[i] <= ls[i].len(),
        old_idx[0] < ls[0].len(),
        ls[0][old_idx[0] as int] == candidate,
        new_idx.len() == ls.len(),
        new_idx[0] == old_idx[0] + 1,
        forall|i: int| 1 <= i < ls.len() ==> #[trigger] new_idx[i] == old_idx[i],
        forall|i: int, j: int| 1 <= i < ls.len() && 0 <= j < old_idx[i] ==> #[trigger] ls[i][j] < candidate,
        !in_every(ls, candidate),
        strictly_increasing(result),
        forall|j: int| 0 <= j < result.len() ==> #[trigger] result[j] < candidate,
        forall|x: u32| #[trigger] result.contains(x) <==> (in_every(ls, x) && exists|j: int| 0 <= j < old_idx[0] && ls[0][j] == x),
    ensures
        intersect_progress(ls, new_idx, result),
{
    let c0 = old_idx[0] as int;
    if c0 + 1 < ls[0].len() {
        assert(ls[0][c0] < ls[0][c0 + 1]);
    }
    assert forall|i: int, j: int|
        1 <= i < ls.len() && 0 <= j < new_idx[i] && new_idx[0] < ls[0].len() implies #[trigger] ls[i][j] < ls[0][new_idx[0] as int] by {
        assert(new_idx[i] == old_idx[i]);
    }
    assert forall|x: u32| #[trigger] result.contains(x) <==> (in_every(ls, x) && exists|j: int| 0 <= j < new_idx[0] && ls[0][j] == x) by {
        if result.contains(x) {
            let j = choose|j: int| 0 <= j < old_idx[0] && ls[0][j] == x;
            assert(0 <= j < new_idx[0] && ls[0][j] == x);
        }
        if in_every(ls, x) && exists|j: int| 0 <= j < new_idx[0] && ls[0][j] == x {
            let j = choose|j: int| 0 <= j < new_idx[0] && ls[0][j] == x;
            if j == c0 {
                assert(false);
            }
            assert(0 <= j < old_idx[0] && ls[0][j] == x);
        }
    }
}

/// The lower-cased file name of `e` holds `needle` somewhere.
pub open spec fn name_has(e: Entry, needle: Seq<u8>) -> bool {
    seq_contains(lowered_name(e), needle)
}

/// The lower-cased file name of `e` starts with `prefix`.
pub open spec fn name_starts(e: Entry, prefix: Seq<u8>) -> bool {
    seq_starts_with(lowered_name(e), prefix)
}

/// A name holding a needle of three or more bytes holds each of the needle's trigrams, so the
/// map has a list for each of them and the id lies in every such list.
proof fn lemma_substring_candidate(
    m: Map<u32, Vec<u32>>,
    es: Seq<Entry>,
    needle: Seq<u8>,
    keys: Seq<u32>,
    x: u32,
)
    requires
        postings_sound(m, es.len() as int, tri_rel(es)),
        needle.len() >= 3,
        keys.len() == needle.len() - 2,
        forall|i: int| 0 <= i < keys.len() ==> keys[i] == trigram_key(needle[i], needle[i + 1], needle[i + 2]),
        (x as int) < es.len(),
        name_has(es[x as int], needle),
    ensures
        in_all_lists(m, keys, x),
{
    let l = lowered_name(es[x as int]);
    let p = choose|p: int| occurs_at(l, needle, p);
    assert(l.subrange(p, p + needle.len()) == needle);
    assert forall|i: int| 0 <= i < keys.len() implies m.contains_key(#[trigger] keys[i]) && m[keys[i]]@.contains(x) by {
        assert(l[p + i] == needle[i] && l[p + i + 1] == needle[i + 1] && l[p + i + 2] == needle[i + 2]) by {
            assert(l.subrange(p, p + needle.len())[i] == needle[i]);
            assert(l.subrange(p, p + needle.len())[i + 1] == needle[i + 1]);
            assert(l.subrange(p, p + needle.len())[i + 2] == needle[i + 2]);
        }
        assert(trigram_key(l[p + i], l[p + i + 1], l[p + i + 2]) == keys[i]);
        assert(has_trigram(l, keys[i]));
        assert(tri_rel(es)(x as int, keys[i]));
    }
    assert(m.contains_key(keys[0]));
}

/// The ids `0..n`, in order.
pub(crate) fn all_ids(n: usize) -> (r: Vec<u32>)
    requires
        n <= u32::MAX + 1,
    ensures
        r@.len() == n,
        forall|i: int| 0 <= i < n ==> r@[i] == i,
        strictly_increasing(r@),
        forall|x: u32| r@.contains(x) <==> (x as int) < n,
{
    let mut r: Vec<u32> = Vec::new();
    let mut i: usize = 0;
    while i < n
        invariant
            i <= n <= u32::MAX + 1,
            r@.len() == i,
            forall|k: int| 0 <= k < i ==> r@[k] == k,
        decreases n - i,
    {
        r.push(i as u32);
        i += 1;
    }
    proof {
        assert forall|x: u32| r@.contains(x) <==> (x as int) < n by {
            if (x as int) < n {
                assert(r@[x as int] == x);
            }
        }
    }
    r
}

impl Index {
    /// Keeps the ids of `ids` whose lower-cased file name holds (`prefix == false`) or starts with
    /// (`prefix == true`) the bytes of `needle`, in their order.
    fn filter_names(&self, ids: &Vec<u32>, needle: &str, prefix: bool) -> (r: Vec<u32>)
        requires
            forall|x: u32| ids@.contains(x) ==> (x as int) < self.entries@.len(),
            strictly_increasing(ids@),
            no_ascii_upper(needle@),
        ensures
            strictly_increasing(r@),
            forall|x: u32|
                r@.contains(x) <==> ids@.contains(x) && if prefix {
                    name_starts(self.entries@[x as int], needle.spec_bytes())
                } else {
                    name_has(self.entries@[x as int], needle.spec_bytes())
                },
    {
        let mut out: Vec<u32> = Vec::new();
        let mut k: usize = 0;
        while k < ids.len()
            invariant
                k <= ids@.len(),
                forall|x: u32| ids@.contains(x) ==> (x as int) < self.entries@.len(),
                strictly_increasing(ids@),
                no_ascii_upper(needle@),
                strictly_increasing(out@),
                forall|x: u32|
                    out@.contains(x) <==> (exists|c: int| 0 <= c < k && ids@[c] == x) && if prefix {
                        name_starts(self.entries@[x as int], needle.spec_bytes())
                    } else {
                        name_has(self.entries@[x as int], needle.spec_bytes())
                    },
            decreases ids.len() - k,
        {
            let id = ids[k];
            assert(ids@.contains(id));
            let e = &self.entries[id as usize];
            let hit = if prefix {
                starts_with_ignore_case(e.name(), needle)
            } else {
                contains_ignore_case(e.name(), needle)
            };
            let ghost before = out@;
            if hit {
                out.push(id);
                proof {
                    assert forall|a: int, b: int| 0 <= a < b < out@.len() implies out@[a] < out@[b] by {
                        if b == out@.len() - 1 {
                            assert(before.contains(out@[a]));
                            let c = choose|c: int| 0 <= c < k && ids@[c] == out@[a];
                        }
                    }
                }
            }
            proof {
                assert forall|x: u32|
                    out@.contains(x) <==> (exists|c: int| 0 <= c < k + 1 && ids@[c] == x) && if prefix {
                        name_starts(self.entries@[x as int], needle.spec_bytes())
                    } else {
                        name_has(self.entries@[x as int], needle.spec_bytes())
                    } by {
                    if out@.contains(x) {
                        let j = choose|j: int| 0 <= j < out@.len() && out@[j] == x;
                        if j < before.len() {
                            assert(before.contains(x));
                            let c = choose|c: int| 0 <= c < k && ids@[c] == x;
                            assert(0 <= c < k + 1 && ids@[c] == x);
                        } else {
                            assert(ids@[k as int] == x);
                        }
                    }
                    if exists|c: int| 0 <= c < k + 1 && ids@[c] == x {
                        let c = choose|c: int| 0 <= c < k + 1 && ids@[c] == x;
                        if c < k {
                            if before.contains(x) {
                                let j = choose|j: int| 0 <= j < before.len() && before[j] == x;
                                assert(out@[j] == x);
                            }
                        } else if hit {
                            assert(out@[out@.len() - 1] == x);
                        }
                    }
                }
            }
            k += 1;
        }
        proof {
            assert forall|x: u32| (exists|c: int| 0 <= c < ids@.len() && ids@[c] == x) <==> ids@.contains(x) by {}
        }
        out
    }

    /// Ids of the entries whose file name holds `text`, compared case-insensitively, in
    /// increasing order.
    pub fn search_substring(&self, text: &str) -> (r: Vec<u32>)
        requires
            self.wf(),
        ensures
            strictly_increasing(r@),
            forall|x: u32|
                r@.contains(x) <==> (x as int) < self.entries@.len() && name_has(
                    self.entries@[x as int],
                    lowered_bytes_of(text@),
                ),
    {
        let needle = to_lowercase(text);
        let nb = needle.as_str().as_bytes();
        assert(nb@ == lowered_bytes_of(text@));
        if nb.len() >= 3 {
            let keys = extract_trigrams(nb);
            let cands = intersect_trigram_lists(&self.trigrams, keys.as_slice());
            proof {
                assert forall|x: u32| cands@.contains(x) implies (x as int) < self.entries@.len() by {
                    let i = choose|i: int| 0 <= i < keys@.len() && self.trigrams@.contains_key(#[trigger] keys@[i]);
                    let k = keys@[i];
                    let j = choose|j: int| 0 <= j < self.trigrams@[k]@.len() && self.trigrams@[k]@[j] == x;
                    assert(self.trigrams@.contains_key(k) && 0 <= j < self.trigrams@[k]@.len());
                }
            }
            let r = self.filter_names(&cands, needle.as_str(), false);
            proof {
                assert forall|x: u32|
                    r@.contains(x) <==> (x as int) < self.entries@.len() && name_has(
                        self.entries@[x as int],
                        lowered_bytes_of(text@),
                    ) by {
                    if (x as int) < self.entries@.len() && name_has(self.entries@[x as int], nb@) {
                        lemma_substring_candidate(self.trigrams@, self.entries@, nb@, keys@, x);
                    }
                }
            }
            r
        } else if nb.len() == 0 {
            let r = all_ids(self.entries.len());
            proof {
                assert forall|x: u32| (x as int) < self.entries@.len() implies name_has(
                    self.entries@[x as int],
                    lowered_bytes_of(text@),
                ) by {
                    let l = lowered_name(self.entries@[x as int]);
                    assert(l.subrange(0, 0) =~= nb@);
                    assert(occurs_at(l, nb@, 0));
                }
            }
            r
        } else {
            let all = all_ids(self.entries.len());
            self.filter_names(&all, needle.as_str(), false)
        }
    }

    /// Ids of the entries whose file name starts with `prefix`, compared case-insensitively, in
    /// increasing order.
    pub fn search_prefix(&self, prefix: &str) -> (r: Vec<u32>)
        requires
            self.wf(),
        ensures
            strictly_increasing(r@),
            forall|x: u32|
                r@.contains(x) <==> (x as int) < self.entries@.len() && name_starts(
                    self.entries@[x as int],
                    lowered_bytes_of(prefix@),
                ),
    {
        let lowered = to_lowercase(prefix);
        let pb = lowered.as_str().as_bytes();
        assert(pb@ == lowered_bytes_of(prefix@));
        if pb.len() == 0 {
            let r = all_ids(self.entries.len());
            proof {
                assert forall|x: u32| (x as int) < self.entries@.len() implies name_starts(
                    self.entries@[x as int],
                    lowered_bytes_of(prefix@),
                ) by {
                    let l = lowered_name(self.entries@[x as int]);
                    assert(l.subrange(0, 0) =~= pb@);
                }
            }
            return r;
        }
        let first = pb[0];
        match self.prefix_first_byte.get(&first) {
            Some(bucket) => {
                proof {
                    assert forall|x: u32| bucket@.contains(x) implies (x as int) < self.entries@.len() by {
                        let j = choose|j: int| 0 <= j < bucket@.len() && bucket@[j] == x;
                        assert(self.prefix_first_byte@.contains_key(first) && 0 <= j < self.prefix_first_byte@[first]@.len());
                    }
                    assert(strictly_increasing(self.prefix_first_byte@[first]@));
                }
                let r = self.filter_names(bucket, lowered.as_str(), true);
                proof {
                    assert forall|x: u32|
                        r@.contains(x) <==> (x as int) < self.entries@.len() && name_starts(
                            self.entries@[x as int],
                            lowered_bytes_of(prefix@),
                        ) by {
                        if (x as int) < self.entries@.len() && name_starts(self.entries@[x as int], pb@) {
                            let l = lowered_name(self.entries@[x as int]);
                            assert(l.subrange(0, pb@.len() as int)[0] == pb@[0]);
                            assert(first_rel(self.entries@)(x as int, first));
                        }
                    }
                }
                r
            },
            None => {
                proof {
                    assert forall|x: u32| !((x as int) < self.entries@.len() && name_starts(
                        self.entries@[x as int],
                        lowered_bytes_of(prefix@),
                    )) by {
                        if (x as int) < self.entries@.len() && name_starts(self.entries@[x as int], pb@) {
                            let l = lowered_name(self.entries@[x as int]);
                            assert(l.subrange(0, pb@.len() as int)[0] == pb@[0]);
                            assert(first_rel(self.entries@)(x as int, first));
                        }
                    }
                }
                Vec::new()
            },
        }
    }

    /// The path of entry `id`, if there is one.
    pub fn get_path(&self, id: u32) -> (r: Option<&str>)
        ensures
            match r {
                Some(p) => (id as int) < self.entries@.len() && p@ == self.entries@[id as int].path@,
                None => (id as int) >= self.entries@.len(),
            },
    {
        if (id as usize) < self.entries.len() {
            Some(self.entries[id as usize].path.as_str())
        } else {
            None
        }
    }

    /// The number of entries.
    pub fn count(&self) -> (r: usize)
        ensures
            r == self.entries@.len(),
    {
        self.entries.len()
    }

    /// The ids of the files with extension `ext`, if the index has a list for it.
    pub fn by_extension(&self, ext: &str) -> (r: Option<&[u32]>)
        requires
            self.wf(),
        ensures
            r is Some <==> self.ext_keys().contains(ext@),
            r matches Some(l) ==> strictly_increasing(l@) && forall|x: u32|
                l@.contains(x) <==> (x as int) < self.entries@.len() && !self.entries@[x as int].is_dir
                    && ext_chars(self.entries@[x as int]) == ext@,
    {
        match ext_find(&self.by_ext, &self.ext_slots, ext) {
            Some(i) => {
                let l = self.by_ext[i].1.as_slice();
                proof {
                    let t = self.by_ext@;
                    assert(self.ext_keys().contains(ext@));
                    assert forall|x: u32|
                        l@.contains(x) <==> (x as int) < self.entries@.len() && !self.entries@[x as int].is_dir
                            && ext_chars(self.entries@[x as int]) == ext@ by {
                        if l@.contains(x) {
                            let j = choose|j: int| 0 <= j < l@.len() && l@[j] == x;
                            assert(0 <= i < t.len() && 0 <= j < t[i as int].1@.len());
                            assert(t[i as int].1@[j] == x);
                        }
                        if (x as int) < self.entries@.len() && !self.entries@[x as int].is_dir
                            && ext_chars(self.entries@[x as int]) == ext@ {
                            let k = choose|k: int|
                                0 <= k < t.len() && t[k].0@ == ext_chars(self.entries@[x as int]) && t[k].1@.contains(x);
                            if k != i {
                                if k < i {
                                    assert(t[k].0@ != t[i as int].0@);
                                } else {
                                    assert(t[i as int].0@ != t[k].0@);
                                }
                            }
                        }
                    }
                }
                Some(l)
            },
            None => {
                proof {
                    if self.ext_keys().contains(ext@) {
                        let i = choose|i: int| 0 <= i < self.by_ext@.len() && self.by_ext@[i].0@ == ext@;
                        assert(self.by_ext@[i].0@ != ext@);
                    }
                }
                None
            },
        }
    }

    /// Look up an entry id by full path: the id the path map holds for the path's hash, when
    /// the entry stored at that id has exactly this path; `None` otherwise.
    pub fn id_by_path(&self, path: &str) -> (r: Option<u32>)
        requires
            self.wf(),
        ensures
            r is Some <==> path_hit(self.path_to_id@, self.entries@, path@),
            r matches Some(id) ==> (id as int) < self.entries@.len() && self.entries@[id as int].path@
                == path@ && id == self.path_to_id@[fnv1a_spec(encode_utf8(path@))],
    {
        let h = fnv1a_64(path.as_bytes());
        match self.path_to_id.get(&h) {
            Some(id) => {
                let id = *id;
                if str_eq(self.entries[id as usize].path.as_str(), path) {
                    Some(id)
                } else {
                    None
                }
            },
            None => None,
        }
    }
}

/// Bytes held per entry: the path's bytes plus a fixed per-entry size, summed over `es`.
pub open spec fn entries_footprint(es: Seq<Entry>, per_entry: int) -> int
    decreases es.len(),
{
    if es.len() == 0 {
        0
    } else {
        entries_footprint(es.drop_last(), per_entry) + path_bytes(es.last()).len() + per_entry
    }
}

/// The sum of a sequence of capacities.
pub open spec fn capacities_total(caps: Seq<usize>) -> int
    decreases caps.len(),
{
    if caps.len() == 0 {
        0
    } else {
        capacities_total(caps.drop_last()) + caps.last()
    }
}

/// `HashMap::capacity`: how many elements the map can hold before it reallocates. What the
/// allocator handed out, so nothing is stated of the number.
#[verifier::external_body]
fn map_capacity<K, V>(m: &HashMap<K, V>) -> usize {
    m.capacity()
}

/// Metadata observed for a file on disk: its size and, where the platform reports them, its
/// times in seconds since the Unix epoch.
#[derive(Debug, Clone, Copy, PartialEq, Eq)]
pub struct FileMeta {
    pub size: u64,
    pub modified: Option<i64>,
    pub created: Option<i64>,
    pub accessed: Option<i64>,
}

/// `e` with the observed metadata written over it: the size always, each time where reported.
pub open spec fn with_meta(e: Entry, m: FileMeta) -> Entry {
    Entry {
        size: m.size,
        modified: match m.modified {
            Some(t) => t,
            None => e.modified,
        },
        created: match m.created {
            Some(t) => t,
            None => e.created,
        },
        accessed: match m.accessed {
            Some(t) => t,
            None => e.accessed,
        },
        ..e
    }
}

impl Index {
    /// Approximate memory held by the index, given the capacities of its four hash maps:
    /// each entry's path bytes and fixed size, plus 16 bytes per map slot. Saturates at
    /// `usize::MAX`.
    pub fn footprint(&self, capacities: &[usize]) -> (r: usize)
        ensures
            r as int == if entries_footprint(
                self.entries@,
                vstd::layout::size_of::<Entry>() as int,
            ) + 16 * capacities_total(capacities@) > usize::MAX {
                usize::MAX as int
            } else {
                entries_footprint(self.entries@, vstd::layout::size_of::<Entry>() as int) + 16
                    * capacities_total(capacities@)
            },
    {
        let per = core::mem::size_of::<Entry>();
        let ghost per_i = vstd::layout::size_of::<Entry>() as int;
        let mut total: usize = 0;
        let mut saturated = false;
        let mut i: usize = 0;
        while i < self.entries.len()
            invariant
                i <= self.entries@.len(),
                per as int == per_i,
                saturated ==> entries_footprint(self.entries@.subrange(0, i as int), per_i) >= usize::MAX,
                !saturated ==> total as int == entries_footprint(self.entries@.subrange(0, i as int), per_i),
            decreases self.entries.len() - i,
        {
            proof {
                assert(self.entries@.subrange(0, i + 1).drop_last() =~= self.entries@.subrange(0, i as int));
                lemma_footprint_nonneg(self.entries@.subrange(0, i as int), per_i);
            }
            let len = self.entries[i].path.as_str().as_bytes().len();
            if !saturated {
                match total.checked_add(len) {
                    Some(t) => match t.checked_add(per) {
                        Some(t2) => {
                            total = t2;
                        },
                        None => {
                            saturated = true;
                        },
                    },
                    None => {
                        saturated = true;
                    },
                }
            }
            i += 1;
        }
        assert(self.entries@.subrange(0, self.entries@.len() as int) =~= self.entries@);
        let mut j: usize = 0;
        let ghost base = entries_footprint(self.entries@, per_i);
        proof {
            lemma_footprint_nonneg(self.entries@, per_i);
        }
        while j < capacities.len()
            invariant
                j <= capacities@.len(),
                base >= 0,
                saturated ==> base + 16 * capacities_total(capacities@.subrange(0, j as int)) >= usize::MAX,
                !saturated ==> total as int == base + 16 * capacities_total(capacities@.subrange(0, j as int)),
            decreases capacities.len() - j,
        {
            proof {
                assert(capacities@.subrange(0, j + 1).drop_last() =~= capacities@.subrange(0, j as int));
                lemma_caps_nonneg(capacities@.subrange(0, j as int));
            }
            if !saturated {
                match capacities[j].checked_mul(16) {
                    Some(c) => match total.checked_add(c) {
                        Some(t) => {
                            total = t;
                        },
                        None => {
                            saturated = true;
                        },
                    },
                    None => {
                        saturated = true;
                    },
                }
            }
            j += 1;
        }
        assert(capacities@.subrange(0, capacities@.len() as int) =~= capacities@);
        proof {
            lemma_caps_nonneg(capacities@);
        }
        if saturated {
            usize::MAX
        } else {
            total
        }
    }

    /// Approximate memory held by the index (see `footprint`), with the capacities the four
    /// hash maps have now.
    pub fn metadata_size(&self) -> (r: usize)
        ensures
            r as int >= if entries_footprint(self.entries@, vstd::layout::size_of::<Entry>() as int)
                > usize::MAX {
                usize::MAX as int
            } else {
                entries_footprint(self.entries@, vstd::layout::size_of::<Entry>() as int)
            },
    {
        let mut caps: Vec<usize> = Vec::new();
        caps.push(map_capacity(&self.ext_slots));
        caps.push(map_capacity(&self.path_to_id));
        caps.push(map_capacity(&self.trigrams));
        caps.push(map_capacity(&self.prefix_first_byte));
        proof {
            lemma_caps_nonneg(caps@);
        }
        self.footprint(caps.as_slice())
    }

    /// Writes observed metadata into the entry of `path`. Returns whether `path` is indexed;
    /// with `None` (the file could not be read) the entry is left as it was.
    pub fn update_metadata(&mut self, path: &str, meta: Option<FileMeta>) -> (r: bool)
        requires
            old(self).wf(),
        ensures
            final(self).wf(),
            r == path_hit(old(self).path_to_id@, old(self).entries@, path@),
            final(self).path_to_id@ == old(self).path_to_id@,
            final(self).entries@ == if r && meta is Some {
                let id = old(self).path_to_id@[fnv1a_spec(path.spec_bytes())] as int;
                old(self).entries@.update(id, with_meta(old(self).entries@[id], meta->0))
            } else {
                old(self).entries@
            },
            final(self).ext_keys() == old(self).ext_keys(),
    {
        let h = fnv1a_64(path.as_bytes());
        let id = match self.path_to_id.get(&h) {
            Some(v) => *v,
            None => {
                return false;
            },
        };
        if !str_eq(self.entries[id as usize].path.as_str(), path) {
            return false;
        }
        match meta {
            Some(m) => {
                let old_e = &self.entries[id as usize];
                let e = Entry {
                    path: old_e.path.clone(),
                    name_off: old_e.name_off,
                    ext_off: old_e.ext_off,
                    is_dir: old_e.is_dir,
                    size: m.size,
                    modified: match m.modified {
                        Some(t) => t,
                        None => old_e.modified,
                    },
                    created: match m.created {
                        Some(t) => t,
                        None => old_e.created,
                    },
                    accessed: match m.accessed {
                        Some(t) => t,
                        None => old_e.accessed,
                    },
                };
                let ghost es0 = self.entries@;
                self.entries.set(id as usize, e);
                proof {
                    let es1 = self.entries@;
                    assert forall|x: int| 0 <= x < es0.len() implies #[trigger] es1[x].path == es0[x].path
                        && es1[x].name_off == es0[x].name_off && es1[x].ext_off == es0[x].ext_off
                        && es1[x].is_dir == es0[x].is_dir by {}
                    lemma_wf_same_names(self.trigrams@, self.prefix_first_byte@, self.by_ext@, self.path_to_id@, es0, es1);
                }
            },
            None => {},
        }
        true
    }
}

proof fn lemma_footprint_nonneg(es: Seq<Entry>, per: int)
    requires
        per >= 0,
    ensures
        entries_footprint(es, per) >= 0,
    decreases es.len(),
{
    if es.len() > 0 {
        lemma_footprint_nonneg(es.drop_last(), per);
    }
}

proof fn lemma_caps_nonneg(caps: Seq<usize>)
    ensures
        capacities_total(caps) >= 0,
    decreases caps.len(),
{
    if caps.len() > 0 {
        lemma_caps_nonneg(caps.drop_last());
    }
}

impl Default for Index {
    fn default() -> (r: Self)
        ensures
            r.wf(),
            r.entries@.len() == 0,
            r.path_to_id@ == Map::<u64, u32>::empty(),
    {
        Index::new()
    }
}

/// The structural invariant speaks of paths, name and extension offsets and kinds only: two
/// entry lists that agree on those satisfy it together.
proof fn lemma_wf_same_names(
    tri: Map<u32, Vec<u32>>,
    pre: Map<u8, Vec<u32>>,
    t: Seq<(String, Vec<u32>)>,
    pm: Map<u64, u32>,
    es0: Seq<Entry>,
    es1: Seq<Entry>,
)
    requires
        es0.len() == es1.len(),
        forall|x: int| 0 <= x < es0.len() ==> #[trigger] es1[x].path == es0[x].path
            && es1[x].name_off == es0[x].name_off && es1[x].ext_off == es0[x].ext_off
            && es1[x].is_dir == es0[x].is_dir,
        path_map_sound(pm, es0),
        postings_sound(tri, es0.len() as int, tri_rel(es0)),
        postings_sound(pre, es0.len() as int, first_rel(es0)),
        ext_table_sound(t, es0),
    ensures
        path_map_sound(pm, es1),
        postings_sound(tri, es1.len() as int, tri_rel(es1)),
        postings_sound(pre, es1.len() as int, first_rel(es1)),
        ext_table_sound(t, es1),
{
    let n = es0.len() as int;
    assert forall|x: int| 0 <= x < n implies #[trigger] lowered_name(es1[x]) == lowered_name(es0[x]) && ext_chars(es1[x]) == ext_chars(es0[x]) && path_bytes(es1[x]) == path_bytes(es0[x]) by {
        assert(es1[x].path == es0[x].path);
    }
    assert forall|k: u32, j: int|
        tri.contains_key(k) && 0 <= j < tri[k]@.len() implies (#[trigger] tri[k]@[j] as int) < n && tri_rel(es1)(tri[k]@[j] as int, k) by {
        assert(tri_rel(es0)(tri[k]@[j] as int, k));
        assert(lowered_name(es1[tri[k]@[j] as int]) == lowered_name(es0[tri[k]@[j] as int]));
    }
    assert forall|x: int, k: u32| 0 <= x < n && #[trigger] tri_rel(es1)(x, k) implies tri.contains_key(k) && tri[k]@.contains(x as u32) by {
        assert(lowered_name(es1[x]) == lowered_name(es0[x]));
        assert(tri_rel(es0)(x, k));
    }
    assert forall|k: u8, j: int|
        pre.contains_key(k) && 0 <= j < pre[k]@.len() implies (#[trigger] pre[k]@[j] as int) < n && first_rel(es1)(pre[k]@[j] as int, k) by {
        assert(first_rel(es0)(pre[k]@[j] as int, k));
        assert(lowered_name(es1[pre[k]@[j] as int]) == lowered_name(es0[pre[k]@[j] as int]));
    }
    assert forall|x: int, k: u8| 0 <= x < n && #[trigger] first_rel(es1)(x, k) implies pre.contains_key(k) && pre[k]@.contains(x as u32) by {
        assert(lowered_name(es1[x]) == lowered_name(es0[x]));
        assert(first_rel(es0)(x, k));
    }
    assert forall|h: u64| #[trigger] pm.contains_key(h) implies (pm[h] as int) < n && fnv1a_spec(path_bytes(es1[pm[h] as int])) == h by {
        assert(path_bytes(es1[pm[h] as int]) == path_bytes(es0[pm[h] as int]));
    }
    assert forall|i: int, j: int|
        0 <= i < t.len() && 0 <= j < t[i].1@.len() implies (#[trigger] t[i].1@[j] as int) < n
            && !es1[t[i].1@[j] as int].is_dir && ext_chars(es1[t[i].1@[j] as int]) == t[i].0@ by {
        assert(ext_chars(es1[t[i].1@[j] as int]) == ext_chars(es0[t[i].1@[j] as int]));
    }
    assert forall|x: int| 0 <= x < n && !(#[trigger] es1[x]).is_dir implies exists|i: int|
        0 <= i < t.len() && t[i].0@ == ext_chars(es1[x]) && t[i].1@.contains(x as u32) by {
        assert(lowered_name(es1[x]) == lowered_name(es0[x]));
        assert(!es0[x].is_dir);
    }
}

/// The path map that inserting `es` in order builds: each path hash maps to the last entry
/// with that hash.
pub open spec fn path_map_of(es: Seq<Entry>) -> Map<u64, u32>
    decreases es.len(),
{
    if es.len() == 0 {
        Map::empty()
    } else {
        path_map_of(es.drop_last()).insert(fnv1a_spec(path_bytes(es.last())), (es.len() - 1) as u32)
    }
}

impl Index {
    /// An index over `entries` with the extension table `by_ext`; the path map, the trigram
    /// lists and the first-byte lists are built from the entries.
    pub fn from_parts(entries: Vec<Entry>, by_ext: Vec<(String, Vec<u32>)>) -> (r: Index)
        requires
            entries@.len() < u32::MAX,
        ensures
            r.entries@ == entries@,
            r.by_ext@ == by_ext@,
            r.path_to_id@ == path_map_of(entries@),
            path_map_sound(r.path_to_id@, r.entries@),
            postings_sound(r.trigrams@, r.entries@.len() as int, tri_rel(r.entries@)),
            postings_sound(r.prefix_first_byte@, r.entries@.len() as int, first_rel(r.entries@)),
            ext_table_sound(r.by_ext@, r.entries@) ==> r.wf(),
    {
        let ghost es = entries@;
        let mut pm: HashMap<u64, u32> = HashMap::new();
        let mut tri: HashMap<u32, Vec<u32>> = HashMap::new();
        let mut pre: HashMap<u8, Vec<u32>> = HashMap::new();
        let mut i: usize = 0;
        assert(es.subrange(0, 0) =~= Seq::<Entry>::empty());
        while i < entries.len()
            invariant
                es == entries@,
                i <= es.len() < u32::MAX,
                pm@ == path_map_of(es.subrange(0, i as int)),
                path_map_sound(pm@, es),
                postings_sound(tri@, i as int, tri_rel(es)),
                postings_sound(pre@, i as int, first_rel(es)),
            decreases entries.len() - i,
        {
            assert(es.subrange(0, i + 1).drop_last() =~= es.subrange(0, i as int));
            let h = fnv1a_64(entries[i].path.as_str().as_bytes());
            pm.insert(h, i as u32);
            let nl = to_lowercase(entries[i].name());
            let nlb = nl.as_str().as_bytes();
            assert(nlb@ == lowered_name(es[i as int]));
            add_name_postings(&mut tri, &mut pre, Ghost(es), i as u32, nlb);
            i += 1;
        }
        assert(es.subrange(0, es.len() as int) =~= es);
        let mut slots: HashMap<u64, usize> = HashMap::new();
        let mut k: usize = 0;
        while k < by_ext.len()
            decreases by_ext.len() - k,
        {
            slots.insert(fnv1a_64(by_ext[k].0.as_str().as_bytes()), k);
            k += 1;
        }
        Index { entries, by_ext, ext_slots: slots, path_to_id: pm, trigrams: tri, prefix_first_byte: pre }
    }
}


/// An inserted entry is found by every substring search whose text its name holds: the new id
/// is the old number of entries, and the entry there is the inserted one.
pub proof fn law_inserted_entry_found(es: Seq<Entry>, e: Entry, needle: Seq<u8>)
    requires
        name_has(e, needle),
    ensures
        (es.len() as int) < es.push(e).len(),
        name_has(es.push(e)[es.len() as int], needle),
{
}

/// Removing one entry keeps every other entry under some id, with one entry fewer in all.
pub proof fn law_remove_keeps_other_entries(es: Seq<Entry>, k: int, j: int)
    requires
        0 <= k < es.len(),
        0 <= j < es.len(),
        j != k,
    ensures
        swap_removed(es, k).len() == es.len() - 1,
        exists|i: int| 0 <= i < swap_removed(es, k).len() && swap_removed(es, k)[i] == es[j],
{
    if j == es.len() - 1 {
        assert(swap_removed(es, k)[k] == es[j]);
    } else {
        assert(swap_removed(es, k)[j] == es[j]);
    }
}

/// Each entry's path hash maps to that entry's id.
pub open spec fn every_path_found(m: Map<u64, u32>, es: Seq<Entry>) -> bool {
    forall|j: int|
        0 <= j < es.len() ==> m.contains_key(fnv1a_spec(path_bytes(#[trigger] es[j]))) && m[fnv1a_spec(
            path_bytes(es[j]),
        )] == j
}

/// No two entries have paths with the same hash.
pub open spec fn distinct_path_hashes(es: Seq<Entry>) -> bool {
    forall|i: int, j: int|
        0 <= i < es.len() && 0 <= j < es.len() && i != j ==> fnv1a_spec(path_bytes(#[trigger] es[i]))
            != fnv1a_spec(path_bytes(#[trigger] es[j]))
}

/// Where every entry's hash maps to it, each live path is found, at its own id.
pub proof fn law_every_live_path_found(m: Map<u64, u32>, es: Seq<Entry>)
    requires
        every_path_found(m, es),
    ensures
        forall|j: int|
            0 <= j < es.len() ==> path_hit(m, es, (#[trigger] es[j]).path@) && m[fnv1a_spec(
                encode_utf8(es[j].path@),
            )] == j,
{
    assert forall|j: int| 0 <= j < es.len() implies path_hit(m, es, (#[trigger] es[j]).path@) && m[fnv1a_spec(
        encode_utf8(es[j].path@),
    )] == j by {
        assert(path_bytes(es[j]) == encode_utf8(es[j].path@));
    }
}

/// Adding an entry whose path hash no entry has keeps every path found.
pub proof fn law_insert_keeps_paths_found(m: Map<u64, u32>, es: Seq<Entry>, e: Entry)
    requires
        every_path_found(m, es),
        distinct_path_hashes(es),
        es.len() <= u32::MAX,
        forall|j: int| 0 <= j < es.len() ==> fnv1a_spec(path_bytes(#[trigger] es[j])) != fnv1a_spec(path_bytes(e)),
    ensures
        every_path_found(m.insert(fnv1a_spec(path_bytes(e)), es.len() as u32), es.push(e)),
        distinct_path_hashes(es.push(e)),
{
    let m2 = m.insert(fnv1a_spec(path_bytes(e)), es.len() as u32);
    let es2 = es.push(e);
    assert forall|j: int| 0 <= j < es2.len() implies m2.contains_key(fnv1a_spec(path_bytes(#[trigger] es2[j])))
        && m2[fnv1a_spec(path_bytes(es2[j]))] == j by {
        if j < es.len() {
            assert(es2[j] == es[j]);
        }
    }
    assert forall|i: int, j: int| 0 <= i < es2.len() && 0 <= j < es2.len() && i != j implies fnv1a_spec(
        path_bytes(#[trigger] es2[i]),
    ) != fnv1a_spec(path_bytes(#[trigger] es2[j])) by {
        if i < es.len() {
            assert(es2[i] == es[i]);
        }
        if j < es.len() {
            assert(es2[j] == es[j]);
        }
    }
}

/// Removing a path keeps every other path found, at its new id: the path map after the removal
/// maps each remaining entry's hash to the entry's id, where no two entries shared a hash.
pub proof fn law_remove_keeps_paths_found(m: Map<u64, u32>, es: Seq<Entry>, path: Seq<char>)
    requires
        path_map_sound(m, es),
        every_path_found(m, es),
        distinct_path_hashes(es),
        path_hit(m, es, path),
    ensures
        every_path_found(
            path_map_after_remove(m, es, path),
            swap_removed(es, m[fnv1a_spec(encode_utf8(path))] as int),
        ),
        distinct_path_hashes(swap_removed(es, m[fnv1a_spec(encode_utf8(path))] as int)),
{
    let h = fnv1a_spec(encode_utf8(path));
    let id = m[h] as int;
    let n = es.len() as int;
    let m2 = path_map_after_remove(m, es, path);
    let es2 = swap_removed(es, id);
    assert(path_bytes(es[id]) == encode_utf8(path));
    // Where each remaining entry came from.
    let src = |j: int| if j == id { n - 1 } else { j };
    assert forall|j: int| 0 <= j < es2.len() implies es2[j] == es[src(j)] && 0 <= src(j) < n && src(j)
        != id by {
        if j == id {
            assert(es2[j] == es.last());
        }
    }
    assert forall|j: int| 0 <= j < es2.len() implies m2.contains_key(fnv1a_spec(path_bytes(#[trigger] es2[j])))
        && m2[fnv1a_spec(path_bytes(es2[j]))] == j by {
        assert(es2[j] == es[src(j)]);
        let k = src(j);
        assert(fnv1a_spec(path_bytes(es[k])) != h) by {
            assert(fnv1a_spec(path_bytes(es[id])) == h);
        }
        if id < n - 1 {
            if j == id {
                assert(es2[j] == es.last());
            } else {
                assert(fnv1a_spec(path_bytes(es[j])) != fnv1a_spec(path_bytes(es[n - 1])));
                assert(es.last() == es[n - 1]);
            }
        }
    }
    assert forall|i: int, j: int| 0 <= i < es2.len() && 0 <= j < es2.len() && i != j implies fnv1a_spec(
        path_bytes(#[trigger] es2[i]),
    ) != fnv1a_spec(path_bytes(#[trigger] es2[j])) by {
        assert(es2[i] == es[src(i)]);
        assert(es2[j] == es[src(j)]);
        assert(src(i) != src(j));
    }
}

/// What removing a path does to an index whose paths all have different hashes and are all
/// found: one entry fewer; the live paths are the old ones but the removed path; every other
/// entry stays, unchanged, at some id; every live path is still found at its id; and the
/// removed path is no longer found.
pub proof fn law_remove_in_full(m: Map<u64, u32>, es: Seq<Entry>, path: Seq<char>)
    requires
        path_map_sound(m, es),
        every_path_found(m, es),
        distinct_path_hashes(es),
        path_hit(m, es, path),
    ensures
        ({
            let id = m[fnv1a_spec(encode_utf8(path))] as int;
            let es2 = swap_removed(es, id);
            let m2 = path_map_after_remove(m, es, path);
            &&& es2.len() == es.len() - 1
            &&& forall|j: int| #![trigger es[j]] 0 <= j < es.len() && j != id ==> exists|k: int| #![trigger es2[k]] 0 <= k < es2.len() && es2[k] == es[j]
            &&& forall|k: int| #![trigger es2[k]] 0 <= k < es2.len() ==> exists|j: int| #![trigger es[j]] 0 <= j < es.len() && j != id && es2[k] == es[j]
            &&& forall|k: int| 0 <= k < es2.len() ==> (#[trigger] es2[k]).path@ != path
            &&& every_path_found(m2, es2)
            &&& !path_hit(m2, es2, path)
        }),
{
    let h = fnv1a_spec(encode_utf8(path));
    let id = m[h] as int;
    let n = es.len() as int;
    let es2 = swap_removed(es, id);
    let m2 = path_map_after_remove(m, es, path);
    assert(path_bytes(es[id]) == encode_utf8(path));
    law_remove_keeps_paths_found(m, es, path);
    let src = |j: int| if j == id { n - 1 } else { j };
    assert forall|k: int| 0 <= k < es2.len() implies es2[k] == es[src(k)] && src(k) != id && 0 <= src(k) < n by {
        if k == id {
            assert(es2[k] == es.last());
        }
    }
    assert forall|j: int| #![trigger es[j]] 0 <= j < es.len() && j != id implies exists|k: int| #![trigger es2[k]] 0 <= k < es2.len() && es2[k] == es[j] by {
        if j == n - 1 {
            assert(es2[id] == es[j]);
        } else {
            assert(es2[j] == es[j]);
        }
    }
    assert forall|k: int| #![trigger es2[k]] 0 <= k < es2.len() implies exists|j: int| #![trigger es[j]] 0 <= j < es.len() && j != id && es2[k] == es[j] by {
        assert(es2[k] == es[src(k)]);
    }
    assert forall|k: int| 0 <= k < es2.len() implies (#[trigger] es2[k]).path@ != path by {
        let j = src(k);
        assert(es2[k] == es[j]);
        if es[j].path@ == path {
            assert(path_bytes(es[j]) == encode_utf8(path));
            assert(fnv1a_spec(path_bytes(es[j])) == fnv1a_spec(path_bytes(es[id])));
        }
    }
    if path_hit(m2, es2, path) {
        let j = m2[h] as int;
        assert(every_path_found(m2, es2));
        assert(es2[j].path@ == path);
    }
}

/// After a path is removed it is no longer found, unless the entry moved into its place has the
/// same path (the path was recorded twice).
pub proof fn law_removed_path_not_found(m: Map<u64, u32>, es: Seq<Entry>, path: Seq<char>)
    requires
        path_map_sound(m, es),
        path_hit(m, es, path),
        es.last().path@ != path,
    ensures
        !path_hit(
            path_map_after_remove(m, es, path),
            swap_removed(es, m[fnv1a_spec(encode_utf8(path))] as int),
            path,
        ),
{
    let h = fnv1a_spec(encode_utf8(path));
    let id = m[h] as int;
    let m2 = path_map_after_remove(m, es, path);
    let es2 = swap_removed(es, id);
    if id < es.len() - 1 {
        if m2.contains_key(h) {
            assert(m2[h] as int == id);
            assert(es2[id] == es.last());
        }
    }
}

} // verus!
