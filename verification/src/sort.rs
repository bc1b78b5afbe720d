//! Ordering search results by name, path, extension, size or time.
use crate::index::{Entry, Index, ext_chars, name_chars, path_bytes};
use crate::order::{
    BytesKey, IntKey, SortableKey, bytes_lt, is_permutation, key_before, stable_sort_order,
    stably_sorted,
};
use vstd::prelude::*;
use vstd::string::StringSliceAdditionalSpecFns;
use vstd::utf8::*;

verus! {

#[derive(Debug, Clone, Copy, PartialEq, Eq, Structural)]
pub enum SortKey {
    Name,
    Path,
    Size,
    Modified,
    Created,
    Accessed,
    Extension,
}

/// Entry `a` sorts strictly before entry `b` by `key`: texts compare byte by byte, numbers by
/// value.
pub open spec fn key_less(a: Entry, b: Entry, key: SortKey) -> bool {
    match key {
        SortKey::Name => bytes_lt(encode_utf8(name_chars(a)), encode_utf8(name_chars(b))),
        SortKey::Path => bytes_lt(path_bytes(a), path_bytes(b)),
        SortKey::Extension => bytes_lt(encode_utf8(ext_chars(a)), encode_utf8(ext_chars(b))),
        SortKey::Size => a.size < b.size,
        SortKey::Modified => a.modified < b.modified,
        SortKey::Created => a.created < b.created,
        SortKey::Accessed => a.accessed < b.accessed,
    }
}

/// The bytes a text key compares by.
pub open spec fn key_bytes(e: Entry, key: SortKey) -> Seq<u8> {
    match key {
        SortKey::Name => encode_utf8(name_chars(e)),
        SortKey::Path => path_bytes(e),
        _ => encode_utf8(ext_chars(e)),
    }
}

/// The number a numeric key compares by.
pub open spec fn key_number(e: Entry, key: SortKey) -> int {
    match key {
        SortKey::Size => e.size as int,
        SortKey::Modified => e.modified as int,
        SortKey::Created => e.created as int,
        _ => e.accessed as int,
    }
}

/// `a` comes before `b` in the requested direction.
pub open spec fn placed_before(a: Entry, b: Entry, key: SortKey, ascending: bool) -> bool {
    if ascending {
        key_less(a, b, key)
    } else {
        key_less(b, a, key)
    }
}

/// `after` is `before` sorted by `key`, stably: it is `before` reordered, no entry comes after
/// one it should precede, and entries with equal keys keep their order.
pub open spec fn stably_sorted_ids(es: Seq<Entry>, before: Seq<u32>, after: Seq<u32>, key: SortKey, ascending: bool) -> bool {
    exists|order: Seq<usize>|
        {
            &&& is_permutation(order, before.len() as int)
            &&& after == Seq::new(before.len(), |i: int| before[order[i] as int])
            &&& forall|i: int, j: int|
                0 <= i < j < after.len() ==> !placed_before(
                    es[after[j] as int],
                    es[after[i] as int],
                    key,
                    ascending,
                )
            &&& forall|i: int, j: int|
                0 <= i < j < after.len() && !key_less(es[after[i] as int], es[after[j] as int], key)
                    && !key_less(es[after[j] as int], es[after[i] as int], key) ==> order[i] < order[j]
        }
}

fn bytes_key(b: &[u8]) -> (k: BytesKey)
    ensures
        k.bytes@ == b@,
{
    BytesKey { bytes: vstd::slice::slice_to_vec(b) }
}

/// Sorts entry ids by `key`, ascending or descending, keeping the order of equal keys.
pub fn sort_ids(index: &Index, ids: &mut [u32], key: SortKey, ascending: bool)
    requires
        forall|i: int| 0 <= i < old(ids)@.len() ==> (old(ids)@[i] as int) < index.entries@.len(),
    ensures
        stably_sorted_ids(index.entries@, old(ids)@, final(ids)@, key, ascending),
{
    let ghost es = index.entries@;
    let ghost before = ids@;
    let n = ids.len();
    let mut copy: Vec<u32> = Vec::new();
    let mut i: usize = 0;
    while i < n
        invariant
            n == ids@.len(),
            ids@ == before,
            i <= n,
            copy@ == before.subrange(0, i as int),
        decreases n - i,
    {
        copy.push(ids[i]);
        assert(copy@ =~= before.subrange(0, i + 1));
        i += 1;
    }
    assert(copy@ =~= before);
    let order: Vec<usize> = match key {
        SortKey::Name | SortKey::Path | SortKey::Extension => {
            let mut keys: Vec<BytesKey> = Vec::new();
            let mut k: usize = 0;
            while k < n
                invariant
                    n == copy@.len(),
                    copy@ == before,
                    es == index.entries@,
                    forall|j: int| 0 <= j < n ==> (copy@[j] as int) < es.len(),
                    key is Name || key is Path || key is Extension,
                    k <= n,
                    keys@.len() == k,
                    forall|a: int| 0 <= a < k ==> (#[trigger] keys@[a]).bytes@ == key_bytes(es[copy@[a] as int], key),
                decreases n - k,
            {
                let e = &index.entries[copy[k] as usize];
                let kb = match key {
                    SortKey::Name => bytes_key(e.name().as_bytes()),
                    SortKey::Path => {
                        let ps = e.path.as_str();
                        assert(ps.spec_bytes() == path_bytes(*e));
                        bytes_key(ps.as_bytes())
                    },
                    _ => bytes_key(e.extension().as_bytes()),
                };
                keys.push(kb);
                k += 1;
            }
            let o = stable_sort_order(&keys, ascending);
            proof {
                let lt = |a: int, b: int| keys@[a].key_lt(keys@[b]);
                assert forall|a: int, b: int| 0 <= a < before.len() && 0 <= b < before.len() implies #[trigger] lt(a, b) == key_less(
                    es[before[a] as int],
                    es[before[b] as int],
                    key,
                ) by {
                    assert(keys@[a].bytes@ == key_bytes(es[copy@[a] as int], key));
                    assert(keys@[b].bytes@ == key_bytes(es[copy@[b] as int], key));
                }
                lemma_order_fits(es, before, o@, key, ascending, lt);
            }
            o
        },
        _ => {
            let mut keys: Vec<IntKey> = Vec::new();
            let mut k: usize = 0;
            while k < n
                invariant
                    n == copy@.len(),
                    copy@ == before,
                    es == index.entries@,
                    forall|j: int| 0 <= j < n ==> (copy@[j] as int) < es.len(),
                    !(key is Name || key is Path || key is Extension),
                    k <= n,
                    keys@.len() == k,
                    forall|a: int| 0 <= a < k ==> (#[trigger] keys@[a]).value == key_number(es[copy@[a] as int], key),
                decreases n - k,
            {
                let e = &index.entries[copy[k] as usize];
                let v: i128 = match key {
                    SortKey::Size => e.size as i128,
                    SortKey::Modified => e.modified as i128,
                    SortKey::Created => e.created as i128,
                    _ => e.accessed as i128,
                };
                keys.push(IntKey { value: v });
                k += 1;
            }
            let o = stable_sort_order(&keys, ascending);
            proof {
                let lt = |a: int, b: int| keys@[a].key_lt(keys@[b]);
                assert forall|a: int, b: int| 0 <= a < before.len() && 0 <= b < before.len() implies #[trigger] lt(a, b) == key_less(
                    es[before[a] as int],
                    es[before[b] as int],
                    key,
                ) by {
                    assert(keys@[a].value == key_number(es[copy@[a] as int], key));
                    assert(keys@[b].value == key_number(es[copy@[b] as int], key));
                }
                lemma_order_fits(es, before, o@, key, ascending, lt);
            }
            o
        },
    };
    let mut q: usize = 0;
    while q < n
        invariant
            n == ids@.len(),
            copy@ == before,
            before.len() == n,
            is_permutation(order@, n as int),
            q <= n,
            forall|j: int| 0 <= j < q ==> ids@[j] == before[order@[j] as int],
        decreases n - q,
    {
        ids[q] = copy[order[q]];
        q += 1;
    }
    proof {
        assert(ids@ =~= Seq::new(before.len(), |i: int| before[order@[i] as int]));
    }
}

/// An order that sorts keys comparing as the entries do sorts the ids.
proof fn lemma_order_fits(
    es: Seq<Entry>,
    before: Seq<u32>,
    order: Seq<usize>,
    key: SortKey,
    ascending: bool,
    lt: spec_fn(int, int) -> bool,
)
    requires
        is_permutation(order, before.len() as int),
        forall|i: int, j: int|
            0 <= i < j < order.len() ==> !(if ascending {
                lt(order[j] as int, order[i] as int)
            } else {
                lt(order[i] as int, order[j] as int)
            }),
        forall|i: int, j: int|
            0 <= i < j < order.len() && !lt(order[i] as int, order[j] as int) && !lt(order[j] as int, order[i] as int)
                ==> order[i] < order[j],
        forall|a: int, b: int|
            0 <= a < before.len() && 0 <= b < before.len() ==> #[trigger] lt(a, b) == key_less(
                es[before[a] as int],
                es[before[b] as int],
                key,
            ),
    ensures
        stably_sorted_ids(es, before, Seq::new(before.len(), |i: int| before[order[i] as int]), key, ascending),
{
    let after = Seq::new(before.len(), |i: int| before[order[i] as int]);
    assert forall|i: int, j: int| 0 <= i < j < after.len() implies !placed_before(
        es[after[j] as int],
        es[after[i] as int],
        key,
        ascending,
    ) by {
        assert(lt(order[j] as int, order[i] as int) == key_less(es[after[j] as int], es[after[i] as int], key));
        assert(lt(order[i] as int, order[j] as int) == key_less(es[after[i] as int], es[after[j] as int], key));
    }
    assert forall|i: int, j: int|
        0 <= i < j < after.len() && !key_less(es[after[i] as int], es[after[j] as int], key) && !key_less(
            es[after[j] as int],
            es[after[i] as int],
            key,
        ) implies order[i] < order[j] by {
        assert(lt(order[j] as int, order[i] as int) == key_less(es[after[j] as int], es[after[i] as int], key));
        assert(lt(order[i] as int, order[j] as int) == key_less(es[after[i] as int], es[after[j] as int], key));
    }
}

} // verus!
