//! Sorted id lists ("posting lists") and maps from keys to them.
use std::collections::HashMap;
use std::hash::Hash;
use vstd::prelude::*;
use vstd::std_specs::hash::obeys_key_model;

verus! {

broadcast use vstd::std_specs::hash::group_hash_axioms;

/// Every element is strictly below the next one.
pub open spec fn strictly_increasing(s: Seq<u32>) -> bool {
    forall|i: int, j: int| 0 <= i < j < s.len() ==> s[i] < s[j]
}

/// A posting map is sound for `n` ids with membership relation `has` when every list is
/// strictly increasing, holds only ids below `n` that have its key, and every id below `n`
/// appears in the list of each of its keys.
pub open spec fn postings_sound<K>(m: Map<K, Vec<u32>>, n: int, has: spec_fn(int, K) -> bool) -> bool {
    &&& forall|k: K| #[trigger] m.contains_key(k) ==> strictly_increasing(m[k]@)
    &&& forall|k: K, j: int|
        m.contains_key(k) && 0 <= j < m[k]@.len() ==> (#[trigger] m[k]@[j] as int) < n && has(
            m[k]@[j] as int,
            k,
        )
    &&& forall|x: int, k: K|
        0 <= x < n && #[trigger] has(x, k) ==> m.contains_key(k) && m[k]@.contains(x as u32)
}

/// Index of the first element of `s` that is not below `x`.
pub fn lower_bound(s: &Vec<u32>, x: u32) -> (r: usize)
    requires
        strictly_increasing(s@),
    ensures
        r <= s.len(),
        forall|i: int| 0 <= i < r ==> s@[i] < x,
        forall|i: int| r <= i < s.len() ==> s@[i] >= x,
{
    let mut lo: usize = 0;
    let mut hi: usize = s.len();
    while lo < hi
        invariant
            strictly_increasing(s@),
            lo <= hi <= s.len(),
            forall|i: int| 0 <= i < lo ==> s@[i] < x,
            forall|i: int| hi <= i < s.len() ==> s@[i] >= x,
        decreases hi - lo,
    {
        let mid = lo + (hi - lo) / 2;
        if s[mid] < x {
            lo = mid + 1;
        } else {
            hi = mid;
        }
    }
    lo
}

/// Drops `x` from a strictly increasing list, if it is there.
pub fn list_remove_id(v: &mut Vec<u32>, x: u32)
    requires
        strictly_increasing(old(v)@),
    ensures
        strictly_increasing(final(v)@),
        forall|y: u32| final(v)@.contains(y) <==> (old(v)@.contains(y) && y != x),
        final(v)@.len() <= old(v)@.len(),
{
    let p = lower_bound(v, x);
    if p < v.len() && v[p] == x {
        let ghost before = v@;
        v.remove(p);
        proof {
            assert forall|y: u32| v@.contains(y) <==> (before.contains(y) && y != x) by {
                if v@.contains(y) {
                    let k = choose|k: int| 0 <= k < v@.len() && v@[k] == y;
                    if k < p {
                        assert(before[k] == y);
                    } else {
                        assert(before[k + 1] == y);
                    }
                }
                if before.contains(y) && y != x {
                    let k = choose|k: int| 0 <= k < before.len() && before[k] == y;
                    if k < p {
                        assert(v@[k] == y);
                    } else {
                        assert(k != p);
                        assert(v@[k - 1] == y);
                    }
                }
            }
        }
    } else {
        proof {
            assert forall|y: u32| v@.contains(y) implies y != x by {
                let k = choose|k: int| 0 <= k < v@.len() && v@[k] == y;
                if k < p {
                } else if k == p {
                } else {
                    assert(v@[p as int] < v@[k]);
                }
            }
        }
    }
}

/// Replaces `old_id` by `new_id` in a strictly increasing list, keeping it sorted; does
/// nothing when `old_id` is absent or equal to `new_id`.
pub fn list_replace_id(v: &mut Vec<u32>, old_id: u32, new_id: u32)
    requires
        strictly_increasing(old(v)@),
        !old(v)@.contains(new_id),
    ensures
        strictly_increasing(final(v)@),
        forall|y: u32|
            final(v)@.contains(y) <==> if old(v)@.contains(old_id) {
                (old(v)@.contains(y) && y != old_id) || y == new_id
            } else {
                old(v)@.contains(y)
            },
{
    if old_id == new_id {
        return ;
    }
    let p = lower_bound(v, old_id);
    if p < v.len() && v[p] == old_id {
        let ghost before = v@;
        list_remove_id(v, old_id);
        let q = lower_bound(v, new_id);
        let ghost mid = v@;
        v.insert(q, new_id);
        proof {
            assert(before.contains(old_id)) by {
                assert(before[p as int] == old_id);
            }
            assert forall|i: int, j: int| 0 <= i < j < v@.len() implies v@[i] < v@[j] by {
                if j < q {
                    assert(v@[i] == mid[i] && v@[j] == mid[j]);
                } else if j == q {
                    assert(v@[i] == mid[i]);
                } else if i < q {
                    assert(v@[j] == mid[j - 1]);
                    assert(mid[j - 1] != new_id);
                } else if i == q {
                    assert(v@[j] == mid[j - 1]);
                    assert(mid[j - 1] >= new_id);
                    assert(mid.contains(mid[j - 1]));
                } else {
                    assert(v@[i] == mid[i - 1] && v@[j] == mid[j - 1]);
                }
            }
            assert forall|y: u32| v@.contains(y) <==> (mid.contains(y) || y == new_id) by {
                if v@.contains(y) && y != new_id {
                    let k = choose|k: int| 0 <= k < v@.len() && v@[k] == y;
                    if k < q {
                        assert(mid[k] == y);
                    } else {
                        assert(k != q);
                        assert(mid[k - 1] == y);
                    }
                }
                if mid.contains(y) {
                    let k = choose|k: int| 0 <= k < mid.len() && mid[k] == y;
                    if k < q {
                        assert(v@[k] == y);
                    } else {
                        assert(v@[k + 1] == y);
                    }
                }
                if y == new_id {
                    assert(v@[q as int] == y);
                }
            }
        }
    } else {
        proof {
            assert forall|y: u32| v@.contains(y) implies y != old_id by {
                let k = choose|k: int| 0 <= k < v@.len() && v@[k] == y;
                if k > p {
                    assert(v@[p as int] < v@[k]);
                }
            }
        }
    }
}

/// Appends `id` to the list of key `k`, creating the list when it is missing.
pub fn map_push<K: Eq + Hash + Copy>(m: &mut HashMap<K, Vec<u32>>, k: K, id: u32)
    requires
        obeys_key_model::<K>(),
    ensures
        final(m)@.dom() == old(m)@.dom().insert(k),
        forall|k2: K| k2 != k && old(m)@.contains_key(k2) ==> final(m)@[k2] == old(m)@[k2],
        final(m)@[k]@ == (if old(m)@.contains_key(k) {
            old(m)@[k]@
        } else {
            Seq::<u32>::empty()
        }).push(id),
{
    let mut list = match m.remove(&k) {
        Some(l) => l,
        None => Vec::new(),
    };
    list.push(id);
    m.insert(k, list);
}

/// Drops `id` from the list of key `k`, when there is such a list.
pub fn map_remove_id<K: Eq + Hash + Copy>(m: &mut HashMap<K, Vec<u32>>, k: K, id: u32)
    requires
        obeys_key_model::<K>(),
        old(m)@.contains_key(k) ==> strictly_increasing(old(m)@[k]@),
    ensures
        final(m)@.dom() == old(m)@.dom(),
        forall|k2: K| k2 != k && old(m)@.contains_key(k2) ==> final(m)@[k2] == old(m)@[k2],
        old(m)@.contains_key(k) ==> strictly_increasing(final(m)@[k]@) && forall|y: u32|
            final(m)@[k]@.contains(y) <==> (old(m)@[k]@.contains(y) && y != id),
{
    match m.remove(&k) {
        Some(mut list) => {
            list_remove_id(&mut list, id);
            m.insert(k, list);
        },
        None => {},
    }
}

/// Renames `old_id` to `new_id` in the list of key `k`, when there is such a list.
pub fn map_replace_id<K: Eq + Hash + Copy>(
    m: &mut HashMap<K, Vec<u32>>,
    k: K,
    old_id: u32,
    new_id: u32,
)
    requires
        obeys_key_model::<K>(),
        old(m)@.contains_key(k) ==> strictly_increasing(old(m)@[k]@) && !old(m)@[k]@.contains(
            new_id,
        ),
    ensures
        final(m)@.dom() == old(m)@.dom(),
        forall|k2: K| k2 != k && old(m)@.contains_key(k2) ==> final(m)@[k2] == old(m)@[k2],
        old(m)@.contains_key(k) ==> strictly_increasing(final(m)@[k]@) && forall|y: u32|
            final(m)@[k]@.contains(y) <==> if old(m)@[k]@.contains(old_id) {
                (old(m)@[k]@.contains(y) && y != old_id) || y == new_id
            } else {
                old(m)@[k]@.contains(y)
            },
{
    match m.remove(&k) {
        Some(mut list) => {
            list_replace_id(&mut list, old_id, new_id);
            m.insert(k, list);
        },
        None => {},
    }
}

/// `new_m` is `old_m` with `id` appended to the list of every key in `keys` (lists created
/// where missing) and every other list untouched.
pub open spec fn pushed_on<K>(old_m: Map<K, Vec<u32>>, new_m: Map<K, Vec<u32>>, keys: Set<K>, id: u32) -> bool {
    &&& new_m.dom() == old_m.dom().union(keys)
    &&& forall|k: K|
        #[trigger] keys.contains(k) ==> new_m[k]@ == (if old_m.contains_key(k) {
            old_m[k]@
        } else {
            Seq::<u32>::empty()
        }).push(id)
    &&& forall|k: K| !keys.contains(k) && #[trigger] old_m.contains_key(k) ==> new_m[k] == old_m[k]
}

/// Adding a new last id `n` to the lists of exactly its keys keeps a posting map sound.
pub proof fn lemma_postings_push<K>(
    old_m: Map<K, Vec<u32>>,
    new_m: Map<K, Vec<u32>>,
    n: int,
    old_has: spec_fn(int, K) -> bool,
    new_has: spec_fn(int, K) -> bool,
    keys: Set<K>,
)
    requires
        0 <= n < u32::MAX,
        postings_sound(old_m, n, old_has),
        forall|x: int, k: K| 0 <= x < n ==> #[trigger] new_has(x, k) == old_has(x, k),
        forall|k: K| #[trigger] new_has(n, k) <==> keys.contains(k),
        pushed_on(old_m, new_m, keys, n as u32),
    ensures
        postings_sound(new_m, n + 1, new_has),
{
    assert forall|k: K| #[trigger] new_m.contains_key(k) implies strictly_increasing(new_m[k]@) by {
        if keys.contains(k) {
            let base = if old_m.contains_key(k) {
                old_m[k]@
            } else {
                Seq::<u32>::empty()
            };
            assert forall|i: int, j: int| 0 <= i < j < new_m[k]@.len() implies new_m[k]@[i]
                < new_m[k]@[j] by {
                if j == base.len() {
                    assert(new_m[k]@[i] == base[i]);
                    assert(old_m[k]@[i] == base[i]);
                } else {
                    assert(new_m[k]@[i] == base[i] && new_m[k]@[j] == base[j]);
                }
            }
        }
    }
    assert forall|k: K, j: int|
        new_m.contains_key(k) && 0 <= j < new_m[k]@.len() implies (#[trigger] new_m[k]@[j] as int)
        < n + 1 && new_has(new_m[k]@[j] as int, k) by {
        if keys.contains(k) {
            let base = if old_m.contains_key(k) {
                old_m[k]@
            } else {
                Seq::<u32>::empty()
            };
            if j < base.len() {
                assert(new_m[k]@[j] == old_m[k]@[j]);
            }
        } else {
            assert(new_m[k]@[j] == old_m[k]@[j]);
        }
    }
    assert forall|x: int, k: K| 0 <= x < n + 1 && #[trigger] new_has(x, k) implies new_m.contains_key(
        k,
    ) && new_m[k]@.contains(x as u32) by {
        if x == n {
            assert(keys.contains(k));
            assert(new_m[k]@[new_m[k]@.len() - 1] == x as u32);
        } else {
            assert(old_has(x, k));
            assert(old_m[k]@.contains(x as u32));
            let i = choose|i: int| 0 <= i < old_m[k]@.len() && old_m[k]@[i] == x as u32;
            if keys.contains(k) {
                assert(new_m[k]@[i] == x as u32);
            }
        }
    }
}

/// One more key pushed: `pushed_on` over `keys` extends to `keys + {k}`.
pub proof fn lemma_pushed_on_step<K>(
    old_m: Map<K, Vec<u32>>,
    mid_m: Map<K, Vec<u32>>,
    new_m: Map<K, Vec<u32>>,
    keys: Set<K>,
    k: K,
    id: u32,
)
    requires
        pushed_on(old_m, mid_m, keys, id),
        !keys.contains(k),
        new_m.dom() == mid_m.dom().insert(k),
        forall|k2: K| k2 != k && mid_m.contains_key(k2) ==> new_m[k2] == mid_m[k2],
        new_m[k]@ == (if mid_m.contains_key(k) {
            mid_m[k]@
        } else {
            Seq::<u32>::empty()
        }).push(id),
    ensures
        pushed_on(old_m, new_m, keys.insert(k), id),
{
    assert(new_m.dom() =~= old_m.dom().union(keys.insert(k)));
    assert forall|k2: K| #[trigger] keys.insert(k).contains(k2) implies new_m[k2]@ == (if old_m.contains_key(k2) {
        old_m[k2]@
    } else {
        Seq::<u32>::empty()
    }).push(id) by {
        if k2 == k {
            if old_m.contains_key(k) {
                assert(mid_m[k] == old_m[k]);
            }
        }
    }
}

/// Nothing pushed yet.
pub proof fn lemma_pushed_on_empty<K>(m: Map<K, Vec<u32>>, id: u32)
    ensures
        pushed_on(m, m, Set::<K>::empty(), id),
{
    assert(m.dom() =~= m.dom().union(Set::<K>::empty()));
}

/// The elements of a growing prefix.
pub proof fn lemma_prefix_to_set_step<A>(s: Seq<A>, k: int)
    requires
        0 <= k < s.len(),
    ensures
        s.subrange(0, k + 1).to_set() == s.subrange(0, k).to_set().insert(s[k]),
        s.subrange(0, 0).to_set() == Set::<A>::empty(),
{
    assert forall|a: A| #[trigger] s.subrange(0, k + 1).to_set().contains(a) <==> s.subrange(0, k).to_set().insert(
        s[k],
    ).contains(a) by {
        if s.subrange(0, k + 1).contains(a) {
            let j = choose|j: int| 0 <= j < k + 1 && #[trigger] s.subrange(0, k + 1)[j] == a;
            if j < k {
                assert(s.subrange(0, k)[j] == a);
            }
        }
        if s.subrange(0, k).contains(a) {
            let j = choose|j: int| 0 <= j < k && #[trigger] s.subrange(0, k)[j] == a;
            assert(s.subrange(0, k + 1)[j] == a);
        }
        if a == s[k] {
            assert(s.subrange(0, k + 1)[k] == a);
        }
    }
    assert(s.subrange(0, k + 1).to_set() =~= s.subrange(0, k).to_set().insert(s[k]));
    assert(s.subrange(0, 0).to_set() =~= Set::<A>::empty());
}

/// Drops `id` from the list of every key in `keys`.
pub fn map_remove_id_all<K: Eq + Hash + Copy>(m: &mut HashMap<K, Vec<u32>>, keys: &Vec<K>, id: u32)
    requires
        obeys_key_model::<K>(),
        forall|k: K| #[trigger] old(m)@.contains_key(k) ==> strictly_increasing(old(m)@[k]@),
    ensures
        final(m)@.dom() == old(m)@.dom(),
        forall|k: K| #[trigger] final(m)@.contains_key(k) ==> strictly_increasing(final(m)@[k]@),
        forall|k: K, y: u32|
            final(m)@.contains_key(k) ==> (#[trigger] final(m)@[k]@.contains(y) <==> (old(
                m,
            )@[k]@.contains(y) && !(y == id && keys@.contains(k)))),
{
    let ghost m0 = m@;
    let mut i: usize = 0;
    while i < keys.len()
        invariant
            obeys_key_model::<K>(),
            i <= keys@.len(),
            m@.dom() == m0.dom(),
            forall|k: K| #[trigger] m@.contains_key(k) ==> strictly_increasing(m@[k]@),
            forall|k: K, y: u32|
                m@.contains_key(k) ==> (#[trigger] m@[k]@.contains(y) <==> (m0[k]@.contains(y) && !(
                y == id && keys@.subrange(0, i as int).contains(k)))),
        decreases keys.len() - i,
    {
        let ghost before = m@;
        let k = keys[i];
        map_remove_id(m, k, id);
        proof {
            assert forall|k2: K, y: u32| m@.contains_key(k2) implies (#[trigger] m@[k2]@.contains(y)
                <==> (m0[k2]@.contains(y) && !(y == id && keys@.subrange(0, i + 1).contains(k2)))) by {
                if keys@.subrange(0, i + 1).contains(k2) && k2 != k {
                    let j = choose|j: int| 0 <= j < i + 1 && #[trigger] keys@.subrange(0, i + 1)[j] == k2;
                    assert(keys@.subrange(0, i as int)[j] == k2);
                }
                if keys@.subrange(0, i as int).contains(k2) {
                    let j = choose|j: int| 0 <= j < i && #[trigger] keys@.subrange(0, i as int)[j] == k2;
                    assert(keys@.subrange(0, i + 1)[j] == k2);
                }
                if k2 == k {
                    assert(keys@.subrange(0, i + 1)[i as int] == k2);
                }
            }
        }
        i += 1;
    }
    assert(keys@.subrange(0, i as int) =~= keys@);
}

/// Renames `old_id` to `new_id` in the list of every key in `keys` (distinct keys; no list
/// holds `new_id`).
pub fn map_replace_id_all<K: Eq + Hash + Copy>(
    m: &mut HashMap<K, Vec<u32>>,
    keys: &Vec<K>,
    old_id: u32,
    new_id: u32,
)
    requires
        obeys_key_model::<K>(),
        keys@.no_duplicates(),
        old_id != new_id,
        forall|k: K| #[trigger] old(m)@.contains_key(k) ==> strictly_increasing(old(m)@[k]@),
        forall|k: K| #[trigger] old(m)@.contains_key(k) ==> !old(m)@[k]@.contains(new_id),
    ensures
        final(m)@.dom() == old(m)@.dom(),
        forall|k: K| #[trigger] final(m)@.contains_key(k) ==> strictly_increasing(final(m)@[k]@),
        forall|k: K, y: u32|
            final(m)@.contains_key(k) ==> (#[trigger] final(m)@[k]@.contains(y) <==> if keys@.contains(k)
                && old(m)@[k]@.contains(old_id) {
                (old(m)@[k]@.contains(y) && y != old_id) || y == new_id
            } else {
                old(m)@[k]@.contains(y)
            }),
{
    let ghost m0 = m@;
    let mut i: usize = 0;
    while i < keys.len()
        invariant
            obeys_key_model::<K>(),
            keys@.no_duplicates(),
            old_id != new_id,
            i <= keys@.len(),
            m@.dom() == m0.dom(),
            forall|k: K| #[trigger] m@.contains_key(k) ==> strictly_increasing(m@[k]@),
            forall|k: K|
                #[trigger] m@.contains_key(k) ==> !keys@.subrange(0, i as int).contains(k)
                    ==> m@[k] == m0[k],
            forall|k: K| #[trigger] m0.contains_key(k) ==> !m0[k]@.contains(new_id),
            forall|k: K, y: u32|
                m@.contains_key(k) ==> (#[trigger] m@[k]@.contains(y) <==> if keys@.subrange(
                    0,
                    i as int,
                ).contains(k) && m0[k]@.contains(old_id) {
                    (m0[k]@.contains(y) && y != old_id) || y == new_id
                } else {
                    m0[k]@.contains(y)
                }),
        decreases keys.len() - i,
    {
        let k = keys[i];
        proof {
            if keys@.subrange(0, i as int).contains(k) {
                let j = choose|j: int| 0 <= j < i && #[trigger] keys@.subrange(0, i as int)[j] == k;
                assert(keys@[j] == keys@[i as int]);
            }
        }
        map_replace_id(m, k, old_id, new_id);
        proof {
            assert forall|k2: K| #[trigger] m@.contains_key(k2) implies !keys@.subrange(
                0,
                i + 1,
            ).contains(k2) ==> m@[k2] == m0[k2] by {
                if !keys@.subrange(0, i + 1).contains(k2) {
                    if keys@.subrange(0, i as int).contains(k2) {
                        let j = choose|j: int| 0 <= j < i && #[trigger] keys@.subrange(0, i as int)[j] == k2;
                        assert(keys@.subrange(0, i + 1)[j] == k2);
                    }
                    assert(keys@.subrange(0, i + 1)[i as int] == k);
                }
            }
            assert forall|k2: K, y: u32| m@.contains_key(k2) implies (#[trigger] m@[k2]@.contains(y)
                <==> if keys@.subrange(0, i + 1).contains(k2) && m0[k2]@.contains(old_id) {
                (m0[k2]@.contains(y) && y != old_id) || y == new_id
            } else {
                m0[k2]@.contains(y)
            }) by {
                if keys@.subrange(0, i + 1).contains(k2) && k2 != k {
                    let j = choose|j: int| 0 <= j < i + 1 && #[trigger] keys@.subrange(0, i + 1)[j] == k2;
                    assert(keys@.subrange(0, i as int)[j] == k2);
                }
                if keys@.subrange(0, i as int).contains(k2) {
                    let j = choose|j: int| 0 <= j < i && #[trigger] keys@.subrange(0, i as int)[j] == k2;
                    assert(keys@.subrange(0, i + 1)[j] == k2);
                }
                if k2 == k {
                    assert(keys@.subrange(0, i + 1)[i as int] == k2);
                }
            }
        }
        i += 1;
    }
    assert(keys@.subrange(0, i as int) =~= keys@);
}

/// A sound posting map stays sound when `id` is dropped and the last id `n - 1` takes its
/// place (the effect of `swap_remove` on the ids).
pub proof fn lemma_postings_swap_remove<K>(
    old_m: Map<K, Vec<u32>>,
    new_m: Map<K, Vec<u32>>,
    n: int,
    id: int,
    old_has: spec_fn(int, K) -> bool,
    new_has: spec_fn(int, K) -> bool,
)
    requires
        0 <= id < n <= u32::MAX,
        postings_sound(old_m, n, old_has),
        new_m.dom() == old_m.dom(),
        forall|k: K| #[trigger] new_m.contains_key(k) ==> strictly_increasing(new_m[k]@),
        forall|k: K, y: u32|
            new_m.contains_key(k) ==> (#[trigger] new_m[k]@.contains(y) <==> ((old_m[k]@.contains(y)
                && y as int != id && y as int != n - 1) || (id < n - 1 && y as int == id
                && old_has(n - 1, k)))),
        forall|x: int, k: K| 0 <= x < n - 1 && x != id ==> #[trigger] new_has(x, k) == old_has(x, k),
        id < n - 1 ==> forall|k: K| #[trigger] new_has(id, k) == old_has(n - 1, k),
    ensures
        postings_sound(new_m, n - 1, new_has),
{
    assert forall|k: K, j: int|
        new_m.contains_key(k) && 0 <= j < new_m[k]@.len() implies (#[trigger] new_m[k]@[j] as int)
        < n - 1 && new_has(new_m[k]@[j] as int, k) by {
        let y = new_m[k]@[j];
        assert(new_m[k]@.contains(y));
        if y as int != id {
            let i = choose|i: int| 0 <= i < old_m[k]@.len() && old_m[k]@[i] == y;
            assert(old_m[k]@[i] == y);
        }
    }
    assert forall|x: int, k: K| 0 <= x < n - 1 && #[trigger] new_has(x, k) implies new_m.contains_key(
        k,
    ) && new_m[k]@.contains(x as u32) by {
        if x != id {
            assert(old_has(x, k));
            assert(old_m[k]@.contains(x as u32));
        } else {
            assert(old_has(n - 1, k));
            assert(old_m.contains_key(k));
        }
    }
}

/// Removing an id from the lists of its keys, then renaming the last id `n - 1` to it in the
/// lists of the last id's keys, keeps a posting map sound for the swap-removed ids.
pub proof fn lemma_postings_remove_rename<K>(
    m0: Map<K, Vec<u32>>,
    m1: Map<K, Vec<u32>>,
    m2: Map<K, Vec<u32>>,
    n: int,
    id: int,
    old_has: spec_fn(int, K) -> bool,
    new_has: spec_fn(int, K) -> bool,
    keys_r: Set<K>,
    keys_s: Set<K>,
)
    requires
        0 <= id < n <= u32::MAX,
        postings_sound(m0, n, old_has),
        forall|k: K| #[trigger] keys_r.contains(k) <==> old_has(id, k),
        m1.dom() == m0.dom(),
        forall|k: K| #[trigger] m1.contains_key(k) ==> strictly_increasing(m1[k]@),
        forall|k: K, y: u32|
            m1.contains_key(k) ==> (#[trigger] m1[k]@.contains(y) <==> (m0[k]@.contains(y) && !(y
                == id as u32 && keys_r.contains(k)))),
        id == n - 1 ==> m2 == m1,
        id < n - 1 ==> {
            &&& forall|k: K| #[trigger] keys_s.contains(k) <==> old_has(n - 1, k)
            &&& m2.dom() == m1.dom()
            &&& forall|k: K| #[trigger] m2.contains_key(k) ==> strictly_increasing(m2[k]@)
            &&& forall|k: K, y: u32|
                m2.contains_key(k) ==> (#[trigger] m2[k]@.contains(y) <==> if keys_s.contains(k)
                    && m1[k]@.contains((n - 1) as u32) {
                    (m1[k]@.contains(y) && y != (n - 1) as u32) || y == id as u32
                } else {
                    m1[k]@.contains(y)
                })
        },
        forall|x: int, k: K| 0 <= x < n - 1 && x != id ==> #[trigger] new_has(x, k) == old_has(x, k),
        id < n - 1 ==> forall|k: K| #[trigger] new_has(id, k) == old_has(n - 1, k),
    ensures
        postings_sound(m2, n - 1, new_has),
{
    assert forall|k: K, y: u32| m1.contains_key(k) implies (#[trigger] m1[k]@.contains(y) <==> (
    m0[k]@.contains(y) && y != id as u32)) by {
        if m0[k]@.contains(id as u32) {
            let j = choose|j: int| 0 <= j < m0[k]@.len() && m0[k]@[j] == id as u32;
            assert(old_has(m0[k]@[j] as int, k));
        }
    }
    assert forall|k: K, y: u32| m2.contains_key(k) implies (#[trigger] m2[k]@.contains(y) <==> ((
    m0[k]@.contains(y) && y as int != id && y as int != n - 1) || (id < n - 1 && y as int == id
        && old_has(n - 1, k)))) by {
        assert(m1[k]@.contains(y) <==> (m0[k]@.contains(y) && y != id as u32));
        if m0[k]@.contains((n - 1) as u32) {
            let j = choose|j: int| 0 <= j < m0[k]@.len() && m0[k]@[j] == (n - 1) as u32;
            assert(old_has(m0[k]@[j] as int, k));
        }
        if id < n - 1 && old_has(n - 1, k) {
            assert(m0[k]@.contains((n - 1) as u32));
            assert(m1[k]@.contains((n - 1) as u32));
        }
        if id == n - 1 {
            assert(m2[k] == m1[k]);
        }
    }
    lemma_postings_swap_remove(m0, m2, n, id, old_has, new_has);
}

/// After dropping `id` from the lists of its keys, no list holds `id` and every list holds
/// what it held before except `id`.
pub proof fn lemma_postings_removed<K>(
    m0: Map<K, Vec<u32>>,
    m1: Map<K, Vec<u32>>,
    n: int,
    id: int,
    has: spec_fn(int, K) -> bool,
    keys_r: Set<K>,
)
    requires
        0 <= id < n <= u32::MAX,
        postings_sound(m0, n, has),
        forall|k: K| #[trigger] keys_r.contains(k) <==> has(id, k),
        m1.dom() == m0.dom(),
        forall|k: K, y: u32|
            m1.contains_key(k) ==> (#[trigger] m1[k]@.contains(y) <==> (m0[k]@.contains(y) && !(y
                == id as u32 && keys_r.contains(k)))),
    ensures
        forall|k: K| #[trigger] m1.contains_key(k) ==> !m1[k]@.contains(id as u32),
{
    assert forall|k: K| #[trigger] m1.contains_key(k) implies !m1[k]@.contains(id as u32) by {
        if m0[k]@.contains(id as u32) {
            let j = choose|j: int| 0 <= j < m0[k]@.len() && m0[k]@[j] == id as u32;
            assert(has(m0[k]@[j] as int, k));
        }
    }
}

/// Soundness depends on the membership relation only below `n`.
pub proof fn lemma_postings_transfer<K>(
    m: Map<K, Vec<u32>>,
    n: int,
    h1: spec_fn(int, K) -> bool,
    h2: spec_fn(int, K) -> bool,
)
    requires
        postings_sound(m, n, h1),
        forall|x: int, k: K| 0 <= x < n ==> #[trigger] h1(x, k) == h2(x, k),
    ensures
        postings_sound(m, n, h2),
{
    assert forall|k: K, j: int| m.contains_key(k) && 0 <= j < m[k]@.len() implies (#[trigger] m[k]@[j] as int) < n
        && h2(m[k]@[j] as int, k) by {
        assert(h1(m[k]@[j] as int, k));
    }
    assert forall|x: int, k: K| 0 <= x < n && #[trigger] h2(x, k) implies m.contains_key(k) && m[k]@.contains(x as u32) by {
        assert(h1(x, k));
    }
}

} // verus!
