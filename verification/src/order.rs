//! Total orders on sort keys, and a stable sort that yields the order of a list of keys.
use vstd::prelude::*;

verus! {

/// Lexicographic byte order: `a` sorts strictly before `b` (a proper prefix sorts first).
pub open spec fn bytes_lt(a: Seq<u8>, b: Seq<u8>) -> bool
    decreases a.len(),
{
    if b.len() == 0 {
        false
    } else if a.len() == 0 {
        true
    } else if a[0] != b[0] {
        a[0] < b[0]
    } else {
        bytes_lt(a.drop_first(), b.drop_first())
    }
}

pub proof fn lemma_bytes_lt_irreflexive(a: Seq<u8>)
    ensures
        !bytes_lt(a, a),
    decreases a.len(),
{
    if a.len() > 0 {
        lemma_bytes_lt_irreflexive(a.drop_first());
    }
}

pub proof fn lemma_bytes_lt_transitive(a: Seq<u8>, b: Seq<u8>, c: Seq<u8>)
    requires
        bytes_lt(a, b),
        bytes_lt(b, c),
    ensures
        bytes_lt(a, c),
    decreases a.len(),
{
    if a.len() > 0 && b.len() > 0 && c.len() > 0 && a[0] == b[0] && b[0] == c[0] {
        lemma_bytes_lt_transitive(a.drop_first(), b.drop_first(), c.drop_first());
    }
}

pub proof fn lemma_bytes_lt_total(a: Seq<u8>, b: Seq<u8>)
    ensures
        a == b || bytes_lt(a, b) || bytes_lt(b, a),
    decreases a.len(),
{
    if a.len() > 0 && b.len() > 0 && a[0] == b[0] {
        lemma_bytes_lt_total(a.drop_first(), b.drop_first());
        if a.drop_first() == b.drop_first() {
            assert(a =~= seq![a[0]] + a.drop_first());
            assert(b =~= seq![b[0]] + b.drop_first());
        }
    } else if a.len() == 0 && b.len() == 0 {
        assert(a =~= b);
    }
}

/// Compares two byte strings lexicographically: whether `a` sorts strictly before `b`.
pub fn bytes_less(a: &[u8], b: &[u8]) -> (r: bool)
    ensures
        r == bytes_lt(a@, b@),
{
    let mut i: usize = 0;
    assert(a@.skip(0) =~= a@);
    assert(b@.skip(0) =~= b@);
    while i < a.len() && i < b.len()
        invariant
            i <= a@.len(),
            i <= b@.len(),
            bytes_lt(a@, b@) == bytes_lt(a@.skip(i as int), b@.skip(i as int)),
        decreases a.len() - i,
    {
        if a[i] != b[i] {
            return a[i] < b[i];
        }
        assert(a@.skip(i as int).drop_first() =~= a@.skip(i + 1));
        assert(b@.skip(i as int).drop_first() =~= b@.skip(i + 1));
        i += 1;
    }
    i < b.len()
}

/// Keys that can be sorted: a strict total order in spec, decided by an executable comparison.
pub trait SortableKey: Sized {
    spec fn key_lt(self, other: Self) -> bool;

    proof fn lemma_irreflexive(a: Self)
        ensures
            !a.key_lt(a),
    ;

    proof fn lemma_transitive(a: Self, b: Self, c: Self)
        requires
            a.key_lt(b),
            b.key_lt(c),
        ensures
            a.key_lt(c),
    ;

    /// Whatever `b` is, it sorts after `a` or before `c` when `a` sorts before `c`.
    proof fn lemma_split(a: Self, b: Self, c: Self)
        requires
            a.key_lt(c),
        ensures
            a.key_lt(b) || b.key_lt(c),
    ;

    fn less(&self, other: &Self) -> (r: bool)
        ensures
            r == self.key_lt(*other),
    ;
}

/// A byte-string key, ordered lexicographically.
pub struct BytesKey {
    pub bytes: Vec<u8>,
}

impl SortableKey for BytesKey {
    open spec fn key_lt(self, other: Self) -> bool {
        bytes_lt(self.bytes@, other.bytes@)
    }

    proof fn lemma_irreflexive(a: Self) {
        lemma_bytes_lt_irreflexive(a.bytes@);
    }

    proof fn lemma_transitive(a: Self, b: Self, c: Self) {
        lemma_bytes_lt_transitive(a.bytes@, b.bytes@, c.bytes@);
    }

    proof fn lemma_split(a: Self, b: Self, c: Self) {
        lemma_bytes_lt_total(a.bytes@, b.bytes@);
        if bytes_lt(b.bytes@, a.bytes@) {
            lemma_bytes_lt_transitive(b.bytes@, a.bytes@, c.bytes@);
        }
    }

    fn less(&self, other: &Self) -> (r: bool) {
        bytes_less(self.bytes.as_slice(), other.bytes.as_slice())
    }
}

/// An integer key, ordered numerically.
pub struct IntKey {
    pub value: i128,
}

impl SortableKey for IntKey {
    open spec fn key_lt(self, other: Self) -> bool {
        self.value < other.value
    }

    proof fn lemma_irreflexive(a: Self) {
    }

    proof fn lemma_transitive(a: Self, b: Self, c: Self) {
    }

    proof fn lemma_split(a: Self, b: Self, c: Self) {
    }

    fn less(&self, other: &Self) -> (r: bool) {
        self.value < other.value
    }
}

/// `order` lists each of `0..n` exactly once.
pub open spec fn is_permutation(order: Seq<usize>, n: int) -> bool {
    &&& order.len() == n
    &&& forall|i: int| 0 <= i < n ==> (#[trigger] order[i] as int) < n
    &&& forall|i: int, j: int| 0 <= i < j < n ==> order[i] != order[j]
    &&& forall|v: int| 0 <= v < n ==> #[trigger] holds_position(order, v)
}

/// Some slot of `order` holds `v`.
pub open spec fn holds_position(order: Seq<usize>, v: int) -> bool {
    exists|i: int| 0 <= i < order.len() && order[i] == v
}

/// `x` is placed before `y` when keys are taken ascending (or descending).
pub open spec fn key_before<K: SortableKey>(x: K, y: K, ascending: bool) -> bool {
    if ascending {
        x.key_lt(y)
    } else {
        y.key_lt(x)
    }
}

/// Following `order`, no key sorts strictly before an earlier one, and keys that tie (neither
/// sorts before the other) keep their original relative order.
pub open spec fn stably_sorted<K: SortableKey>(keys: Seq<K>, order: Seq<usize>, ascending: bool) -> bool {
    &&& forall|i: int, j: int|
        0 <= i < j < order.len() ==> !key_before(
            #[trigger] keys[order[j] as int],
            #[trigger] keys[order[i] as int],
            ascending,
        )
    &&& forall|i: int, j: int|
        0 <= i < j < order.len() && !keys[order[i] as int].key_lt(keys[order[j] as int])
            && !keys[order[j] as int].key_lt(keys[order[i] as int]) ==> order[i] < order[j]
}

proof fn lemma_not_before_transitive<K: SortableKey>(a: K, b: K, c: K, ascending: bool)
    requires
        !key_before(b, a, ascending),
        !key_before(c, b, ascending),
    ensures
        !key_before(c, a, ascending),
{
    if key_before(c, a, ascending) {
        if ascending {
            K::lemma_split(c, b, a);
        } else {
            K::lemma_split(a, b, c);
        }
    }
}

proof fn lemma_before_asymmetric<K: SortableKey>(x: K, y: K, ascending: bool)
    requires
        key_before(x, y, ascending),
    ensures
        !key_before(y, x, ascending),
{
    if key_before(y, x, ascending) {
        if ascending {
            K::lemma_transitive(x, y, x);
        } else {
            K::lemma_transitive(y, x, y);
        }
        K::lemma_irreflexive(x);
        K::lemma_irreflexive(y);
    }
}

/// Whether `x` is placed before `y`, keys taken ascending or descending.
pub fn goes_before<K: SortableKey>(x: &K, y: &K, ascending: bool) -> (r: bool)
    ensures
        r == key_before(*x, *y, ascending),
{
    if ascending {
        x.less(y)
    } else {
        y.less(x)
    }
}

/// The stable sorted order of `keys`, ascending or descending: positions of `keys` in the
/// order in which their keys come.
pub fn stable_sort_order<K: SortableKey>(keys: &Vec<K>, ascending: bool) -> (order: Vec<usize>)
    ensures
        is_permutation(order@, keys@.len() as int),
        stably_sorted(keys@, order@, ascending),
{
    let mut order: Vec<usize> = Vec::new();
    let mut k: usize = 0;
    while k < keys.len()
        invariant
            k <= keys@.len(),
            is_permutation(order@, k as int),
            stably_sorted(keys@, order@, ascending),
        decreases keys.len() - k,
    {
        let mut p: usize = order.len();
        while p > 0 && goes_before(&keys[k], &keys[order[p - 1]], ascending)
            invariant
                k < keys@.len(),
                p <= order@.len() == k,
                is_permutation(order@, k as int),
                forall|q: int| p <= q < k ==> key_before(keys@[k as int], #[trigger] keys@[order@[q] as int], ascending),
            decreases p,
        {
            p -= 1;
        }
        let ghost before = order@;
        proof {
            if p > 0 {
                assert(!key_before(keys@[k as int], keys@[before[p - 1] as int], ascending));
            }
        }
        order.insert(p, k);
        proof {
            let n = order@;
            assert forall|i: int| 0 <= i < k + 1 implies (#[trigger] n[i] as int) < k + 1 by {
                if i < p {
                    assert(n[i] == before[i]);
                } else if i > p {
                    assert(n[i] == before[i - 1]);
                }
            }
            assert forall|v: int| 0 <= v < k + 1 implies #[trigger] holds_position(n, v) by {
                if v == k {
                    assert(n[p as int] == v);
                } else {
                    assert(holds_position(before, v));
                    let i = choose|i: int| 0 <= i < before.len() && before[i] == v;
                    if i < p {
                        assert(n[i] == v);
                    } else {
                        assert(n[i + 1] == v);
                    }
                }
            }
            assert forall|i: int, j: int| 0 <= i < j < k + 1 implies n[i] != n[j] by {
                if i < p && j < p {
                    assert(n[i] == before[i] && n[j] == before[j]);
                } else if i < p && j == p {
                    assert(n[i] == before[i]);
                } else if i < p {
                    assert(n[i] == before[i] && n[j] == before[j - 1]);
                } else if i == p {
                    assert(n[j] == before[j - 1]);
                } else {
                    assert(n[i] == before[i - 1] && n[j] == before[j - 1]);
                }
            }
            assert forall|i: int, j: int|
                0 <= i < j < n.len() implies !key_before(
                #[trigger] keys@[n[j] as int],
                #[trigger] keys@[n[i] as int],
                ascending,
            ) by {
                let ki = keys@[k as int];
                if j == p {
                    assert(n[i] == before[i]);
                    if i < p - 1 {
                        lemma_not_before_transitive(
                            keys@[before[i] as int],
                            keys@[before[p - 1] as int],
                            ki,
                            ascending,
                        );
                    }
                } else if i == p {
                    assert(n[j] == before[j - 1]);
                    assert(key_before(ki, keys@[before[j - 1] as int], ascending));
                    lemma_before_asymmetric(ki, keys@[before[j - 1] as int], ascending);
                } else if j < p {
                    assert(n[i] == before[i] && n[j] == before[j]);
                } else if i < p {
                    assert(n[i] == before[i] && n[j] == before[j - 1]);
                } else {
                    assert(n[i] == before[i - 1] && n[j] == before[j - 1]);
                }
            }
            assert forall|i: int, j: int|
                0 <= i < j < n.len() && !keys@[n[i] as int].key_lt(keys@[n[j] as int])
                    && !keys@[n[j] as int].key_lt(keys@[n[i] as int]) implies n[i] < n[j] by {
                if j == p {
                    assert(n[i] == before[i]);
                } else if i == p {
                    assert(n[j] == before[j - 1]);
                    let kj = keys@[before[j - 1] as int];
                    assert(key_before(keys@[k as int], kj, ascending));
                } else if j < p {
                    assert(n[i] == before[i] && n[j] == before[j]);
                } else if i < p {
                    assert(n[i] == before[i] && n[j] == before[j - 1]);
                } else {
                    assert(n[i] == before[i - 1] && n[j] == before[j - 1]);
                }
            }
        }
        k += 1;
    }
    order
}

} // verus!
