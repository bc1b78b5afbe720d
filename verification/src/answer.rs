//! How the daemon answers: the words of a query marked with `*` in the file names it
//! reports, a page of the matching paths, and its status.
use crate::daemon::{needles, needles_of, sort_params, sort_params_spec, term_needles};
use crate::index::{Entry, Index};
use crate::ipc::{strings_view, QueryRequest, Request, Response, ResponseView, ResultsResponse, StatusResponse};
use crate::matcher::{path_filter_usable, selected, terms_compile, try_match_query};
use crate::postings::strictly_increasing;
use crate::query::{clock_in_range, has_date_filter, lemma_terms_model_len, parse_spec, term_model, terms_model, Query, QueryModel};
use crate::watch::WatcherStatus;
use crate::order::{is_permutation, stable_sort_order, stably_sorted, SortableKey};
use crate::sort::{sort_ids, stably_sorted_ids};
use crate::index::{last_index_of, lemma_last_index_of, rfind_byte};
use crate::text::{ascii_lower_chars, push_char, push_str, to_lowercase, unicode_lower};
use vstd::prelude::*;
use vstd::string::StringSliceAdditionalSpecFns;
use vstd::utf8::*;

verus! {

broadcast use {
    encode_utf8_valid_utf8,
    encode_utf8_decode_utf8,
    is_char_boundary_start_end_of_seq,
    is_char_boundary_iff_not_is_continuation_byte,
    valid_utf8_split,
};

/// `str::to_lowercase` as its contract states it.
pub open spec fn lowered(s: Seq<char>) -> Seq<char> {
    if is_ascii_chars(s) {
        ascii_lower_chars(s)
    } else {
        unicode_lower(s)
    }
}

/// The byte positions at which `str::match_indices` finds `p` in `h`, from `i` on: the
/// leftmost occurrences that do not overlap; for an empty `p`, every character boundary.
pub open spec fn occurrences(h: Seq<u8>, p: Seq<u8>, i: int) -> Seq<int>
    decreases h.len() + 1 - i,
{
    if i < 0 || i > h.len() {
        Seq::empty()
    } else if p.len() == 0 {
        if is_char_boundary(h, i) {
            seq![i] + occurrences(h, p, i + 1)
        } else {
            occurrences(h, p, i + 1)
        }
    } else if i + p.len() > h.len() {
        Seq::empty()
    } else if h.subrange(i, i + p.len()) == p {
        seq![i] + occurrences(h, p, i + p.len())
    } else {
        occurrences(h, p, i + 1)
    }
}

/// Bytes `a..b` of `n` can be taken as text: in order, in range, on character boundaries.
pub open spec fn slice_ok(n: Seq<u8>, a: int, b: int) -> bool {
    &&& 0 <= a <= b <= n.len()
    &&& is_char_boundary(n, a)
    &&& is_char_boundary(n, b)
}

/// The characters of bytes `a..b` of `n`.
pub open spec fn piece(n: Seq<u8>, a: int, b: int) -> Seq<char> {
    decode_utf8(n.subrange(a, b))
}

/// The name `n` from byte `last` on with a `*` before and after the `k` bytes at each position
/// of `ps`, up to the last of them, and where that text ends; `None` where a piece is not text
/// (the slice would panic).
pub open spec fn marked(n: Seq<u8>, ps: Seq<int>, k: int, last: int) -> Option<(Seq<char>, int)>
    decreases ps.len(),
{
    if ps.len() == 0 {
        Some((Seq::empty(), last))
    } else if !slice_ok(n, last, ps[0]) || !slice_ok(n, ps[0], ps[0] + k) {
        None
    } else {
        match marked(n, ps.drop_first(), k, ps[0] + k) {
            None => None,
            Some(r) => Some(
                (piece(n, last, ps[0]) + seq!['*'] + piece(n, ps[0], ps[0] + k) + seq!['*'] + r.0, r.1),
            ),
        }
    }
}

/// One word marked in the name `n` (lower-cased `l`): the word's occurrences in `l`, each
/// `len(word)` bytes of `n` long, marked; where no occurrence ends past the start, the name as
/// it was marked before (`cur`).
pub open spec fn word_marks(n: Seq<u8>, l: Seq<u8>, word: Seq<char>, cur: Seq<char>) -> Option<
    Seq<char>,
> {
    let p = encode_utf8(lowered(word));
    let k = encode_utf8(word).len() as int;
    match marked(n, occurrences(l, p, 0), k, 0) {
        None => None,
        Some(r) => if r.1 > 0 {
            Some(r.0 + piece(n, r.1, n.len() as int))
        } else {
            Some(cur)
        },
    }
}

/// The name after each word in turn: each word that is found replaces the marks of the words
/// before it.
pub open spec fn marked_name(n: Seq<u8>, l: Seq<u8>, words: Seq<Seq<char>>) -> Option<Seq<char>>
    decreases words.len(),
{
    if words.len() == 0 {
        Some(decode_utf8(n))
    } else {
        match marked_name(n, l, words.drop_last()) {
            None => None,
            Some(h) => word_marks(n, l, words.last(), h),
        }
    }
}

/// Where the file name starts in a path's bytes: after its last `/`.
pub open spec fn name_start(pb: Seq<u8>) -> int {
    last_index_of(pb, 47u8) + 1
}

/// The path with the words marked in its file name, each word found replacing the marks of
/// the words before it; `None` where marking would slice text off a character boundary
/// (lower-casing changed the byte lengths).
pub open spec fn last_word_spec(path: Seq<char>, words: Seq<Seq<char>>) -> Option<Seq<char>> {
    let pb = encode_utf8(path);
    let ns = name_start(pb);
    let n = pb.subrange(ns, pb.len() as int);
    if !is_char_boundary(pb, ns) {
        None
    } else {
        let l = encode_utf8(lowered(decode_utf8(n)));
        match marked_name(n, l, words) {
            None => None,
            Some(h) => if h != decode_utf8(n) {
                Some(decode_utf8(pb.subrange(0, ns)) + h)
            } else {
                Some(path)
            },
        }
    }
}

/// Bytes `a..b` of `s` as text.
fn slice_str(s: &str, a: usize, b: usize) -> (r: &str)
    requires
        slice_ok(s.spec_bytes(), a as int, b as int),
    ensures
        r.spec_bytes() == s.spec_bytes().subrange(a as int, b as int),
        r@ == piece(s.spec_bytes(), a as int, b as int),
{
    let ghost sb = s.spec_bytes();
    let (_, tail) = s.split_at(a);
    let ghost tb = tail.spec_bytes();
    proof {
        assert(valid_utf8(sb));
        assert(valid_utf8(tb));
        if (b as int) < sb.len() {
            assert(tb[b - a] == sb[b as int]);
            assert(is_char_boundary(sb, b as int) <==> !is_continuation_byte(sb[b as int]));
            assert(is_char_boundary(tb, b - a) <==> !is_continuation_byte(tb[b - a]));
        } else {
            assert(b - a == tb.len());
        }
    }
    let (mid, _) = tail.split_at(b - a);
    assert(mid.spec_bytes() =~= sb.subrange(a as int, b as int));
    assert(decode_utf8(encode_utf8(mid@)) == mid@);
    mid
}

/// Whether `p` occurs in `h` at `i`.
fn occurs_at(h: &[u8], i: usize, p: &[u8]) -> (r: bool)
    requires
        i + p@.len() <= h@.len(),
    ensures
        r == (h@.subrange(i as int, i + p@.len()) == p@),
{
    let mut j: usize = 0;
    let mut same = true;
    let n = h.len();
    while j < p.len() && same
        invariant
            i + p@.len() <= h@.len(),
            n == h@.len(),
            j <= p@.len(),
            same ==> forall|t: int| 0 <= t < j ==> h@[i + t] == p@[t],
            !same ==> 0 < j && h@[i + j - 1] != p@[j - 1],
        decreases p.len() - j,
    {
        same = h[i + j] == p[j];
        j += 1;
    }
    if same {
        assert(h@.subrange(i as int, i + p@.len()) =~= p@);
        true
    } else {
        assert(h@.subrange(i as int, i + p@.len())[j - 1] != p@[j - 1]);
        false
    }
}

/// The positions at which `str::match_indices` finds `p` in `hs`.
fn find_all(hs: &str, p: &[u8]) -> (r: Vec<usize>)
    ensures
        r@.len() == occurrences(hs.spec_bytes(), p@, 0).len(),
        forall|j: int| 0 <= j < r@.len() ==> r@[j] as int == #[trigger] occurrences(hs.spec_bytes(), p@, 0)[j],
{
    let h = hs.as_bytes();
    let ghost hb = h@;
    let mut out: Vec<usize> = Vec::new();
    let mut i: usize = 0;
    let ghost mut done: Seq<int> = Seq::empty();
    if p.len() == 0 {
        while i < h.len()
            invariant
                h@ == hb,
                hb == hs.spec_bytes(),
                p@.len() == 0,
                i <= hb.len(),
                occurrences(hb, p@, 0) == done + occurrences(hb, p@, i as int),
                out@.len() == done.len(),
                forall|j: int| 0 <= j < out@.len() ==> out@[j] as int == #[trigger] done[j],
            decreases hb.len() - i,
        {
            let ghost before = done;
            if hs.is_char_boundary(i) {
                proof {
                    done = done.push(i as int);
                    assert(done + occurrences(hb, p@, i + 1) =~= before + (seq![i as int]
                        + occurrences(hb, p@, i + 1)));
                }
                out.push(i);
            }
            i += 1;
        }
        proof {
            let before = done;
            done = done.push(i as int);
            assert(occurrences(hb, p@, i + 1) =~= Seq::<int>::empty());
            assert(done =~= before + (seq![i as int] + occurrences(hb, p@, i + 1)));
        }
        out.push(i);
        return out;
    }
    while p.len() <= h.len() - i
        invariant
            h@ == hb,
            hb == hs.spec_bytes(),
            p@.len() > 0,
            i <= hb.len(),
            occurrences(hb, p@, 0) == done + occurrences(hb, p@, i as int),
            out@.len() == done.len(),
            forall|j: int| 0 <= j < out@.len() ==> out@[j] as int == #[trigger] done[j],
        decreases hb.len() - i,
    {
        let ghost before = done;
        if occurs_at(h, i, p) {
            proof {
                done = done.push(i as int);
                assert(done + occurrences(hb, p@, i + p@.len()) =~= before + (seq![i as int]
                    + occurrences(hb, p@, i + p@.len())));
            }
            out.push(i);
            i = i + p.len();
        } else {
            i += 1;
        }
    }
    proof {
        assert(occurrences(hb, p@, i as int) =~= Seq::<int>::empty());
        assert(done + occurrences(hb, p@, i as int) =~= done);
    }
    out
}

/// One word marked in `name` (lower-cased `lower`), or `None` where marking cannot be done.
fn mark_word(name: &str, lower: &str, word: &str, cur: String) -> (r: Option<String>)
    ensures
        match r {
            Some(t) => word_marks(name.spec_bytes(), lower.spec_bytes(), word@, cur@) == Some(t@),
            None => word_marks(name.spec_bytes(), lower.spec_bytes(), word@, cur@) is None,
        },
{
    let ghost n = name.spec_bytes();
    let ghost l = lower.spec_bytes();
    let wl = to_lowercase(word);
    let p = wl.as_str().as_bytes();
    let k = word.as_bytes().len();
    let ps = find_all(lower, p);
    let ghost psq = occurrences(l, p@, 0);
    assert(p@ == encode_utf8(lowered(word@)));
    let nlen = name.as_bytes().len();
    let mut out = String::new();
    let mut last: usize = 0;
    let mut j: usize = 0;
    assert(psq.skip(0) =~= psq);
    assert(out@ + Seq::<char>::empty() =~= Seq::<char>::empty());
    while j < ps.len()
        invariant
            n == name.spec_bytes(),
            l == lower.spec_bytes(),
            p@ == encode_utf8(lowered(word@)),
            psq == occurrences(l, p@, 0),
            nlen == n.len(),
            k == encode_utf8(word@).len(),
            ps@.len() == psq.len(),
            forall|t: int| 0 <= t < ps@.len() ==> ps@[t] as int == #[trigger] psq[t],
            j <= ps@.len(),
            last <= n.len(),
            is_char_boundary(n, last as int),
            marked(n, psq, k as int, 0) == match marked(n, psq.skip(j as int), k as int, last as int) {
                None => None,
                Some(r) => Some((out@ + r.0, r.1)),
            },
        decreases ps.len() - j,
    {
        let pos = ps[j];
        let ghost rest = psq.skip(j as int);
        assert(rest[0] == psq[j as int]);
        assert(rest.drop_first() =~= psq.skip(j + 1));
        if !(last <= pos && pos <= nlen && k <= nlen - pos && name.is_char_boundary(pos)
            && name.is_char_boundary(pos + k)) {
            assert(pos as int == rest[0]);
            assert(!slice_ok(n, last as int, rest[0]) || !slice_ok(n, rest[0], rest[0] + k));
            assert(marked(n, rest, k as int, last as int) is None);
            assert(marked(n, psq, k as int, 0) is None);
            assert(psq == occurrences(lower.spec_bytes(), encode_utf8(lowered(word@)), 0));
            assert(word_marks(name.spec_bytes(), lower.spec_bytes(), word@, cur@) is None);
            return None;
        }
        let a = slice_str(name, last, pos);
        let b = slice_str(name, pos, pos + k);
        let ghost o0 = out@;
        push_str(&mut out, a);
        push_char(&mut out, '*');
        push_str(&mut out, b);
        push_char(&mut out, '*');
        proof {
            let front = piece(n, last as int, pos as int) + seq!['*'] + piece(n, pos as int, pos + k)
                + seq!['*'];
            assert(out@ =~= o0 + front);
            match marked(n, psq.skip(j + 1), k as int, pos + k) {
                None => {},
                Some(r) => {
                    assert(o0 + (front + r.0) =~= out@ + r.0);
                },
            }
        }
        last = pos + k;
        j += 1;
    }
    assert(psq.skip(j as int) =~= Seq::<int>::empty());
    if last > 0 {
        let t = slice_str(name, last, nlen);
        let ghost o0 = out@;
        push_str(&mut out, t);
        Some(out)
    } else {
        Some(cur)
    }
}

proof fn lemma_marked_name_stays_none(n: Seq<u8>, l: Seq<u8>, w: Seq<Seq<char>>, i: int)
    requires
        0 <= i <= w.len(),
        marked_name(n, l, w.take(i)) is None,
    ensures
        marked_name(n, l, w) is None,
    decreases w.len() - i,
{
    if i < w.len() {
        assert(w.take(i + 1).drop_last() =~= w.take(i));
        lemma_marked_name_stays_none(n, l, w, i + 1);
    } else {
        assert(w.take(i) =~= w);
    }
}

/// The words marked in `name` in turn, or `None` where marking cannot be done.
fn mark_words(name: &str, lower: &str, words: &Vec<String>) -> (r: Option<String>)
    ensures
        match r {
            Some(t) => marked_name(name.spec_bytes(), lower.spec_bytes(), strings_view(words@)) == Some(t@),
            None => marked_name(name.spec_bytes(), lower.spec_bytes(), strings_view(words@)) is None,
        },
{
    let ghost n = name.spec_bytes();
    let ghost l = lower.spec_bytes();
    let ghost w = strings_view(words@);
    let mut cur = crate::text::string_of(name);
    let mut i: usize = 0;
    assert(w.take(0) =~= Seq::<Seq<char>>::empty());
    assert(decode_utf8(encode_utf8(name@)) == name@);
    while i < words.len()
        invariant
            n == name.spec_bytes(),
            l == lower.spec_bytes(),
            w == strings_view(words@),
            i <= words@.len(),
            marked_name(n, l, w.take(i as int)) == Some(cur@),
        decreases words.len() - i,
    {
        assert(w.take(i + 1).drop_last() =~= w.take(i as int));
        assert(w.take(i + 1).last() == words@[i as int]@);
        match mark_word(name, lower, words[i].as_str(), cur) {
            None => {
                proof {
                    lemma_marked_name_stays_none(n, l, w, i + 1);
                }
                return None;
            },
            Some(t) => {
                cur = t;
            },
        }
        i += 1;
    }
    assert(w.take(words@.len() as int) =~= w);
    Some(cur)
}

/// The path with the words marked in its file name (`highlight_spec`); `None` exactly where
/// a slice would fall off a character boundary.
pub fn highlight_path_last_word(path: &str, words: &Vec<String>) -> (r: Option<String>)
    ensures
        match r {
            Some(t) => last_word_spec(path@, strings_view(words@)) == Some(t@),
            None => last_word_spec(path@, strings_view(words@)) is None,
        },
{
    let pb = path.as_bytes();
    proof {
        lemma_last_index_of(pb@, 47u8);
    }
    let plen = pb.len();
    let ns = match rfind_byte(pb, 47u8) {
        Some(i) => {
            assert(i < plen);
            i + 1
        },
        None => 0,
    };
    assert(ns as int == name_start(pb@));
    if !path.is_char_boundary(ns) {
        return None;
    }
    let (parent, name) = path.split_at(ns);
    let ghost n = pb@.subrange(ns as int, pb@.len() as int);
    assert(name.spec_bytes() == n);
    assert(decode_utf8(encode_utf8(name@)) == name@);
    assert(decode_utf8(encode_utf8(parent@)) == parent@);
    let lower = to_lowercase(name);
    match mark_words(name, lower.as_str(), words) {
        None => None,
        Some(h) => {
            if crate::text::str_eq(h.as_str(), name) {
                Some(crate::text::string_of(path))
            } else {
                let mut out = crate::text::string_of(parent);
                push_str(&mut out, h.as_str());
                Some(out)
            }
        },
    }
}

/// A byte range of a name, ordered by start, then end.
#[derive(Debug, Clone, Copy, PartialEq, Eq)]
pub struct Span {
    pub start: usize,
    pub end: usize,
}

impl SortableKey for Span {
    open spec fn key_lt(self, other: Self) -> bool {
        self.start < other.start || (self.start == other.start && self.end < other.end)
    }

    proof fn lemma_irreflexive(a: Self) {
    }

    proof fn lemma_transitive(a: Self, b: Self, c: Self) {
    }

    proof fn lemma_split(a: Self, b: Self, c: Self) {
    }

    fn less(&self, other: &Self) -> (r: bool) {
        self.start < other.start || (self.start == other.start && self.end < other.end)
    }
}

/// The ranges merged as they come, in sorted order: a range that starts at or before the end
/// of the last merged one extends it.
pub open spec fn merged(s: Seq<(usize, usize)>) -> Seq<(int, int)>
    decreases s.len(),
{
    if s.len() == 0 {
        Seq::empty()
    } else {
        let m = merged(s.drop_last());
        let (a, b) = s.last();
        if m.len() > 0 && a <= m.last().1 {
            m.update(
                m.len() - 1,
                (m.last().0, if b > m.last().1 {
                    b as int
                } else {
                    m.last().1
                }),
            )
        } else {
            m.push((a as int, b as int))
        }
    }
}

/// The text `t` from byte `last` on with a `*` before and after each merged range that lies
/// within it and is not empty (the others are passed over); `None` where a piece is not text.
pub open spec fn with_marks(t: Seq<u8>, m: Seq<(int, int)>, last: int) -> Option<Seq<char>>
    decreases m.len(),
{
    if m.len() == 0 {
        if slice_ok(t, last, t.len() as int) {
            Some(piece(t, last, t.len() as int))
        } else {
            None
        }
    } else {
        let (a, b) = m[0];
        if a > t.len() || b > t.len() || a >= b {
            with_marks(t, m.drop_first(), last)
        } else if !slice_ok(t, last, a) || !slice_ok(t, a, b) {
            None
        } else {
            match with_marks(t, m.drop_first(), b) {
                None => None,
                Some(r) => Some(piece(t, last, a) + seq!['*'] + piece(t, a, b) + seq!['*'] + r),
            }
        }
    }
}

/// `sorted` is `ranges` in increasing order.
pub open spec fn sorted_ranges(ranges: Seq<(usize, usize)>, sorted: Seq<(usize, usize)>) -> bool {
    exists|order: Seq<usize>|
        {
            &&& is_permutation(order, ranges.len() as int)
            &&& sorted == Seq::new(ranges.len(), |i: int| ranges[order[i] as int])
            &&& forall|i: int, j: int|
                0 <= i < j < sorted.len() ==> sorted[i].0 < sorted[j].0 || (sorted[i].0 == sorted[j].0
                    && sorted[i].1 <= sorted[j].1)
        }
}

/// `text` with the byte ranges marked: sorted, merged where they touch or overlap, each
/// merged range that lies within the text and is not empty wrapped in `*`. `None` exactly
/// where a slice would fall off a character boundary.
pub fn apply_highlight_ranges(text: &str, ranges: &[(usize, usize)]) -> (r: Option<String>)
    ensures
        exists|sorted: Seq<(usize, usize)>|
            {
                &&& sorted_ranges(ranges@, sorted)
                &&& match r {
                    Some(x) => with_marks(text.spec_bytes(), merged(sorted), 0) == Some(x@),
                    None => with_marks(text.spec_bytes(), merged(sorted), 0) is None,
                }
            },
{
    let mut keys: Vec<Span> = Vec::new();
    let mut i: usize = 0;
    while i < ranges.len()
        invariant
            i <= ranges@.len(),
            keys@.len() == i,
            forall|j: int| 0 <= j < i ==> #[trigger] keys@[j] == (Span { start: ranges@[j].0, end: ranges@[j].1 }),
        decreases ranges.len() - i,
    {
        keys.push(Span { start: ranges[i].0, end: ranges[i].1 });
        i += 1;
    }
    let order = stable_sort_order(&keys, true);
    let ghost sorted = Seq::new(ranges@.len(), |j: int| ranges@[order@[j] as int]);
    proof {
        assert forall|a: int, b: int| 0 <= a < b < sorted.len() implies sorted[a].0 < sorted[b].0 || (
        sorted[a].0 == sorted[b].0 && sorted[a].1 <= sorted[b].1) by {
            assert((order@[a] as int) < keys@.len());
            assert((order@[b] as int) < keys@.len());
            assert(!crate::order::key_before(keys@[order@[b] as int], keys@[order@[a] as int], true));
        }
        assert(sorted_ranges(ranges@, sorted));
    }
    // merge in sorted order
    let mut ms: Vec<(usize, usize)> = Vec::new();
    let mut k: usize = 0;
    while k < order.len()
        invariant
            order@.len() == ranges@.len() == sorted.len(),
            is_permutation(order@, ranges@.len() as int),
            sorted == Seq::new(ranges@.len(), |j: int| ranges@[order@[j] as int]),
            k <= order@.len(),
            ms@.len() == merged(sorted.take(k as int)).len(),
            forall|j: int| 0 <= j < ms@.len() ==> (#[trigger] ms@[j]).0 as int == merged(sorted.take(k as int))[j].0
                && ms@[j].1 as int == merged(sorted.take(k as int))[j].1,
        decreases order.len() - k,
    {
        let (a, b) = ranges[order[k]];
        assert(sorted.take(k + 1).drop_last() =~= sorted.take(k as int));
        assert(sorted.take(k + 1).last() == (a, b));
        let n = ms.len();
        if n > 0 && a <= ms[n - 1].1 {
            let (s0, e0) = ms[n - 1];
            let e = if b > e0 {
                b
            } else {
                e0
            };
            ms.set(n - 1, (s0, e));
        } else {
            ms.push((a, b));
        }
        k += 1;
    }
    assert(sorted.take(sorted.len() as int) =~= sorted);
    let ghost m = merged(sorted);
    let ghost t = text.spec_bytes();
    let tlen = text.as_bytes().len();
    let mut out = String::new();
    let mut last: usize = 0;
    let mut j: usize = 0;
    assert(m.skip(0) =~= m);
    assert(out@ + Seq::<char>::empty() =~= Seq::<char>::empty());
    while j < ms.len()
        invariant
            t == text.spec_bytes(),
            tlen == t.len(),
            sorted_ranges(ranges@, sorted),
            m == merged(sorted),
            ms@.len() == m.len(),
            forall|q: int| 0 <= q < ms@.len() ==> (#[trigger] ms@[q]).0 as int == m[q].0 && ms@[q].1 as int
                == m[q].1,
            j <= ms@.len(),
            last <= t.len(),
            is_char_boundary(t, last as int),
            with_marks(t, m, 0) == match with_marks(t, m.skip(j as int), last as int) {
                None => None,
                Some(r) => Some(out@ + r),
            },
        decreases ms.len() - j,
    {
        let (a, b) = ms[j];
        let ghost rest = m.skip(j as int);
        assert(rest[0] == m[j as int]);
        assert(rest.drop_first() =~= m.skip(j + 1));
        if a > tlen || b > tlen || a >= b {
            j += 1;
        } else {
            if !(last <= a && text.is_char_boundary(a) && text.is_char_boundary(b)) {
                assert(with_marks(t, rest, last as int) is None);
                return None;
            }
            let x = slice_str(text, last, a);
            let y = slice_str(text, a, b);
            let ghost o0 = out@;
            push_str(&mut out, x);
            push_char(&mut out, '*');
            push_str(&mut out, y);
            push_char(&mut out, '*');
            proof {
                let front = piece(t, last as int, a as int) + seq!['*'] + piece(t, a as int, b as int) + seq!['*'];
                assert(out@ =~= o0 + front);
                match with_marks(t, m.skip(j + 1), b as int) {
                    None => {},
                    Some(r) => {
                        assert(o0 + (front + r) =~= out@ + r);
                    },
                }
            }
            last = b;
            j += 1;
        }
    }
    assert(m.skip(j as int) =~= Seq::<(int, int)>::empty());
    let z = slice_str(text, last, tlen);
    push_str(&mut out, z);
    Some(out)
}

/// `x` as a `usize`, or `usize::MAX` where it does not fit.
pub open spec fn saturated(x: int) -> usize {
    if x > usize::MAX {
        usize::MAX
    } else {
        x as usize
    }
}

/// The byte ranges of the lower-cased name `l` at which the word occurs, each as long as the
/// word itself; none for an empty word.
pub open spec fn word_ranges(l: Seq<u8>, w: Seq<char>) -> Seq<(usize, usize)> {
    if w.len() == 0 {
        Seq::empty()
    } else {
        let occ = occurrences(l, encode_utf8(lowered(w)), 0);
        Seq::new(occ.len(), |i: int| (occ[i] as usize, saturated(occ[i] + encode_utf8(w).len())))
    }
}

/// The ranges of all the words, word by word.
pub open spec fn all_ranges(l: Seq<u8>, words: Seq<Seq<char>>) -> Seq<(usize, usize)>
    decreases words.len(),
{
    if words.len() == 0 {
        Seq::empty()
    } else {
        all_ranges(l, words.drop_last()) + word_ranges(l, words.last())
    }
}

/// `r` is the path with every occurrence of every word marked in its file name (overlapping
/// and touching marks merged); `None` where a slice would fall off a character
/// boundary.
pub open spec fn highlighted_as(path: Seq<char>, words: Seq<Seq<char>>, r: Option<Seq<char>>) -> bool {
    let pb = encode_utf8(path);
    let ns = name_start(pb);
    let n = pb.subrange(ns, pb.len() as int);
    if !is_char_boundary(pb, ns) {
        r is None
    } else {
        let l = encode_utf8(lowered(decode_utf8(n)));
        exists|sorted: Seq<(usize, usize)>|
            {
                &&& sorted_ranges(all_ranges(l, words), sorted)
                &&& match with_marks(n, merged(sorted), 0) {
                    None => r is None,
                    Some(h) => r == Some(
                        if h != decode_utf8(n) {
                            decode_utf8(pb.subrange(0, ns)) + h
                        } else {
                            path
                        },
                    ),
                }
            }
    }
}

/// The path with every occurrence of the words marked in its file name (`highlighted_as`).
pub fn highlight_path(path: &str, words: &Vec<String>) -> (r: Option<String>)
    ensures
        highlighted_as(path@, strings_view(words@), match r {
            Some(t) => Some(t@),
            None => None,
        }),
{
    let pb = path.as_bytes();
    proof {
        lemma_last_index_of(pb@, 47u8);
    }
    let plen = pb.len();
    let ns = match rfind_byte(pb, 47u8) {
        Some(i) => {
            assert(i < plen);
            i + 1
        },
        None => 0,
    };
    assert(ns as int == name_start(pb@));
    if !path.is_char_boundary(ns) {
        return None;
    }
    let (parent, name) = path.split_at(ns);
    let ghost n = pb@.subrange(ns as int, pb@.len() as int);
    assert(name.spec_bytes() == n);
    assert(decode_utf8(encode_utf8(name@)) == name@);
    assert(decode_utf8(encode_utf8(parent@)) == parent@);
    let lower = to_lowercase(name);
    let ghost l = encode_utf8(lower@);
    let ghost w = strings_view(words@);
    let mut ranges: Vec<(usize, usize)> = Vec::new();
    let mut i: usize = 0;
    assert(w.take(0) =~= Seq::<Seq<char>>::empty());
    while i < words.len()
        invariant
            l == encode_utf8(lower@),
            w == strings_view(words@),
            i <= words@.len(),
            ranges@ == all_ranges(l, w.take(i as int)),
        decreases words.len() - i,
    {
        assert(w.take(i + 1).drop_last() =~= w.take(i as int));
        assert(w.take(i + 1).last() == words@[i as int]@);
        let word = words[i].as_str();
        let wb = word.as_bytes();
        if wb.len() > 0 {
            let wl = to_lowercase(word);
            let p = wl.as_str().as_bytes();
            let k = wb.len();
            let occ = find_all(lower.as_str(), p);
            let ghost oc = occurrences(l, p@, 0);
            let ghost base = ranges@;
            let mut j: usize = 0;
            while j < occ.len()
                invariant
                    occ@.len() == oc.len(),
                    forall|t: int| 0 <= t < occ@.len() ==> occ@[t] as int == #[trigger] oc[t],
                    j <= occ@.len(),
                    ranges@ == base + Seq::new(
                        j as nat,
                        |q: int| (oc[q] as usize, saturated(oc[q] + k)),
                    ),
                decreases occ.len() - j,
            {
                let pos = occ[j];
                let ghost before = ranges@;
                ranges.push((pos, pos.saturating_add(k)));
                assert(ranges@ =~= base + Seq::new(
                    (j + 1) as nat,
                    |q: int| (oc[q] as usize, saturated(oc[q] + k)),
                ));
                j += 1;
            }
            assert(word@.len() > 0);
            assert(p@ == encode_utf8(lowered(word@)));
            assert(Seq::new(occ@.len() as nat, |q: int| (oc[q] as usize, saturated(oc[q] + k)))
                =~= word_ranges(l, word@));
        } else {
            assert(word@.len() == 0);
            assert(word_ranges(l, word@) =~= Seq::<(usize, usize)>::empty());
            assert(ranges@ + word_ranges(l, word@) =~= ranges@);
        }
        i += 1;
    }
    assert(w.take(words@.len() as int) =~= w);
    assert(l == encode_utf8(lowered(decode_utf8(n))));
    let res = apply_highlight_ranges(name, ranges.as_slice());
    let ghost sorted = choose|sorted: Seq<(usize, usize)>|
        {
            &&& sorted_ranges(ranges@, sorted)
            &&& match res {
                Some(x) => with_marks(n, merged(sorted), 0) == Some(x@),
                None => with_marks(n, merged(sorted), 0) is None,
            }
        };
    assert(sorted_ranges(all_ranges(l, w), sorted));
    match res {
        None => None,
        Some(h) => {
            if crate::text::str_eq(h.as_str(), name) {
                Some(crate::text::string_of(path))
            } else {
                let mut out = crate::text::string_of(parent);
                push_str(&mut out, h.as_str());
                Some(out)
            }
        },
    }
}

/// The words of a query's terms, in order, that are marked in the names it reports.
pub open spec fn query_words(query: Query) -> Seq<Seq<char>> {
    needles_of(terms_model(query.terms@))
}

fn words_of(query: &Query) -> (r: Vec<String>)
    ensures
        strings_view(r@) == query_words(*query),
{
    let items = &query.terms;
    let ghost ts = terms_model(items@);
    proof {
        lemma_terms_model_len(items@);
    }
    let mut out: Vec<String> = Vec::new();
    let mut i: usize = 0;
    assert(ts.take(0) =~= Seq::<crate::query::TermModel>::empty());
    assert(strings_view(out@) =~= Seq::<Seq<char>>::empty());
    while i < items.len()
        invariant
            i <= items@.len() == ts.len(),
            ts == terms_model(items@),
            forall|j: int| 0 <= j < ts.len() ==> #[trigger] ts[j] == term_model(items@[j]),
            strings_view(out@) == needles_of(ts.take(i as int)),
        decreases items.len() - i,
    {
        let sub = term_needles(&items[i]);
        assert(ts.take(i + 1).drop_last() =~= ts.take(i as int));
        assert(ts.take(i + 1).last() == term_model(items@[i as int]));
        let mut k: usize = 0;
        let ghost base = strings_view(out@);
        while k < sub.len()
            invariant
                k <= sub@.len(),
                strings_view(out@) == base + strings_view(sub@).take(k as int),
            decreases sub.len() - k,
        {
            let ghost b2 = strings_view(out@);
            out.push(sub[k].clone());
            assert(strings_view(out@) =~= b2.push(sub@[k as int]@));
            assert(strings_view(sub@).take(k + 1) =~= strings_view(sub@).take(k as int).push(
                sub@[k as int]@,
            ));
            k += 1;
        }
        assert(strings_view(sub@).take(sub@.len() as int) =~= strings_view(sub@));
        i += 1;
    }
    assert(ts.take(ts.len() as int) =~= ts);
    out
}

/// The sizes of the entries `ids` added up as `u64` arithmetic does it without overflow
/// checks (wrapping).
pub open spec fn size_total(es: Seq<Entry>, ids: Seq<u32>) -> u64
    decreases ids.len(),
{
    if ids.len() == 0 {
        0
    } else {
        ((size_total(es, ids.drop_last()) + es[ids.last() as int].size) % 0x1_0000_0000_0000_0000) as u64
    }
}

/// The paths of the entries `page`, each with the words marked where `marks` is set; `None`
/// where marking one of them panics.
pub open spec fn page_paths(es: Seq<Entry>, page: Seq<u32>, words: Seq<Seq<char>>, marks: bool) -> Option<
    Seq<Seq<char>>,
>
    decreases page.len(),
{
    if page.len() == 0 {
        Some(Seq::empty())
    } else {
        match page_paths(es, page.drop_last(), words, marks) {
            None => None,
            Some(v) => {
                let p = es[page.last() as int].path@;
                if marks {
                    match last_word_spec(p, words) {
                        None => None,
                        Some(h) => Some(v.push(h)),
                    }
                } else {
                    Some(v.push(p))
                }
            },
        }
    }
}

pub open spec fn min_int(a: int, b: int) -> int {
    if a <= b {
        a
    } else {
        b
    }
}

/// The answer to the request `q` whose matches, sorted, are `sorted`: their number and total
/// size, and the page of their paths from `q.offset` on, at most `q.max_results` of them.
pub open spec fn results_for(es: Seq<Entry>, sorted: Seq<u32>, q: QueryRequest, query: Query) -> Option<
    ResponseView,
> {
    let total = sorted.len() as int;
    let o = min_int(q.offset as int, total);
    let e = min_int(o + q.max_results, total);
    let marks = q.highlight && query.terms@.len() > 0;
    match page_paths(es, sorted.subrange(o, e), query_words(query), marks) {
        None => None,
        Some(ps) => Some(
            ResponseView::Results {
                id: q.id,
                total_count: total as usize,
                total_size: size_total(es, sorted),
                paths: ps,
            },
        ),
    }
}

proof fn lemma_sorted_in_range(
    es: Seq<Entry>,
    m: Seq<u32>,
    s: Seq<u32>,
    key: crate::sort::SortKey,
    ascending: bool,
    j: int,
)
    requires
        stably_sorted_ids(es, m, s, key, ascending),
        forall|i: int| 0 <= i < m.len() ==> (m[i] as int) < es.len(),
        0 <= j < s.len(),
    ensures
        (s[j] as int) < es.len(),
{
    let order = choose|order: Seq<usize>|
        {
            &&& crate::order::is_permutation(order, m.len() as int)
            &&& s == Seq::new(m.len(), |i: int| m[order[i] as int])
            &&& forall|i: int, k: int|
                0 <= i < k < s.len() ==> !crate::sort::placed_before(
                    es[s[k] as int],
                    es[s[i] as int],
                    key,
                    ascending,
                )
            &&& forall|i: int, k: int|
                0 <= i < k < s.len() && !crate::sort::key_less(es[s[i] as int], es[s[k] as int], key)
                    && !crate::sort::key_less(es[s[k] as int], es[s[i] as int], key) ==> order[i] < order[k]
        };
    assert(s[j] == m[order[j] as int]);
    assert((order[j] as int) < m.len());
}

proof fn lemma_page_paths_stays_none(
    es: Seq<Entry>,
    page: Seq<u32>,
    words: Seq<Seq<char>>,
    marks: bool,
    i: int,
)
    requires
        0 <= i <= page.len(),
        page_paths(es, page.take(i), words, marks) is None,
    ensures
        page_paths(es, page, words, marks) is None,
    decreases page.len() - i,
{
    if i < page.len() {
        assert(page.take(i + 1).drop_last() =~= page.take(i));
        lemma_page_paths_stays_none(es, page, words, marks, i + 1);
    } else {
        assert(page.take(i) =~= page);
    }
}

proof fn lemma_page_paths_len(es: Seq<Entry>, page: Seq<u32>, words: Seq<Seq<char>>, marks: bool)
    ensures
        page_paths(es, page, words, marks) matches Some(v) ==> v.len() == page.len(),
    decreases page.len(),
{
    if page.len() > 0 {
        lemma_page_paths_len(es, page.drop_last(), words, marks);
    }
}

/// A page of results holds every match from the offset on, up to `max_results` of them: its
/// length is `min(max_results, total - min(offset, total))`, and the total counts all matches.
pub proof fn law_page_length(es: Seq<Entry>, sorted: Seq<u32>, q: QueryRequest, query: Query)
    ensures
        results_for(es, sorted, q, query) matches Some(ResponseView::Results { total_count, paths, .. })
            ==> {
            let o = min_int(q.offset as int, sorted.len() as int);
            &&& total_count == sorted.len() as usize
            &&& paths.len() == min_int(q.max_results as int, sorted.len() - o)
        },
{
    let total = sorted.len() as int;
    let o = min_int(q.offset as int, total);
    let e = min_int(o + q.max_results, total);
    lemma_page_paths_len(es, sorted.subrange(o, e), query_words(query), q.highlight && query.terms@.len() > 0);
}

/// The count and the total size in an answer, if it holds results.
pub open spec fn totals_of(r: Option<ResponseView>) -> Option<(usize, u64)> {
    match r {
        Some(ResponseView::Results { total_count, total_size, .. }) => Some((total_count, total_size)),
        _ => None,
    }
}

/// The total size in an answer is that of all the matches, not of the page: whatever the
/// offset and the page length, it is the (wrapping) sum of the sizes of every match.
pub proof fn law_total_size_counts_all_matches(es: Seq<Entry>, sorted: Seq<u32>, q: QueryRequest, query: Query)
    ensures
        results_for(es, sorted, q, query) matches Some(ResponseView::Results { total_size, total_count, .. })
            ==> total_size == size_total(es, sorted) && total_count == sorted.len() as usize,
{
}

/// Two requests that differ only in where the page starts and how long it is get the same
/// count and the same total size.
pub proof fn law_total_size_ignores_paging(
    es: Seq<Entry>,
    sorted: Seq<u32>,
    q: QueryRequest,
    query: Query,
    offset: usize,
    max_results: usize,
)
    ensures
        ({
            let q2 = QueryRequest { offset: offset, max_results: max_results, ..q };
            results_for(es, sorted, q, query) is Some && results_for(es, sorted, q2, query) is Some
                ==> totals_of(results_for(es, sorted, q, query)) == totals_of(results_for(es, sorted, q2, query))
        }),
{
}

/// The wrapping sum of the sizes of the matches adds each match once: the sum over matches
/// `s + t` is the sum over `s` plus the sum over `t`, wrapping at 2^64.
pub proof fn law_size_total_adds_up(es: Seq<Entry>, s: Seq<u32>, t: Seq<u32>)
    ensures
        size_total(es, s + t) == ((size_total(es, s) + size_total(es, t)) % 0x1_0000_0000_0000_0000) as u64,
    decreases t.len(),
{
    if t.len() == 0 {
        assert(s + t =~= s);
    } else {
        law_size_total_adds_up(es, s, t.drop_last());
        assert((s + t).drop_last() =~= s + t.drop_last());
        assert((s + t).last() == t.last());
        let a = size_total(es, s) as int;
        let b = size_total(es, t.drop_last()) as int;
        let c = es[t.last() as int].size as int;
        assert((((a + b) % 0x1_0000_0000_0000_0000) + c) % 0x1_0000_0000_0000_0000 == (a + ((b + c) % 0x1_0000_0000_0000_0000)) % 0x1_0000_0000_0000_0000) by (nonlinear_arith);
    }
}

/// `r` is what the daemon answers to the request `q` for its parsed query: `None` (the
/// query cannot be answered) where the path filter or a term cannot be compiled; else the answer for
/// the matching entries in increasing order, sorted as the query asks.
pub open spec fn answers(index: Index, q: QueryRequest, query: Query, r: Option<Response>) -> bool {
    &&& !(path_filter_usable(query) && terms_compile(terms_model(query.terms@))) ==> r is None
    &&& path_filter_usable(query) && terms_compile(terms_model(query.terms@)) ==> exists|
        m: Seq<u32>,
        s: Seq<u32>,
    |
        {
            &&& strictly_increasing(m)
            &&& forall|x: u32| m.contains(x) <==> selected(index, query, x)
            &&& stably_sorted_ids(
                index.entries@,
                m,
                s,
                sort_params_spec(query.sort).0,
                sort_params_spec(query.sort).1,
            )
            &&& match r {
                Some(x) => results_for(index.entries@, s, q, query) == Some(x@),
                None => results_for(index.entries@, s, q, query) is None,
            }
        }
}

/// What the daemon answers to the request `q` for its parsed query: the matching entries,
/// sorted as the query asks, counted and paged. `None` exactly where the query cannot be answered: a
/// path filter or a term that cannot be compiled, or a name that cannot be marked.
pub fn answer_query(index: &Index, q: &QueryRequest, query: &Query) -> (r: Option<Response>)
    requires
        index.wf(),
    ensures
        answers(*index, *q, *query, r),
{
    let matched = match try_match_query(index, query) {
        None => return None,
        Some(v) => v,
    };
    let ghost m = matched@;
    let (key, ascending) = sort_params(query.sort);
    let mut ids = matched;
    proof {
        assert forall|i: int| 0 <= i < ids@.len() implies (ids@[i] as int) < index.entries@.len() by {
            assert(m.contains(ids@[i]));
            assert(selected(*index, *query, ids@[i]));
        }
    }
    sort_ids(index, ids.as_mut_slice(), key, ascending);
    let ghost s = ids@;
    let total = ids.len();
    let mut total_size: u64 = 0;
    let mut i: usize = 0;
    proof {
        assert forall|j: int| 0 <= j < s.len() implies (s[j] as int) < index.entries@.len() by {
            lemma_sorted_in_range(index.entries@, m, s, key, ascending, j);
        }
    }
    while i < total
        invariant
            total == s.len(),
            ids@ == s,
            i <= total,
            forall|j: int| 0 <= j < s.len() ==> (#[trigger] s[j] as int) < index.entries@.len(),
            total_size == size_total(index.entries@, s.take(i as int)),
        decreases total - i,
    {
        assert(s.take(i + 1).drop_last() =~= s.take(i as int));
        let sz = index.entries[ids[i] as usize].size;
        total_size = total_size.wrapping_add(sz);
        i += 1;
    }
    assert(s.take(total as int) =~= s);
    let offset = if q.offset < total {
        q.offset
    } else {
        total
    };
    let end = if q.max_results <= total - offset {
        offset + q.max_results
    } else {
        total
    };
    let marks = q.highlight && query.terms.len() > 0;
    let words = if marks {
        words_of(query)
    } else {
        Vec::new()
    };
    let ghost w = query_words(*query);
    let mut paths: Vec<String> = Vec::new();
    let mut k: usize = offset;
    assert(s.subrange(offset as int, offset as int) =~= Seq::<u32>::empty());
    while k < end
        invariant
            offset <= k <= end <= total == s.len(),
            offset as int == min_int(q.offset as int, total as int),
            end as int == min_int(offset + q.max_results, total as int),
            marks == (q.highlight && query.terms@.len() > 0),
            w == query_words(*query),
            total_size == size_total(index.entries@, s),
            strictly_increasing(m),
            forall|x: u32| m.contains(x) <==> selected(*index, *query, x),
            stably_sorted_ids(
                index.entries@,
                m,
                s,
                sort_params_spec(query.sort).0,
                sort_params_spec(query.sort).1,
            ),
            ids@ == s,
            forall|j: int| 0 <= j < s.len() ==> (#[trigger] s[j] as int) < index.entries@.len(),
            marks ==> strings_view(words@) == w,
            page_paths(index.entries@, s.subrange(offset as int, k as int), w, marks) == Some(
                strings_view(paths@),
            ),
        decreases end - k,
    {
        let ghost pg = s.subrange(offset as int, k + 1);
        assert(pg.drop_last() =~= s.subrange(offset as int, k as int));
        assert(pg.last() == s[k as int]);
        let path = index.entries[ids[k] as usize].path.as_str();
        let ghost before = strings_view(paths@);
        if marks {
            match highlight_path_last_word(path, &words) {
                None => {
                    proof {
                        assert(index.entries@[pg.last() as int].path@ == path@);
                        assert(page_paths(index.entries@, pg, w, marks) is None);
                        assert(s.subrange(offset as int, end as int).take(k - offset + 1) =~= pg);
                        lemma_page_paths_stays_none(
                            index.entries@,
                            s.subrange(offset as int, end as int),
                            w,
                            marks,
                            k - offset + 1,
                        );
                        assert(results_for(index.entries@, s, *q, *query) is None);
                    }
                    return None;
                },
                Some(h) => {
                    paths.push(h);
                },
            }
        } else {
            paths.push(crate::text::string_of(path));
        }
        assert(strings_view(paths@) =~= before.push(paths@[paths@.len() - 1]@));
        k += 1;
    }
    let resp = Response::Results(ResultsResponse { id: q.id, total_count: total, total_size, paths });
    assert(results_for(index.entries@, s, *q, *query) == Some(resp@));
    Some(resp)
}

/// One row of the desktop daemon's answer: the path as shown (marked where asked), and the
/// entry's name, parent directory, extension, kind, size and times.
#[derive(Debug, Clone, PartialEq, Eq)]
pub struct ResultRow {
    pub path: String,
    pub name: String,
    pub parent: String,
    pub extension: String,
    pub is_dir: bool,
    pub size: u64,
    pub modified_unix: i64,
    pub created_unix: i64,
    pub accessed_unix: i64,
}

/// The desktop daemon's answer to a query: as `ResultsResponse`, with a row per entry.
#[derive(Debug, Clone, PartialEq, Eq)]
pub struct RowsResponse {
    pub id: u64,
    pub total_count: usize,
    pub total_size: u64,
    pub rows: Vec<ResultRow>,
}

/// The parent directory of an entry: its path up to the byte before the name (the `/`),
/// empty where the name starts the path; `None` where that is no character boundary.
pub open spec fn parent_of(e: Entry) -> Option<Seq<char>> {
    let pb = crate::index::path_bytes(e);
    let k = e.name_off as int;
    if k == 0 {
        Some(Seq::empty())
    } else if is_char_boundary(pb, k - 1) {
        Some(decode_utf8(pb.subrange(0, k - 1)))
    } else {
        None
    }
}

/// `row` is the row of entry `e`: its path as shown (marked with `words` where `marks` is set),
/// name, parent, extension, kind, size and times.
pub open spec fn row_of(e: Entry, words: Seq<Seq<char>>, marks: bool, row: ResultRow) -> bool {
    &&& if marks {
        highlighted_as(e.path@, words, Some(row.path@))
    } else {
        row.path@ == e.path@
    }
    &&& row.name@ == crate::index::name_chars(e)
    &&& parent_of(e) == Some(row.parent@)
    &&& row.extension@ == crate::index::ext_chars(e)
    &&& row.is_dir == e.is_dir
    &&& row.size == e.size
    &&& row.modified_unix == e.modified
    &&& row.created_unix == e.created
    &&& row.accessed_unix == e.accessed
}

/// The row of entry `e` cannot be made: marking its path or slicing its parent would fall off
/// a character boundary.
pub open spec fn row_fails(e: Entry, words: Seq<Seq<char>>, marks: bool) -> bool {
    (marks && highlighted_as(e.path@, words, None)) || parent_of(e) is None
}

/// The answer with rows for the request `q` whose matches, sorted, are `sorted`: their number
/// and total size, and a row for each entry of the page from `q.offset` on, at most
/// `q.max_results` of them.
pub open spec fn rows_for(es: Seq<Entry>, sorted: Seq<u32>, q: QueryRequest, query: Query, x: RowsResponse) -> bool {
    let total = sorted.len() as int;
    let o = min_int(q.offset as int, total);
    let e = min_int(o + q.max_results, total);
    let marks = q.highlight && query.terms@.len() > 0;
    let page = sorted.subrange(o, e);
    &&& x.id == q.id
    &&& x.total_count == total
    &&& x.total_size == size_total(es, sorted)
    &&& x.rows@.len() == page.len()
    &&& forall|i: int| 0 <= i < page.len() ==> row_of(es[page[i] as int], query_words(query), marks, #[trigger] x.rows@[i])
}

/// Some row of the page for `q` cannot be made.
pub open spec fn rows_fail(es: Seq<Entry>, sorted: Seq<u32>, q: QueryRequest, query: Query) -> bool {
    let total = sorted.len() as int;
    let o = min_int(q.offset as int, total);
    let e = min_int(o + q.max_results, total);
    exists|k: int| o <= k < e && row_fails(es[sorted[k] as int], query_words(query), q.highlight && query.terms@.len() > 0)
}

/// `r` is the desktop daemon's answer with rows to the request `q` for its parsed query, as
/// `answers` says of the answer with paths.
pub open spec fn answers_rows(index: Index, q: QueryRequest, query: Query, r: Option<RowsResponse>) -> bool {
    &&& !(path_filter_usable(query) && terms_compile(terms_model(query.terms@))) ==> r is None
    &&& path_filter_usable(query) && terms_compile(terms_model(query.terms@)) ==> exists|
        m: Seq<u32>,
        s: Seq<u32>,
    |
        {
            &&& strictly_increasing(m)
            &&& forall|x: u32| m.contains(x) <==> selected(index, query, x)
            &&& stably_sorted_ids(
                index.entries@,
                m,
                s,
                sort_params_spec(query.sort).0,
                sort_params_spec(query.sort).1,
            )
            &&& match r {
                Some(x) => rows_for(index.entries@, s, q, query, x),
                None => rows_fail(index.entries@, s, q, query),
            }
        }
}

/// The parent directory of an entry (`parent_of`).
fn parent_text(e: &Entry) -> (r: Option<String>)
    ensures
        match r {
            Some(t) => parent_of(*e) == Some(t@),
            None => parent_of(*e) is None,
        },
{
    let k = e.name_off as usize;
    if k == 0 {
        return Some(String::new());
    }
    let p = e.path.as_str();
    proof {
        assert(p.spec_bytes() == crate::index::path_bytes(*e));
    }
    if p.is_char_boundary(k - 1) {
        let (parent, _) = p.split_at(k - 1);
        assert(decode_utf8(encode_utf8(parent@)) == parent@);
        Some(crate::text::string_of(parent))
    } else {
        None
    }
}

/// The row of entry `e`, or `None` where it cannot be made (`row_fails`).
fn row_for(e: &Entry, words: &Vec<String>, marks: bool) -> (r: Option<ResultRow>)
    ensures
        match r {
            Some(row) => row_of(*e, strings_view(words@), marks, row),
            None => row_fails(*e, strings_view(words@), marks),
        },
{
    let path = e.path.as_str();
    let shown = if marks {
        match highlight_path(path, words) {
            None => {
                return None;
            },
            Some(h) => h,
        }
    } else {
        crate::text::string_of(path)
    };
    let parent = match parent_text(e) {
        None => {
            return None;
        },
        Some(t) => t,
    };
    Some(
        ResultRow {
            path: shown,
            name: crate::text::string_of(e.name()),
            parent,
            extension: crate::text::string_of(e.extension()),
            is_dir: e.is_dir,
            size: e.size,
            modified_unix: e.modified,
            created_unix: e.created,
            accessed_unix: e.accessed,
        },
    )
}

/// The desktop daemon's answer to the request `q` for its parsed query: the matching entries,
/// sorted as the query asks, counted, and a row for each entry of the page. `None` exactly where
/// the query cannot be answered: a path filter or a term that cannot be compiled, or a row of
/// the page that cannot be made.
pub fn answer_query_rows(index: &Index, q: &QueryRequest, query: &Query) -> (r: Option<RowsResponse>)
    requires
        index.wf(),
    ensures
        answers_rows(*index, *q, *query, r),
{
    let matched = match try_match_query(index, query) {
        None => return None,
        Some(v) => v,
    };
    let ghost m = matched@;
    let (key, ascending) = sort_params(query.sort);
    let mut ids = matched;
    proof {
        assert forall|i: int| 0 <= i < ids@.len() implies (ids@[i] as int) < index.entries@.len() by {
            assert(m.contains(ids@[i]));
            assert(selected(*index, *query, ids@[i]));
        }
    }
    sort_ids(index, ids.as_mut_slice(), key, ascending);
    let ghost s = ids@;
    let total = ids.len();
    let mut total_size: u64 = 0;
    let mut i: usize = 0;
    proof {
        assert forall|j: int| 0 <= j < s.len() implies (s[j] as int) < index.entries@.len() by {
            lemma_sorted_in_range(index.entries@, m, s, key, ascending, j);
        }
    }
    while i < total
        invariant
            total == s.len(),
            ids@ == s,
            i <= total,
            forall|j: int| 0 <= j < s.len() ==> (#[trigger] s[j] as int) < index.entries@.len(),
            total_size == size_total(index.entries@, s.take(i as int)),
        decreases total - i,
    {
        assert(s.take(i + 1).drop_last() =~= s.take(i as int));
        let sz = index.entries[ids[i] as usize].size;
        total_size = total_size.wrapping_add(sz);
        i += 1;
    }
    assert(s.take(total as int) =~= s);
    let offset = if q.offset < total {
        q.offset
    } else {
        total
    };
    let end = if q.max_results <= total - offset {
        offset + q.max_results
    } else {
        total
    };
    let marks = q.highlight && query.terms.len() > 0;
    let words = words_of(query);
    let ghost w = query_words(*query);
    let mut rows: Vec<ResultRow> = Vec::new();
    let mut k: usize = offset;
    while k < end
        invariant
            offset <= k <= end <= total == s.len(),
            offset as int == min_int(q.offset as int, total as int),
            end as int == min_int(offset + q.max_results, total as int),
            marks == (q.highlight && query.terms@.len() > 0),
            w == query_words(*query),
            strings_view(words@) == w,
            total_size == size_total(index.entries@, s),
            strictly_increasing(m),
            forall|x: u32| m.contains(x) <==> selected(*index, *query, x),
            stably_sorted_ids(
                index.entries@,
                m,
                s,
                sort_params_spec(query.sort).0,
                sort_params_spec(query.sort).1,
            ),
            ids@ == s,
            forall|j: int| 0 <= j < s.len() ==> (#[trigger] s[j] as int) < index.entries@.len(),
            rows@.len() == k - offset,
            forall|i: int|
                0 <= i < rows@.len() ==> row_of(index.entries@[s[offset + i] as int], w, marks, #[trigger] rows@[i]),
        decreases end - k,
    {
        match row_for(&index.entries[ids[k] as usize], &words, marks) {
            None => {
                assert(row_fails(index.entries@[s[k as int] as int], w, marks));
                assert(rows_fail(index.entries@, s, *q, *query));
                return None;
            },
            Some(row) => {
                rows.push(row);
            },
        }
        k += 1;
    }
    let resp = RowsResponse { id: q.id, total_count: total, total_size, rows };
    proof {
        let page = s.subrange(offset as int, end as int);
        assert forall|i: int| 0 <= i < page.len() implies row_of(
            index.entries@[page[i] as int],
            w,
            marks,
            #[trigger] resp.rows@[i],
        ) by {
            assert(page[i] == s[offset + i]);
        }
        assert(rows_for(index.entries@, s, *q, *query, resp));
    }
    Some(resp)
}

/// `r` is the daemon's answer to the request `q`: the parser's error where the query text
/// does not parse (or it holds a date filter and the clock is out of range), else the answer
/// for the parsed query.
pub open spec fn handled_query(index: Index, q: QueryRequest, r: Option<Response>) -> bool {
    match r {
        Some(Response::Error(e)) => (e@ == "system clock out of range"@ && has_date_filter(q.raw@))
            || exists|now: i64|
            clock_in_range(now) && parse_spec(q.raw@, now) == Err::<QueryModel, Seq<char>>(e@),
        _ => exists|query: Query|
            (exists|now: i64|
                clock_in_range(now) && parse_spec(q.raw@, now) == Ok::<QueryModel, Seq<char>>(
                    query.model(),
                )) && answers(index, q, query, r),
    }
}

/// The daemon's answer to a query request: the query text parsed (against the clock), then
/// answered; a query that does not parse is answered with the parser's error.
pub fn handle_query(index: &Index, q: &QueryRequest) -> (r: Option<Response>)
    requires
        index.wf(),
    ensures
        handled_query(*index, *q, r),
{
    match Query::parse(q.raw.as_str()) {
        Err(e) => Some(Response::Error(e.0)),
        Ok(query) => {
            let r = answer_query(index, q, &query);
            assert(!(r matches Some(Response::Error(_))));
            r
        },
    }
}

/// `r` is the desktop daemon's answer with rows to the request `q`: the parser's error where
/// the query text does not parse (or it holds a date filter and the clock is out of range),
/// else the answer with rows for the parsed query.
pub open spec fn handled_query_rows(index: Index, q: QueryRequest, r: Option<Result<RowsResponse, String>>) -> bool {
    match r {
        Some(Err(e)) => (e@ == "system clock out of range"@ && has_date_filter(q.raw@)) || exists|
            now: i64,
        | clock_in_range(now) && parse_spec(q.raw@, now) == Err::<QueryModel, Seq<char>>(e@),
        Some(Ok(x)) => exists|query: Query|
            #![trigger answers_rows(index, q, query, Some(x))]
            (exists|now: i64|
                clock_in_range(now) && parse_spec(q.raw@, now) == Ok::<QueryModel, Seq<char>>(
                    query.model(),
                )) && answers_rows(index, q, query, Some(x)),
        None => exists|query: Query|
            #![trigger answers_rows(index, q, query, None)]
            (exists|now: i64|
                clock_in_range(now) && parse_spec(q.raw@, now) == Ok::<QueryModel, Seq<char>>(
                    query.model(),
                )) && answers_rows(index, q, query, None),
    }
}

/// The desktop daemon's answer to a query request: the query text parsed (against the clock),
/// then answered with rows; a query that does not parse is answered with the parser's error.
pub fn handle_query_rows(index: &Index, q: &QueryRequest) -> (r: Option<Result<RowsResponse, String>>)
    requires
        index.wf(),
    ensures
        handled_query_rows(*index, *q, r),
{
    match Query::parse(q.raw.as_str()) {
        Err(e) => {
            let r = Some(Err(e.0));
            assert(handled_query_rows(*index, *q, r));
            r
        },
        Ok(query) => {
            let a = answer_query_rows(index, q, &query);
            assert(exists|now: i64|
                clock_in_range(now) && parse_spec(q.raw@, now) == Ok::<QueryModel, Seq<char>>(
                    query.model(),
                ));
            match a {
                None => {
                    assert(answers_rows(*index, *q, query, None));
                    assert(handled_query_rows(*index, *q, None));
                    None
                },
                Some(x) => {
                    let ghost r: Option<Result<RowsResponse, String>> = Some(Ok(x));
                    assert(answers_rows(*index, *q, query, Some(x)));
                    assert(r matches Some(Ok(y)) && y == x);
                    assert(handled_query_rows(*index, *q, r));
                    Some(Ok(x))
                },
            }
        },
    }
}

/// What the daemon holds: its index, whether it is ready to answer, how long the last build
/// took, when the index last changed (seconds since the Unix epoch), and the watcher's
/// counters.
pub struct DaemonState {
    pub index: Index,
    pub is_ready: bool,
    pub build_duration_ms: u64,
    pub last_updated_unix: i64,
    pub watcher: WatcherStatus,
}

/// The daemon's status: what its state holds, with the time the index last changed.
pub open spec fn status_spec(st: DaemonState) -> StatusResponse {
    StatusResponse {
        indexed_count: st.index.entries@.len() as usize,
        is_ready: st.is_ready,
        watcher_healthy: st.watcher.is_healthy,
        watched_dir_count: st.watcher.watched_dir_count,
        watch_failure_count: st.watcher.watch_failure_count,
        watch_overflow_count: st.watcher.watch_overflow_count,
        last_updated_unix: st.last_updated_unix,
        build_duration_ms: st.build_duration_ms,
    }
}

/// The status reply: the stored time of the last change to the index, not the clock.
pub fn status_response(st: &DaemonState) -> (r: StatusResponse)
    ensures
        r == status_spec(*st),
{
    StatusResponse {
        indexed_count: st.index.count(),
        is_ready: st.is_ready,
        watcher_healthy: st.watcher.is_healthy,
        watched_dir_count: st.watcher.watched_dir_count,
        watch_failure_count: st.watcher.watch_failure_count,
        watch_overflow_count: st.watcher.watch_overflow_count,
        last_updated_unix: st.last_updated_unix,
        build_duration_ms: st.build_duration_ms,
    }
}

/// What a request asks of the daemon: a reply it can give at once, or the index written out
/// (`Flush`) or built anew (`Reindex`).
pub enum Handling {
    Reply(Response),
    Flush,
    Reindex,
}

/// The reply in a handling, if it is one.
pub open spec fn reply_of(h: Option<Handling>) -> Option<Response> {
    match h {
        Some(Handling::Reply(x)) => Some(x),
        _ => None,
    }
}

/// How the daemon handles a request: writing and rebuilding the index are left to the caller;
/// the status and queries are answered from its state, a query only once the index is ready.
/// `None` where answering the query panics.
pub fn handle_request(req: &Request, st: &DaemonState) -> (r: Option<Handling>)
    requires
        !(req is Quit),
        st.index.wf(),
    ensures
        req is Flush ==> r matches Some(Handling::Flush),
        req is Reindex ==> r matches Some(Handling::Reindex),
        req is Status ==> reply_of(r) == Some(Response::Status(status_spec(*st))),
        req matches Request::Query(q) ==> {
            &&& !(r matches Some(Handling::Flush))
            &&& !(r matches Some(Handling::Reindex))
            &&& if st.is_ready {
                handled_query(st.index, *q, reply_of(r))
            } else {
                reply_of(r) matches Some(x) && x@ == ResponseView::Error("daemon not ready"@)
            }
        },
{
    match req {
        Request::Flush => Some(Handling::Flush),
        Request::Reindex => Some(Handling::Reindex),
        Request::Status => Some(Handling::Reply(Response::Status(status_response(st)))),
        Request::Query(q) => {
            if !st.is_ready {
                return Some(
                    Handling::Reply(Response::Error(crate::text::string_of("daemon not ready"))),
                );
            }
            match handle_query(&st.index, q) {
                None => None,
                Some(resp) => Some(Handling::Reply(resp)),
            }
        },
        Request::Quit => {
            proof {
                assert(false);
            }
            None
        },
    }
}

/// The reply to a flush: acknowledged, or the error of writing the index.
pub fn flush_reply(written: Result<(), String>) -> (r: Response)
    ensures
        written is Ok ==> r == Response::Ack,
        written matches Err(e) ==> r == Response::Error(e),
{
    match written {
        Ok(()) => Response::Ack,
        Err(e) => Response::Error(e),
    }
}

/// The state after a rebuilt index is installed at time `now`: ready, with the build's
/// duration, updated at `now`.
pub fn install_index(st: &mut DaemonState, index: Index, duration_ms: u64, now: i64)
    ensures
        final(st).index == index,
        final(st).build_duration_ms == duration_ms,
        final(st).is_ready,
        final(st).last_updated_unix == now,
        final(st).watcher == old(st).watcher,
{
    st.index = index;
    st.build_duration_ms = duration_ms;
    st.is_ready = true;
    st.last_updated_unix = now;
}

/// Records that the index changed at time `now` (a batch of watcher events was applied);
/// nothing else changes.
pub fn mark_updated(st: &mut DaemonState, now: i64)
    ensures
        final(st).last_updated_unix == now,
        final(st).index == old(st).index,
        final(st).is_ready == old(st).is_ready,
        final(st).build_duration_ms == old(st).build_duration_ms,
        final(st).watcher == old(st).watcher,
{
    st.last_updated_unix = now;
}

} // verus!
