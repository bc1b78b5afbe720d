//! Walking a directory tree into the index, and the rules that leave entries out: system
//! paths, excluded subtrees, hidden files and directories, name patterns and folder patterns.
//! Paths are read as Unix paths: split at `/`, with empty and `.` parts dropped (a leading `.`
//! kept), as `std::path::Path::components` reads them.
use crate::index::{insertable, insertable_path, Index};
use crate::text::{chars_of, eq_lit, slice_chars, split_chars, split_on};
use vstd::prelude::*;

verus! {

pub open spec fn strings_view(v: Seq<String>) -> Seq<Seq<char>> {
    Seq::new(v.len(), |i: int| v[i]@)
}

/// The pieces that name something: not empty, not `.`.
pub open spec fn named_parts(v: Seq<Seq<char>>) -> Seq<Seq<char>>
    decreases v.len(),
{
    if v.len() == 0 {
        v
    } else if v.last().len() == 0 || v.last() == "."@ {
        named_parts(v.drop_last())
    } else {
        named_parts(v.drop_last()).push(v.last())
    }
}

/// The components of a path: `/` for the root, `.` for a leading current directory, then the
/// named parts (`..` among them).
pub open spec fn components(p: Seq<char>) -> Seq<Seq<char>> {
    let pieces = split_on(p, '/');
    let rooted = p.len() > 0 && p[0] == '/';
    let cur = !rooted && pieces.len() > 0 && pieces[0] == "."@;
    (if rooted {
        seq!["/"@]
    } else if cur {
        seq!["."@]
    } else {
        Seq::empty()
    }) + named_parts(
        if cur {
            pieces.drop_first()
        } else {
            pieces
        },
    )
}

/// The last component where it names a file or directory.
pub open spec fn file_name(p: Seq<char>) -> Option<Seq<char>> {
    let c = components(p);
    if c.len() > 0 && c.last() != "/"@ && c.last() != "."@ && c.last() != ".."@ {
        Some(c.last())
    } else {
        None
    }
}

/// A hidden name: a dot and at least one more character.
pub open spec fn hidden_name(c: Seq<char>) -> bool {
    c.len() >= 2 && c[0] == '.'
}

/// Some component above the last one is hidden.
pub open spec fn hidden_ancestor(p: Seq<char>) -> bool {
    let c = components(p);
    c.len() > 0 && c.last() != "/"@ && exists|i: int| 0 <= i < c.len() - 1 && hidden_name(#[trigger] c[i])
}

/// Inside a hidden directory, or a hidden directory itself.
pub open spec fn hidden_dir_path(p: Seq<char>, is_dir: bool) -> bool {
    hidden_ancestor(p) || (is_dir && (file_name(p) matches Some(n) && hidden_name(n)))
}

/// `p` without its leading `*`s.
pub open spec fn drop_stars(p: Seq<char>) -> Seq<char>
    decreases p.len(),
{
    if p.len() > 0 && p[0] == '*' {
        drop_stars(p.drop_first())
    } else {
        p
    }
}

/// What dropping the leading stars leaves.
pub proof fn lemma_drop_stars(p: Seq<char>)
    ensures
        drop_stars(p).len() <= p.len(),
        p.len() > 0 && p[0] == '*' ==> drop_stars(p).len() < p.len(),
        drop_stars(p).len() > 0 ==> drop_stars(p)[0] != '*',
        drop_stars(p) == p.skip(p.len() - drop_stars(p).len()),
    decreases p.len(),
{
    if p.len() > 0 && p[0] == '*' {
        lemma_drop_stars(p.drop_first());
        assert(p.drop_first().skip(p.drop_first().len() - drop_stars(p).len()) =~= p.skip(
            p.len() - drop_stars(p).len(),
        ));
    } else {
        assert(p.skip(0) =~= p);
    }
}

/// The glob of the exclusion rules: `?` is any one character, `*` any run of characters
/// (the empty run too), every other character itself.
pub open spec fn wglob(t: Seq<char>, p: Seq<char>) -> bool
    decreases p.len(), t.len() + 1,
{
    if p.len() == 0 {
        t.len() == 0
    } else if p[0] == '*' {
        let q = drop_stars(p);
        proof {
            lemma_drop_stars(p);
        }
        q.len() == 0 || wstar(t, q, 0)
    } else if p[0] == '?' {
        t.len() > 0 && wglob(t.drop_first(), p.drop_first())
    } else {
        t.len() > 0 && t[0] == p[0] && wglob(t.drop_first(), p.drop_first())
    }
}

/// From some position from `i` on, the rest of the text matches `q`.
pub open spec fn wstar(t: Seq<char>, q: Seq<char>, i: int) -> bool
    decreases q.len() + 1, t.len() - i,
    when 0 <= i && q.len() > 0
{
    if i >= t.len() {
        false
    } else {
        wglob(t.skip(i), q) || wstar(t, q, i + 1)
    }
}

/// A `*` in front of an exclusion pattern matches the empty run: whatever a pattern matches,
/// the pattern with a `*` in front matches too.
pub proof fn law_wglob_leading_star_matches_empty(t: Seq<char>, q: Seq<char>)
    requires
        wglob(t, q),
    ensures
        wglob(t, seq!['*'] + q),
{
    let p = seq!['*'] + q;
    assert(p[0] == '*');
    assert(p.drop_first() =~= q);
    assert(drop_stars(p) == drop_stars(q));
    if !(q.len() > 0 && q[0] == '*') && q.len() > 0 {
        assert(drop_stars(q) == q);
        assert(t.len() > 0);
        assert(t.skip(0) =~= t);
        assert(wstar(t, q, 0));
    }
}

/// A literal prefix of an exclusion pattern takes itself off the text.
pub proof fn law_wglob_literal_prefix(a: Seq<char>, t: Seq<char>, q: Seq<char>)
    requires
        forall|i: int| 0 <= i < a.len() ==> a[i] != '*' && a[i] != '?',
    ensures
        wglob(a + t, a + q) == wglob(t, q),
    decreases a.len(),
{
    if a.len() > 0 {
        let a1 = a.drop_first();
        assert forall|i: int| 0 <= i < a1.len() implies a1[i] != '*' && a1[i] != '?' by {
            assert(a1[i] == a[i + 1]);
        }
        law_wglob_literal_prefix(a1, t, q);
        assert((a + q)[0] == a[0]);
        assert((a + t)[0] == a[0]);
        assert((a + q).drop_first() =~= a1 + q);
        assert((a + t).drop_first() =~= a1 + t);
    } else {
        assert(a + t =~= t);
        assert(a + q =~= q);
    }
}

/// In an exclusion pattern a `*` matches the empty run wherever it stands after a literal
/// part: where `a + q` matches `a + t`, so does `a + "*" + q`.
pub proof fn law_wglob_star_matches_empty(a: Seq<char>, t: Seq<char>, q: Seq<char>)
    requires
        forall|i: int| 0 <= i < a.len() ==> a[i] != '*' && a[i] != '?',
        wglob(a + t, a + q),
    ensures
        wglob(a + t, a + seq!['*'] + q),
{
    law_wglob_literal_prefix(a, t, q);
    law_wglob_leading_star_matches_empty(t, q);
    law_wglob_literal_prefix(a, t, seq!['*'] + q);
    assert(a + seq!['*'] + q =~= a + (seq!['*'] + q));
}

/// In an exclusion pattern a `?` takes exactly one character, whichever it is, and never
/// matches the empty text.
pub proof fn law_wglob_question_takes_one(c: char, t: Seq<char>, q: Seq<char>)
    ensures
        wglob(seq![c] + t, seq!['?'] + q) == wglob(t, q),
        !wglob(Seq::empty(), seq!['?'] + q),
{
    assert((seq![c] + t).drop_first() =~= t);
    assert((seq!['?'] + q).drop_first() =~= q);
    assert((seq!['?'] + q)[0] == '?');
}

/// A folder pattern (`**/` in front is dropped) that some component of the path matches.
pub open spec fn folder_match(p: Seq<char>, pattern: Seq<char>) -> bool {
    exists|j: int|
        0 <= j < components(p).len() && wglob(#[trigger] components(p)[j], folder_pattern(pattern))
}

/// The exclusion rules.
#[derive(Debug, Clone, PartialEq, Eq)]
pub struct Excludes {
    pub skip_hidden: bool,
    pub skip_system_paths: bool,
    pub patterns: Vec<String>,
    pub folders: Vec<String>,
    pub paths: Vec<String>,
    pub include_only: Vec<String>,
}

pub struct ExcludesView {
    pub skip_hidden: bool,
    pub skip_system_paths: bool,
    pub patterns: Seq<Seq<char>>,
    pub folders: Seq<Seq<char>>,
    pub paths: Seq<Seq<char>>,
    pub include_only: Seq<Seq<char>>,
}

impl View for Excludes {
    type V = ExcludesView;

    open spec fn view(&self) -> ExcludesView {
        ExcludesView {
            skip_hidden: self.skip_hidden,
            skip_system_paths: self.skip_system_paths,
            patterns: strings_view(self.patterns@),
            folders: strings_view(self.folders@),
            paths: strings_view(self.paths@),
            include_only: strings_view(self.include_only@),
        }
    }
}

/// The file name matched by the patterns; empty where the path names no file.
pub open spec fn name_of(p: Seq<char>) -> Seq<char> {
    match file_name(p) {
        Some(n) => n,
        None => Seq::empty(),
    }
}

pub open spec fn is_prefix(a: Seq<Seq<char>>, b: Seq<Seq<char>>) -> bool {
    a.len() <= b.len() && b.take(a.len() as int) == a
}

/// A path that the rules leave out.
pub open spec fn excluded(ex: ExcludesView, p: Seq<char>) -> bool {
    ||| ex.skip_system_paths && (p == "/proc"@ || p == "/sys"@ || p == "/dev"@)
    ||| exists|i: int|
        0 <= i < ex.paths.len() && is_prefix(components(#[trigger] ex.paths[i]), components(p))
    ||| ex.skip_hidden && (file_name(p) matches Some(n) && n.len() > 0 && n[0] == '.')
    ||| ex.include_only.len() > 0 && !(exists|i: int|
        0 <= i < ex.include_only.len() && wglob(name_of(p), #[trigger] ex.include_only[i]))
    ||| exists|i: int| 0 <= i < ex.patterns.len() && wglob(name_of(p), #[trigger] ex.patterns[i])
    ||| exists|i: int| 0 <= i < ex.folders.len() && folder_match(p, #[trigger] ex.folders[i])
}


pub open spec fn chars_view(v: Seq<Vec<char>>) -> Seq<Seq<char>> {
    Seq::new(v.len(), |i: int| v[i]@)
}

fn components_exec(p: &[char]) -> (r: Vec<Vec<char>>)
    ensures
        chars_view(r@) == components(p@),
{
    let pieces = split_chars(p, '/');
    let ghost ps = split_on(p@, '/');
    let rooted = p.len() > 0 && p[0] == '/';
    let cur = !rooted && pieces.len() > 0 && eq_lit(pieces[0].as_slice(), ".");
    let mut out: Vec<Vec<char>> = Vec::new();
    if rooted {
        out.push(chars_of("/"));
    } else if cur {
        out.push(chars_of("."));
    }
    let ghost head = chars_view(out@);
    let start: usize = if cur {
        1
    } else {
        0
    };
    let ghost rest = if cur {
        ps.drop_first()
    } else {
        ps
    };
    assert(rest =~= ps.skip(start as int));
    let mut i: usize = start;
    assert(rest.take(0) =~= Seq::<Seq<char>>::empty());
    assert(head =~= (if rooted {
        seq!["/"@]
    } else if cur {
        seq!["."@]
    } else {
        Seq::<Seq<char>>::empty()
    }));
    while i < pieces.len()
        invariant
            start <= i <= pieces@.len() == ps.len(),
            forall|j: int| 0 <= j < pieces@.len() ==> (#[trigger] pieces@[j])@ == ps[j],
            rest == ps.skip(start as int),
            chars_view(out@) == head + named_parts(rest.take(i - start)),
        decreases pieces.len() - i,
    {
        assert(rest.take(i + 1 - start).drop_last() =~= rest.take(i - start));
        assert(rest.take(i + 1 - start).last() == ps[i as int]);
        let piece = &pieces[i];
        if !(piece.len() == 0 || eq_lit(piece.as_slice(), ".")) {
            let ghost before = chars_view(out@);
            let copy = slice_chars(piece.as_slice(), 0, piece.len());
            assert(copy@ =~= piece@);
            out.push(copy);
            assert(chars_view(out@) =~= before.push(ps[i as int]));
            assert(chars_view(out@) =~= head + named_parts(rest.take(i + 1 - start)));
        }
        i += 1;
    }
    assert(rest.take(pieces@.len() - start) =~= rest);
    out
}

fn file_name_exec(c: &Vec<Vec<char>>) -> (r: Option<usize>)
    ensures
        match r {
            Some(k) => k + 1 == c@.len() && file_name_of(chars_view(c@)) == Some(c@[k as int]@),
            None => file_name_of(chars_view(c@)) is None,
        },
{
    let n = c.len();
    if n == 0 {
        return None;
    }
    let last = c[n - 1].as_slice();
    if eq_lit(last, "/") || eq_lit(last, ".") || eq_lit(last, "..") {
        None
    } else {
        Some(n - 1)
    }
}

/// The last component of the components `c` where it names a file or directory.
pub open spec fn file_name_of(c: Seq<Seq<char>>) -> Option<Seq<char>> {
    if c.len() > 0 && c.last() != "/"@ && c.last() != "."@ && c.last() != ".."@ {
        Some(c.last())
    } else {
        None
    }
}

fn hidden_name_exec(c: &[char]) -> (r: bool)
    ensures
        r == hidden_name(c@),
{
    c.len() >= 2 && c[0] == '.'
}

fn hidden_ancestor_of(c: &Vec<Vec<char>>) -> (r: bool)
    ensures
        r == (chars_view(c@).len() > 0 && chars_view(c@).last() != "/"@ && exists|i: int|
            0 <= i < chars_view(c@).len() - 1 && hidden_name(#[trigger] chars_view(c@)[i])),
{
    let ghost cv = chars_view(c@);
    let n = c.len();
    if n == 0 || eq_lit(c[n - 1].as_slice(), "/") {
        return false;
    }
    let mut i: usize = 0;
    while i + 1 < n
        invariant
            n == c@.len() > 0,
            cv == chars_view(c@),
            cv.last() != "/"@,
            i + 1 <= n,
            forall|j: int| 0 <= j < i ==> !hidden_name(#[trigger] cv[j]),
        decreases n - i,
    {
        if hidden_name_exec(c[i].as_slice()) {
            assert(hidden_name(cv[i as int]));
            return true;
        }
        i += 1;
    }
    false
}

/// `path` lies under `root`: the components of `root` begin those of `path`.
pub open spec fn path_under(path: Seq<char>, root: Seq<char>) -> bool {
    let a = components(path);
    let b = components(root);
    b.len() <= a.len() && a.take(b.len() as int) == b
}

/// `path` lies under one of `roots`.
pub open spec fn within_roots(path: Seq<char>, roots: Seq<Seq<char>>) -> bool {
    exists|i: int| 0 <= i < roots.len() && path_under(path, #[trigger] roots[i])
}

fn chars_vec_eq(a: &Vec<char>, b: &Vec<char>) -> (r: bool)
    ensures
        r == (a@ == b@),
{
    if a.len() != b.len() {
        return false;
    }
    let mut i: usize = 0;
    while i < a.len()
        invariant
            a@.len() == b@.len(),
            i <= a@.len(),
            forall|j: int| 0 <= j < i ==> a@[j] == b@[j],
        decreases a.len() - i,
    {
        if a[i] != b[i] {
            return false;
        }
        i += 1;
    }
    assert(a@ =~= b@);
    true
}

/// Whether `path` lies under `root`, component by component (`/a/bc` is not under `/a/b`).
pub fn is_path_under(path: &str, root: &str) -> (r: bool)
    ensures
        r == path_under(path@, root@),
{
    let a = components_exec(chars_of(path).as_slice());
    let b = components_exec(chars_of(root).as_slice());
    let ghost av = chars_view(a@);
    let ghost bv = chars_view(b@);
    if b.len() > a.len() {
        return false;
    }
    let mut i: usize = 0;
    while i < b.len()
        invariant
            b@.len() <= a@.len(),
            av == chars_view(a@),
            bv == chars_view(b@),
            av == components(path@),
            bv == components(root@),
            i <= b@.len(),
            forall|j: int| 0 <= j < i ==> av[j] == bv[j],
        decreases b.len() - i,
    {
        assert(av[i as int] == a@[i as int]@ && bv[i as int] == b@[i as int]@);
        if !chars_vec_eq(&a[i], &b[i]) {
            assert(av.take(bv.len() as int)[i as int] != bv[i as int]);
            assert(av.take(bv.len() as int) != bv);
            return false;
        }
        i += 1;
    }
    assert(av.take(bv.len() as int) =~= bv);
    true
}

/// Whether `path` lies under one of `roots`.
pub fn is_within_roots(path: &str, roots: &Vec<String>) -> (r: bool)
    ensures
        r == within_roots(path@, strings_view(roots@)),
{
    let mut i: usize = 0;
    while i < roots.len()
        invariant
            i <= roots@.len(),
            forall|j: int| 0 <= j < i ==> !path_under(path@, #[trigger] strings_view(roots@)[j]),
        decreases roots.len() - i,
    {
        if is_path_under(path, roots[i].as_str()) {
            assert(path_under(path@, strings_view(roots@)[i as int]));
            return true;
        }
        i += 1;
    }
    false
}

/// Whether a directory above the last component of `path` is hidden.
pub fn has_hidden_ancestor_dir(path: &str) -> (r: bool)
    ensures
        r == hidden_ancestor(path@),
{
    let c = components_exec(chars_of(path).as_slice());
    hidden_ancestor_of(&c)
}

/// Whether `path` is in a hidden directory or, being a directory, is hidden itself.
pub fn is_hidden_dir_path(path: &str, is_dir: bool) -> (r: bool)
    ensures
        r == hidden_dir_path(path@, is_dir),
{
    let c = components_exec(chars_of(path).as_slice());
    if hidden_ancestor_of(&c) {
        return true;
    }
    if !is_dir {
        return false;
    }
    match file_name_exec(&c) {
        Some(k) => hidden_name_exec(c[k].as_slice()),
        None => false,
    }
}

fn glob_exec(t: &[char], p: &[char]) -> (r: bool)
    ensures
        r == wglob(t@, p@),
    decreases p@.len(), t@.len() + 1,
{
    let n = t.len();
    let m = p.len();
    if m == 0 {
        return n == 0;
    }
    if p[0] == '*' {
        let mut k: usize = 0;
        proof {
            lemma_drop_stars(p@);
        }
        assert(p@.skip(0) =~= p@);
        while k < m && p[k] == '*'
            invariant
                k <= m == p@.len(),
                drop_stars(p@) == drop_stars(p@.skip(k as int)),
            decreases m - k,
        {
            assert(p@.skip(k as int).drop_first() =~= p@.skip(k + 1));
            k += 1;
        }
        let q = vstd::slice::slice_subrange(p, k, m);
        assert(q@ =~= p@.skip(k as int));
        assert(drop_stars(q@) == q@);
        if q.len() == 0 {
            return true;
        }
        proof {
            lemma_drop_stars(p@);
        }
        let mut i: usize = 0;
        while i < n
            invariant
                i <= n == t@.len(),
                q@ == drop_stars(p@),
                q@.len() > 0,
                q@.len() < p@.len(),
                wstar(t@, q@, 0) == wstar(t@, q@, i as int),
            decreases n - i,
        {
            let rest = vstd::slice::slice_subrange(t, i, n);
            assert(rest@ =~= t@.skip(i as int));
            if glob_exec(rest, q) {
                return true;
            }
            i += 1;
        }
        return false;
    }
    if n == 0 {
        return false;
    }
    if p[0] != '?' && t[0] != p[0] {
        return false;
    }
    let t2 = vstd::slice::slice_subrange(t, 1, n);
    let p2 = vstd::slice::slice_subrange(p, 1, m);
    assert(t2@ =~= t@.drop_first());
    assert(p2@ =~= p@.drop_first());
    glob_exec(t2, p2)
}

fn folder_match_exec(c: &Vec<Vec<char>>, pattern: &str) -> (r: bool)
    ensures
        r == (exists|j: int| 0 <= j < chars_view(c@).len() && wglob(#[trigger] chars_view(c@)[j], folder_pattern(pattern@))),
{
    let pc = chars_of(pattern);
    let np = pc.len();
    let pat = if np >= 3 && pc[0] == '*' && pc[1] == '*' && pc[2] == '/' {
        proof {
            reveal_strlit("**/");
        }
        assert(pc@.take(3) =~= "**/"@);
        slice_chars(pc.as_slice(), 3, np)
    } else {
        proof {
            reveal_strlit("**/");
            if pc@.len() >= 3 && pc@.take(3) == "**/"@ {
                assert(pc@.take(3)[0] == '*');
                assert(pc@.take(3)[1] == '*');
                assert(pc@.take(3)[2] == '/');
            }
        }
        slice_chars(pc.as_slice(), 0, np)
    };
    assert(pat@ =~= folder_pattern(pattern@));
    let ghost cv = chars_view(c@);
    let mut j: usize = 0;
    while j < c.len()
        invariant
            j <= c@.len(),
            cv == chars_view(c@),
            pat@ == folder_pattern(pattern@),
            forall|k: int| 0 <= k < j ==> !wglob(#[trigger] cv[k], pat@),
        decreases c.len() - j,
    {
        if glob_exec(c[j].as_slice(), pat.as_slice()) {
            assert(wglob(cv[j as int], pat@));
            return true;
        }
        j += 1;
    }
    false
}

/// A folder pattern with a leading `**/` dropped.
pub open spec fn folder_pattern(pattern: Seq<char>) -> Seq<char> {
    if pattern.len() >= 3 && pattern.take(3) == "**/"@ {
        pattern.skip(3)
    } else {
        pattern
    }
}


fn prefix_exec(a: &Vec<Vec<char>>, b: &Vec<Vec<char>>) -> (r: bool)
    ensures
        r == is_prefix(chars_view(a@), chars_view(b@)),
{
    let ghost av = chars_view(a@);
    let ghost bv = chars_view(b@);
    if a.len() > b.len() {
        return false;
    }
    let mut i: usize = 0;
    while i < a.len()
        invariant
            i <= a@.len() <= b@.len(),
            av == chars_view(a@),
            bv == chars_view(b@),
            forall|j: int| 0 <= j < i ==> av[j] == bv[j],
        decreases a.len() - i,
    {
        if !crate::text::str_eq(
            crate::text::string_from_chars(a[i].as_slice()).as_str(),
            crate::text::string_from_chars(b[i].as_slice()).as_str(),
        ) {
            assert(bv.take(av.len() as int)[i as int] != av[i as int]);
            return false;
        }
        i += 1;
    }
    assert(bv.take(av.len() as int) =~= av);
    true
}

impl Default for Excludes {
    fn default() -> (r: Self)
        ensures
            !r.skip_hidden,
            !r.skip_system_paths,
            r.patterns@.len() == 0,
            r.folders@.len() == 0,
            r.paths@.len() == 0,
            r.include_only@.len() == 0,
    {
        Excludes {
            skip_hidden: false,
            skip_system_paths: false,
            patterns: Vec::new(),
            folders: Vec::new(),
            paths: Vec::new(),
            include_only: Vec::new(),
        }
    }
}

impl Excludes {
    /// No rule: nothing is left out.
    pub fn new() -> (r: Self)
        ensures
            !r.skip_hidden,
            !r.skip_system_paths,
            r.patterns@.len() == 0,
            r.folders@.len() == 0,
            r.paths@.len() == 0,
            r.include_only@.len() == 0,
    {
        Self::default()
    }

    /// Whether the rules leave `path` out.
    pub fn is_excluded(&self, path: &str) -> (r: bool)
        ensures
            r == excluded(self@, path@),
    {
        let ghost ex = self@;
        let pc = chars_of(path);
        if self.skip_system_paths {
            let s = pc.as_slice();
            if eq_lit(s, "/proc") || eq_lit(s, "/sys") || eq_lit(s, "/dev") {
                return true;
            }
        }
        let comps = components_exec(pc.as_slice());
        let mut i: usize = 0;
        while i < self.paths.len()
            invariant
                i <= self.paths@.len(),
                ex == self@,
                chars_view(comps@) == components(path@),
                forall|k: int| 0 <= k < i ==> !is_prefix(components(#[trigger] ex.paths[k]), components(path@)),
            decreases self.paths.len() - i,
        {
            let rc = components_exec(chars_of(self.paths[i].as_str()).as_slice());
            assert(ex.paths[i as int] == self.paths@[i as int]@);
            if prefix_exec(&rc, &comps) {
                return true;
            }
            i += 1;
        }
        let fname = file_name_exec(&comps);
        let name: Vec<char> = match fname {
            Some(k) => slice_chars(comps[k].as_slice(), 0, comps[k].len()),
            None => Vec::new(),
        };
        assert(name@ =~= name_of(path@));
        if self.skip_hidden && name.len() > 0 && name[0] == '.' && fname.is_some() {
            return true;
        }
        assert(!(ex.skip_hidden && (file_name(path@) matches Some(n) && n.len() > 0 && n[0] == '.')));
        if self.include_only.len() > 0 {
            let mut any = false;
            let mut j: usize = 0;
            while j < self.include_only.len()
                invariant
                    j <= self.include_only@.len(),
                    ex == self@,
                    name@ == name_of(path@),
                    any == (exists|k: int| 0 <= k < j && wglob(name_of(path@), #[trigger] ex.include_only[k])),
                decreases self.include_only.len() - j,
            {
                let pat = chars_of(self.include_only[j].as_str());
                assert(ex.include_only[j as int] == pat@);
                if glob_exec(name.as_slice(), pat.as_slice()) {
                    any = true;
                }
                j += 1;
            }
            if !any {
                return true;
            }
        }
        let mut j: usize = 0;
        while j < self.patterns.len()
            invariant
                j <= self.patterns@.len(),
                ex == self@,
                name@ == name_of(path@),
                forall|k: int| 0 <= k < j ==> !wglob(name_of(path@), #[trigger] ex.patterns[k]),
            decreases self.patterns.len() - j,
        {
            let pat = chars_of(self.patterns[j].as_str());
            assert(ex.patterns[j as int] == pat@);
            if glob_exec(name.as_slice(), pat.as_slice()) {
                return true;
            }
            j += 1;
        }
        let mut j: usize = 0;
        while j < self.folders.len()
            invariant
                j <= self.folders@.len(),
                ex == self@,
                chars_view(comps@) == components(path@),
                forall|k: int| 0 <= k < j ==> !folder_match(path@, #[trigger] ex.folders[k]),
            decreases self.folders.len() - j,
        {
            assert(ex.folders[j as int] == self.folders@[j as int]@);
            if folder_match_exec(&comps, self.folders[j].as_str()) {
                return true;
            }
            j += 1;
        }
        false
    }
}


/// One entry of a directory listing as the file system reports it; the times are seconds
/// since the epoch, zero where unknown.
#[derive(Debug, Clone, PartialEq, Eq)]
pub struct DirEntryInfo {
    pub path: String,
    pub is_dir: bool,
    pub is_symlink: bool,
    pub size: u64,
    pub modified: i64,
    pub created: i64,
    pub accessed: i64,
}

/// An entry that the walk records: not in a hidden directory, not a hidden directory, not
/// left out by the rules.
pub open spec fn admitted(ex: ExcludesView, p: Seq<char>, is_dir: bool) -> bool {
    !hidden_ancestor(p) && !hidden_dir_path(p, is_dir) && !excluded(ex, p)
}

fn same_path(a: &str, b: &str) -> (r: bool)
    ensures
        r == (components(a@) == components(b@)),
{
    let ca = components_exec(chars_of(a).as_slice());
    let cb = components_exec(chars_of(b).as_slice());
    let r = ca.len() == cb.len() && prefix_exec(&ca, &cb);
    proof {
        if ca@.len() == cb@.len() && is_prefix(chars_view(ca@), chars_view(cb@)) {
            assert(chars_view(cb@).take(chars_view(ca@).len() as int) =~= chars_view(cb@));
        }
        if components(a@) == components(b@) {
            assert(chars_view(cb@).take(chars_view(ca@).len() as int) =~= chars_view(cb@));
        }
    }
    r
}

/// An entry as the walk records it.
pub struct Recorded {
    pub path: Seq<char>,
    pub is_dir: bool,
    pub size: u64,
    pub modified: i64,
    pub created: i64,
    pub accessed: i64,
}

/// The walk records `e` when the index holds `n` entries: not a symbolic link, admitted, room
/// in the index, and a path the index can hold.
pub open spec fn kept(ex: ExcludesView, e: DirEntryInfo, n: int) -> bool {
    &&& !e.is_symlink
    &&& admitted(ex, e.path@, e.is_dir)
    &&& n < u32::MAX
    &&& insertable(vstd::utf8::encode_utf8(e.path@), e.is_dir)
}

pub open spec fn recorded_of(e: DirEntryInfo, fetch: bool) -> Recorded {
    if fetch {
        Recorded {
            path: e.path@,
            is_dir: e.is_dir,
            size: e.size,
            modified: e.modified,
            created: e.created,
            accessed: e.accessed,
        }
    } else {
        Recorded { path: e.path@, is_dir: e.is_dir, size: 0, modified: 0, created: 0, accessed: 0 }
    }
}

/// What the walk records of one directory listing, in order, when the index holds `n`
/// entries, and the subdirectories it is to enter, in the order it finds them.
pub open spec fn listing_records(ex: ExcludesView, fetch: bool, l: Seq<DirEntryInfo>, n: int) -> (
    Seq<Recorded>,
    Seq<Seq<char>>,
)
    decreases l.len(),
{
    if l.len() == 0 {
        (Seq::empty(), Seq::empty())
    } else {
        let e = l[0];
        if kept(ex, e, n) {
            let rest = listing_records(ex, fetch, l.drop_first(), n + 1);
            (
                seq![recorded_of(e, fetch)] + rest.0,
                if e.is_dir {
                    seq![e.path@] + rest.1
                } else {
                    rest.1
                },
            )
        } else {
            listing_records(ex, fetch, l.drop_first(), n)
        }
    }
}

/// The walk from the directories `stack` (the last is entered first) with `n` entries in the
/// index, reading the listings `ls` in turn (`None` for a directory that cannot be read): what
/// it records and the directories it reads, or `None` where `ls` does not fit the walk.
/// A directory that the rules leave out is not read, unless it is the root.
pub open spec fn walk_run(
    root: Seq<char>,
    ex: ExcludesView,
    fetch: bool,
    stack: Seq<Seq<char>>,
    n: int,
    ls: Seq<Option<Seq<DirEntryInfo>>>,
) -> Option<(Seq<Recorded>, Seq<Seq<char>>)>
    decreases ls.len(), stack.len(),
{
    if stack.len() == 0 {
        if ls.len() == 0 {
            Some((Seq::empty(), Seq::empty()))
        } else {
            None
        }
    } else {
        let dir = stack.last();
        let rest = stack.drop_last();
        if excluded(ex, dir) && components(dir) != components(root) {
            walk_run(root, ex, fetch, rest, n, ls)
        } else if ls.len() == 0 {
            None
        } else {
            match ls[0] {
                None => prefixed(Seq::empty(), seq![dir], walk_run(root, ex, fetch, rest, n, ls.drop_first())),
                Some(l) => {
                    let (rec, sub) = listing_records(ex, fetch, l, n);
                    prefixed(
                        rec,
                        seq![dir],
                        walk_run(root, ex, fetch, rest + sub, n + rec.len(), ls.drop_first()),
                    )
                },
            }
        }
    }
}

/// `r` with `rec` and `dirs` put before what it records and reads.
pub open spec fn prefixed(
    rec: Seq<Recorded>,
    dirs: Seq<Seq<char>>,
    r: Option<(Seq<Recorded>, Seq<Seq<char>>)>,
) -> Option<(Seq<Recorded>, Seq<Seq<char>>)> {
    match r {
        Some(x) => Some((rec + x.0, dirs + x.1)),
        None => None,
    }
}

/// A listing as the walk reads it.
pub open spec fn listing_view(v: Option<Vec<DirEntryInfo>>) -> Option<Seq<DirEntryInfo>> {
    match v {
        Some(x) => Some(x@),
        None => None,
    }
}

/// `read_dir` can give the listing `l` for the directory `d`.
pub open spec fn read_as<F: Fn(&str) -> Option<Vec<DirEntryInfo>>>(
    read_dir: F,
    d: Seq<char>,
    l: Option<Seq<DirEntryInfo>>,
) -> bool {
    exists|s: &str, v: Option<Vec<DirEntryInfo>>|
        s@ == d && call_ensures(read_dir, (s,), v) && listing_view(v) == l
}

/// `e` is the entry that the index holds for `r`.
pub open spec fn holds_record(e: crate::index::Entry, r: Recorded) -> bool {
    crate::index::is_new_entry(e, r.path, r.is_dir, r.size, r.modified, r.created, r.accessed)
}

proof fn lemma_prefixed_assoc(
    a1: Seq<Recorded>,
    d1: Seq<Seq<char>>,
    a2: Seq<Recorded>,
    d2: Seq<Seq<char>>,
    r: Option<(Seq<Recorded>, Seq<Seq<char>>)>,
)
    ensures
        prefixed(a1, d1, prefixed(a2, d2, r)) == prefixed(a1 + a2, d1 + d2, r),
{
    match r {
        Some(x) => {
            assert(a1 + (a2 + x.0) =~= (a1 + a2) + x.0);
            assert(d1 + (d2 + x.1) =~= (d1 + d2) + x.1);
        },
        None => {},
    }
}

/// Walks the tree under `root` into `index` and returns how many entries it recorded.
/// `read_dir` lists a directory (`None` where it cannot be read); symbolic links are not
/// followed, directories are walked depth first, and `root` itself is entered even where the
/// rules would leave it out. Without `fetch_metadata` sizes and times are recorded as zero.
/// What it records, in order, is what `walk_run` gives for the listings that `read_dir`
/// returned for the directories it read.
pub fn walk<F: Fn(&str) -> Option<Vec<DirEntryInfo>>>(
    root: &str,
    index: &mut Index,
    excludes: &Excludes,
    fetch_metadata: bool,
    read_dir: F,
) -> (r: usize)
    requires
        old(index).wf(),
        forall|d: &str| read_dir.requires((d,)),
    ensures
        final(index).wf(),
        final(index).entries@.len() == old(index).entries@.len() + r,
        final(index).entries@.take(old(index).entries@.len() as int) == old(index).entries@,
        forall|i: int|
            old(index).entries@.len() <= i < final(index).entries@.len() ==> admitted(
                excludes@,
                (#[trigger] final(index).entries@[i]).path@,
                final(index).entries@[i].is_dir,
            ),
        !fetch_metadata ==> forall|i: int|
            old(index).entries@.len() <= i < final(index).entries@.len() ==> {
                &&& (#[trigger] final(index).entries@[i]).size == 0
                &&& final(index).entries@[i].modified == 0
                &&& final(index).entries@[i].created == 0
                &&& final(index).entries@[i].accessed == 0
            },
        exists|ls: Seq<Option<Seq<DirEntryInfo>>>, rec: Seq<Recorded>, dirs: Seq<Seq<char>>|
            {
                &&& walk_run(
                    root@,
                    excludes@,
                    fetch_metadata,
                    seq![root@],
                    old(index).entries@.len() as int,
                    ls,
                ) == Some((rec, dirs))
                &&& dirs.len() == ls.len()
                &&& forall|i: int| 0 <= i < ls.len() ==> read_as(read_dir, dirs[i], #[trigger] ls[i])
                &&& r == rec.len()
                &&& forall|i: int|
                    0 <= i < rec.len() ==> holds_record(
                        #[trigger] final(index).entries@[old(index).entries@.len() + i],
                        rec[i],
                    )
            },
{
    let ghost es0 = index.entries@;
    let ghost n0 = index.entries@.len() as int;
    let ghost rt = root@;
    let ghost ex = excludes@;
    let mut count: usize = 0;
    let mut stack: Vec<String> = Vec::new();
    stack.push(root.to_owned());
    let ghost mut done: Seq<Option<Seq<DirEntryInfo>>> = Seq::empty();
    let ghost mut dirs: Seq<Seq<char>> = Seq::empty();
    let ghost mut rec: Seq<Recorded> = Seq::empty();
    assert(index.entries@.take(n0) =~= es0);
    proof {
        assert(strings_view(stack@) =~= seq![rt]);
        assert forall|l: Seq<Option<Seq<DirEntryInfo>>>|
            #![trigger walk_run(rt, ex, fetch_metadata, strings_view(stack@), n0, l)]
            walk_run(rt, ex, fetch_metadata, seq![rt], n0, done + l) == prefixed(
                rec,
                dirs,
                walk_run(rt, ex, fetch_metadata, strings_view(stack@), n0, l),
            ) by {
            assert(done + l =~= l);
            match walk_run(rt, ex, fetch_metadata, seq![rt], n0, l) {
                Some(x) => {
                    assert(rec + x.0 =~= x.0);
                    assert(dirs + x.1 =~= x.1);
                },
                None => {},
            }
        }
    }
    while stack.len() > 0
        invariant
            index.wf(),
            rt == root@,
            ex == excludes@,
            n0 == es0.len(),
            n0 <= index.entries@.len() <= u32::MAX,
            count == index.entries@.len() - n0,
            index.entries@.take(n0) == es0,
            forall|d: &str| read_dir.requires((d,)),
            forall|i: int|
                n0 <= i < index.entries@.len() ==> admitted(
                    excludes@,
                    (#[trigger] index.entries@[i]).path@,
                    index.entries@[i].is_dir,
                ),
            !fetch_metadata ==> forall|i: int|
                n0 <= i < index.entries@.len() ==> {
                    &&& (#[trigger] index.entries@[i]).size == 0
                    &&& index.entries@[i].modified == 0
                    &&& index.entries@[i].created == 0
                    &&& index.entries@[i].accessed == 0
                },
            forall|l: Seq<Option<Seq<DirEntryInfo>>>|
                #![trigger walk_run(rt, ex, fetch_metadata, strings_view(stack@), index.entries@.len() as int, l)]
                walk_run(rt, ex, fetch_metadata, seq![rt], n0, done + l) == prefixed(
                    rec,
                    dirs,
                    walk_run(rt, ex, fetch_metadata, strings_view(stack@), index.entries@.len() as int, l),
                ),
            dirs.len() == done.len(),
            forall|i: int| 0 <= i < done.len() ==> read_as(read_dir, dirs[i], #[trigger] done[i]),
            index.entries@.len() == n0 + rec.len(),
            forall|i: int| 0 <= i < rec.len() ==> holds_record(#[trigger] index.entries@[n0 + i], rec[i]),
        decreases 2 * (u32::MAX - index.entries@.len()) + stack@.len(),
    {
        let ghost sv0 = strings_view(stack@);
        let ghost nb = index.entries@.len() as int;
        let dir = stack.pop().unwrap();
        proof {
            assert(strings_view(stack@) =~= sv0.drop_last());
            assert(dir@ == sv0.last());
        }
        let ghost m0 = 2 * (u32::MAX - index.entries@.len()) + stack@.len();
        if excludes.is_excluded(dir.as_str()) && !same_path(dir.as_str(), root) {
            proof {
                assert forall|l: Seq<Option<Seq<DirEntryInfo>>>|
                    #![trigger walk_run(rt, ex, fetch_metadata, strings_view(stack@), nb, l)]
                    walk_run(rt, ex, fetch_metadata, seq![rt], n0, done + l) == prefixed(
                        rec,
                        dirs,
                        walk_run(rt, ex, fetch_metadata, strings_view(stack@), nb, l),
                    ) by {
                    assert(walk_run(rt, ex, fetch_metadata, sv0, nb, l) == walk_run(
                        rt,
                        ex,
                        fetch_metadata,
                        sv0.drop_last(),
                        nb,
                        l,
                    ));
                }
            }
            continue;
        }
        let ds = dir.as_str();
        let got = read_dir(ds);
        proof {
            let ghost d_new = listing_view(got);
            assert(ds@ == dir@);
            assert(read_as(read_dir, dir@, d_new));
        }
        let listing = match got {
            Some(l) => l,
            None => {
                proof {
                    let x: Option<Seq<DirEntryInfo>> = None;
                    assert forall|l: Seq<Option<Seq<DirEntryInfo>>>|
                        #![trigger walk_run(rt, ex, fetch_metadata, strings_view(stack@), nb, l)]
                        walk_run(rt, ex, fetch_metadata, seq![rt], n0, done.push(x) + l)
                            == prefixed(
                            rec,
                            dirs.push(dir@),
                            walk_run(rt, ex, fetch_metadata, strings_view(stack@), nb, l),
                        ) by {
                        let l1 = seq![x] + l;
                        assert(done.push(x) + l =~= done + l1);
                        assert(l1[0] == x);
                        assert(l1.drop_first() =~= l);
                        assert(walk_run(rt, ex, fetch_metadata, sv0, nb, l1) == prefixed(
                            Seq::empty(),
                            seq![dir@],
                            walk_run(rt, ex, fetch_metadata, sv0.drop_last(), nb, l),
                        ));
                        lemma_prefixed_assoc(
                            rec,
                            dirs,
                            Seq::empty(),
                            seq![dir@],
                            walk_run(rt, ex, fetch_metadata, sv0.drop_last(), nb, l),
                        );
                        assert(rec + Seq::<Recorded>::empty() =~= rec);
                        assert(dirs + seq![dir@] =~= dirs.push(dir@));
                    }
                    let od = done;
                    let odirs = dirs;
                    done = done.push(x);
                    dirs = dirs.push(dir@);
                    assert forall|i: int| 0 <= i < done.len() implies read_as(read_dir, dirs[i], #[trigger] done[i]) by {
                        if i < od.len() {
                            assert(dirs[i] == odirs[i] && done[i] == od[i]);
                        }
                    }
                }
                continue;
            },
        };
        let ghost l = listing@;
        let ghost rec0 = rec;
        let ghost od = done;
        let ghost odirs = dirs;
        let ghost mut rk: Seq<Recorded> = Seq::empty();
        let ghost mut sk: Seq<Seq<char>> = Seq::empty();
        let mut k: usize = 0;
        proof {
            assert(l.skip(0) =~= l);
            assert(rk + listing_records(ex, fetch_metadata, l, nb).0 =~= listing_records(ex, fetch_metadata, l, nb).0);
            assert(sk + listing_records(ex, fetch_metadata, l, nb).1 =~= listing_records(ex, fetch_metadata, l, nb).1);
            assert(sv0.drop_last() + sk =~= sv0.drop_last());
            assert(rec0 + rk =~= rec0);
        }
        while k < listing.len()
            invariant
                index.wf(),
                rt == root@,
                ex == excludes@,
                l == listing@,
                n0 == es0.len(),
                n0 <= nb <= index.entries@.len() <= u32::MAX,
                count == index.entries@.len() - n0,
                index.entries@.take(n0) == es0,
                2 * (u32::MAX - index.entries@.len()) + stack@.len() <= m0,
                k <= l.len(),
                forall|i: int|
                    n0 <= i < index.entries@.len() ==> admitted(
                        excludes@,
                        (#[trigger] index.entries@[i]).path@,
                        index.entries@[i].is_dir,
                    ),
                !fetch_metadata ==> forall|i: int|
                    n0 <= i < index.entries@.len() ==> {
                        &&& (#[trigger] index.entries@[i]).size == 0
                        &&& index.entries@[i].modified == 0
                        &&& index.entries@[i].created == 0
                        &&& index.entries@[i].accessed == 0
                    },
                listing_records(ex, fetch_metadata, l, nb) == (
                    rk + listing_records(ex, fetch_metadata, l.skip(k as int), index.entries@.len() as int).0,
                    sk + listing_records(ex, fetch_metadata, l.skip(k as int), index.entries@.len() as int).1,
                ),
                strings_view(stack@) == sv0.drop_last() + sk,
                index.entries@.len() == nb + rk.len(),
                rec == rec0 + rk,
                index.entries@.len() == n0 + rec.len(),
                forall|i: int| 0 <= i < rec.len() ==> holds_record(#[trigger] index.entries@[n0 + i], rec[i]),
            decreases listing.len() - k,
        {
            let e = &listing[k];
            let p = e.path.as_str();
            let ghost nk = index.entries@.len() as int;
            let ghost lk = l.skip(k as int);
            proof {
                assert(lk[0] == l[k as int]);
                assert(lk.drop_first() =~= l.skip(k + 1));
            }
            let keep = !e.is_symlink && !has_hidden_ancestor_dir(p) && !is_hidden_dir_path(p, e.is_dir)
                && !excludes.is_excluded(p) && index.count() < u32::MAX as usize && insertable_path(
                p,
                e.is_dir,
            );
            assert(keep == kept(ex, *e, nk));
            if keep {
                let ghost before = index.entries@;
                let ghost r1 = recorded_of(*e, fetch_metadata);
                if fetch_metadata {
                    index.insert_with_metadata(p, e.is_dir, e.size, e.modified, e.created, e.accessed);
                } else {
                    index.insert_with_metadata(p, e.is_dir, 0, 0, 0, 0);
                }
                assert(index.entries@.take(n0) =~= before.take(n0));
                count += 1;
                let ghost sv_before = strings_view(stack@);
                if e.is_dir {
                    let c = e.path.clone();
                    assert(c@ == e.path@);
                    stack.push(c);
                    assert(strings_view(stack@) =~= sv_before.push(e.path@));
                }
                proof {
                    let rest = listing_records(ex, fetch_metadata, l.skip(k + 1), nk + 1);
                    let orec = rec;
                    assert(rk + (seq![r1] + rest.0) =~= rk.push(r1) + rest.0);
                    if e.is_dir {
                        assert(sk + (seq![e.path@] + rest.1) =~= sk.push(e.path@) + rest.1);
                        assert(strings_view(stack@) =~= sv0.drop_last() + sk.push(e.path@));
                        sk = sk.push(e.path@);
                    }
                    rk = rk.push(r1);
                    rec = rec.push(r1);
                    assert(rec =~= rec0 + rk);
                    assert forall|i: int| 0 <= i < rec.len() implies holds_record(
                        #[trigger] index.entries@[n0 + i],
                        rec[i],
                    ) by {
                        if i < orec.len() {
                            assert(index.entries@[n0 + i] == before[n0 + i]);
                        }
                    }
                }
            }
            k += 1;
        }
        proof {
            assert(l.skip(k as int) =~= Seq::<DirEntryInfo>::empty());
            let ls_rec = listing_records(ex, fetch_metadata, l, nb);
            assert(ls_rec.0 =~= rk);
            assert(ls_rec.1 =~= sk);
            let x = Some(l);
            let n1 = index.entries@.len() as int;
            assert forall|ll: Seq<Option<Seq<DirEntryInfo>>>|
                #![trigger walk_run(rt, ex, fetch_metadata, strings_view(stack@), n1, ll)]
                walk_run(rt, ex, fetch_metadata, seq![rt], n0, od.push(x) + ll) == prefixed(
                    rec,
                    odirs.push(dir@),
                    walk_run(rt, ex, fetch_metadata, strings_view(stack@), n1, ll),
                ) by {
                let l1 = seq![x] + ll;
                assert(od.push(x) + ll =~= od + l1);
                assert(l1[0] == x);
                assert(l1.drop_first() =~= ll);
                assert(walk_run(rt, ex, fetch_metadata, sv0, nb, l1) == prefixed(
                    rk,
                    seq![dir@],
                    walk_run(rt, ex, fetch_metadata, sv0.drop_last() + sk, nb + rk.len(), ll),
                ));
                lemma_prefixed_assoc(
                    rec0,
                    odirs,
                    rk,
                    seq![dir@],
                    walk_run(rt, ex, fetch_metadata, sv0.drop_last() + sk, nb + rk.len(), ll),
                );
                assert(odirs + seq![dir@] =~= odirs.push(dir@));
            }
            done = od.push(x);
            dirs = odirs.push(dir@);
            assert forall|i: int| 0 <= i < done.len() implies read_as(read_dir, dirs[i], #[trigger] done[i]) by {
                if i < od.len() {
                    assert(dirs[i] == odirs[i] && done[i] == od[i]);
                }
            }
        }
    }
    proof {
        let e: Seq<Option<Seq<DirEntryInfo>>> = Seq::empty();
        assert(strings_view(stack@) =~= Seq::<Seq<char>>::empty());
        assert(done + e =~= done);
        let w = walk_run(rt, ex, fetch_metadata, strings_view(stack@), index.entries@.len() as int, e);
        assert(w == Some((Seq::<Recorded>::empty(), Seq::<Seq<char>>::empty())));
        assert(rec + Seq::<Recorded>::empty() =~= rec);
        assert(dirs + Seq::<Seq<char>>::empty() =~= dirs);
        assert(walk_run(rt, ex, fetch_metadata, seq![rt], n0, done) == Some((rec, dirs)));
    }
    count
}

} // verus!
