//! Evaluating a parsed query against the entries of an index.
use crate::index::{Entry, Index, all_ids, contains_ignore_case, ext_chars, name_chars};
use crate::postings::strictly_increasing;
use crate::query::{
    Query, QueryModel, RangeFilter, TermModel, TextTerm, lemma_terms_model_len, term_model,
    terms_model,
};
use crate::query::strings_model;
use crate::text::{
    bytes_contains, chars_of, lower_chars, lowered_bytes_of, no_ascii_upper, occurs_at,
    seq_contains, string_from_chars, to_lowercase,
};
use vstd::prelude::*;
use vstd::string::StringSliceAdditionalSpecFns;
use vstd::utf8::*;

verus! {

#[verifier::external_type_specification]
#[verifier::external_body]
pub struct ExRegex(regex::Regex);

/// Whether `pattern` compiles with `Regex::new` (a function of the pattern alone).
pub uninterp spec fn regex_compiles(pattern: Seq<char>) -> bool;

/// Whether the regex compiled from `pattern` matches somewhere in `text` (`Regex::is_match`).
pub uninterp spec fn regex_finds(pattern: Seq<char>, text: Seq<char>) -> bool;

/// The byte spans of the successive non-overlapping matches of the regex compiled from
/// `pattern` in `text` (`Regex::find_iter`).
pub uninterp spec fn regex_spans(pattern: Seq<char>, text: Seq<char>) -> Seq<(usize, usize)>;

/// A compiled regular expression, with the pattern it was compiled from.
pub struct CompiledRegex {
    re: regex::Regex,
    pattern: String,
}

impl CompiledRegex {
    pub closed spec fn pattern_view(&self) -> Seq<char> {
        self.pattern@
    }
}

/// `regex::Regex::new`: compiles `pattern`; whether it compiles depends on the pattern alone.
#[verifier::external_body]
fn regex_new(pattern: &str) -> (r: Option<CompiledRegex>)
    ensures
        r is Some <==> regex_compiles(pattern@),
        r matches Some(c) ==> c.pattern_view() == pattern@,
{
    match regex::Regex::new(pattern) {
        Ok(re) => Some(CompiledRegex { re, pattern: pattern.to_owned() }),
        Err(_) => None,
    }
}

/// `Regex::is_match` of the compiled pattern on `text`.
#[verifier::external_body]
fn regex_is_match(r: &CompiledRegex, text: &str) -> (b: bool)
    ensures
        b == regex_finds(r.pattern_view(), text@),
{
    r.re.is_match(text)
}

/// `Regex::find_iter` of the compiled pattern on `text`: the start and end byte offsets of each
/// match, in order.
#[verifier::external_body]
fn regex_match_spans(r: &CompiledRegex, text: &str) -> (v: Vec<(usize, usize)>)
    ensures
        v@ == regex_spans(r.pattern_view(), text@),
{
    r.re.find_iter(text).map(|m| (m.start(), m.end())).collect()
}

/// A regex meta character (`regex_syntax::is_meta_character`).
pub open spec fn is_regex_meta(c: char) -> bool {
    c == '\\' || c == '.' || c == '+' || c == '*' || c == '?' || c == '(' || c == ')' || c == '|'
        || c == '[' || c == ']' || c == '{' || c == '}' || c == '^' || c == '$' || c == '#' || c
        == '&' || c == '-' || c == '~'
}

/// `text` with a backslash before each meta character.
pub open spec fn regex_escaped(text: Seq<char>) -> Seq<char>
    decreases text.len(),
{
    if text.len() == 0 {
        Seq::empty()
    } else {
        let c = text.last();
        regex_escaped(text.drop_last()) + if is_regex_meta(c) {
            seq!['\\', c]
        } else {
            seq![c]
        }
    }
}

/// A backslash before each regex meta character, other characters kept (what `regex::escape`
/// does).
fn regex_escape(text: &str) -> (r: String)
    ensures
        r@ == regex_escaped(text@),
{
    let cs = crate::text::chars_of(text);
    let mut out = String::new();
    let mut i: usize = 0;
    while i < cs.len()
        invariant
            cs@ == text@,
            i <= cs@.len(),
            out@ == regex_escaped(cs@.take(i as int)),
        decreases cs.len() - i,
    {
        let c = cs[i];
        assert(cs@.take(i + 1).drop_last() =~= cs@.take(i as int));
        assert(cs@.take(i + 1).last() == c);
        let ghost before = out@;
        if c == '\\' || c == '.' || c == '+' || c == '*' || c == '?' || c == '(' || c == ')' || c == '|'
            || c == '[' || c == ']' || c == '{' || c == '}' || c == '^' || c == '$' || c == '#' || c
            == '&' || c == '-' || c == '~' {
            crate::text::push_char(&mut out, '\\');
            crate::text::push_char(&mut out, c);
            assert(out@ =~= before + seq!['\\', c]);
        } else {
            crate::text::push_char(&mut out, c);
            assert(out@ =~= before + seq![c]);
        }
        i += 1;
    }
    assert(cs@.take(cs@.len() as int) =~= cs@);
    out
}

/// The pattern a regex term compiles to: itself, or, when it does not compile, its escaped form
/// (matching the text literally).
pub open spec fn effective_pattern(p: Seq<char>) -> Seq<char> {
    if regex_compiles(p) {
        p
    } else {
        regex_escaped(p)
    }
}

/// Every regex term compiles, as written or escaped.
pub open spec fn term_compiles(t: TermModel) -> bool
    decreases t,
{
    match t {
        TermModel::Regex(p) => regex_compiles(effective_pattern(p)),
        TermModel::Not(b) => term_compiles(*b),
        TermModel::Or(ts) => terms_compile(ts),
        _ => true,
    }
}

pub open spec fn terms_compile(ts: Seq<TermModel>) -> bool
    decreases ts,
{
    if ts.len() == 0 {
        true
    } else {
        term_compiles(ts[0]) && terms_compile(ts.subrange(1, ts.len() as int))
    }
}

/// Whether `c` is alphabetic or numeric in Unicode (`char::is_alphanumeric`).
pub uninterp spec fn unicode_alphanumeric(c: char) -> bool;

/// `char::is_alphanumeric`: on ASCII characters, exactly the letters and digits.
#[verifier::external_body]
pub(crate) fn is_alphanumeric(c: char) -> (r: bool)
    ensures
        r == unicode_alphanumeric(c),
        (c as u32) < 128 ==> (r <==> ('a' <= c <= 'z' || 'A' <= c <= 'Z' || '0' <= c <= '9')),
{
    c.is_alphanumeric()
}

pub open spec fn is_word_char(c: char) -> bool {
    unicode_alphanumeric(c) || c == '_'
}

/// The words of `s` (maximal runs of word characters) after a word `cur` in progress.
pub open spec fn words_after(s: Seq<char>, cur: Seq<char>) -> Seq<Seq<char>>
    decreases s.len(),
{
    if s.len() == 0 {
        if cur.len() > 0 {
            seq![cur]
        } else {
            Seq::empty()
        }
    } else if is_word_char(s[0]) {
        words_after(s.drop_first(), cur.push(s[0]))
    } else {
        (if cur.len() > 0 {
            seq![cur]
        } else {
            Seq::empty()
        }) + words_after(s.drop_first(), Seq::empty())
    }
}

pub open spec fn words(s: Seq<char>) -> Seq<Seq<char>> {
    words_after(s, Seq::empty())
}

/// The words of `s`, in order.
fn word_list(s: &[char]) -> (r: Vec<Vec<char>>)
    ensures
        r@.len() == words(s@).len(),
        forall|i: int| 0 <= i < r@.len() ==> (#[trigger] r@[i])@ == words(s@)[i],
{
    let mut out: Vec<Vec<char>> = Vec::new();
    let ghost mut done: Seq<Seq<char>> = Seq::empty();
    let mut cur: Vec<char> = Vec::new();
    let mut i: usize = 0;
    assert(s@.skip(0) =~= s@);
    while i < s.len()
        invariant
            i <= s@.len(),
            words(s@) == done + words_after(s@.skip(i as int), cur@),
            out@.len() == done.len(),
            forall|j: int| 0 <= j < done.len() ==> (#[trigger] out@[j])@ == done[j],
        decreases s.len() - i,
    {
        let c = s[i];
        assert(s@.skip(i as int)[0] == c);
        assert(s@.skip(i as int).drop_first() =~= s@.skip(i + 1));
        if is_alphanumeric(c) || c == '_' {
            cur.push(c);
        } else {
            if cur.len() > 0 {
                proof {
                    assert(done.push(cur@) + words_after(s@.skip(i + 1), Seq::empty()) =~= done + (seq![cur@]
                        + words_after(s@.skip(i + 1), Seq::empty())));
                    done = done.push(cur@);
                }
                out.push(cur);
            } else {
                assert(Seq::<Seq<char>>::empty() + words_after(s@.skip(i + 1), Seq::empty()) =~= words_after(
                    s@.skip(i + 1),
                    Seq::empty(),
                ));
            }
            cur = Vec::new();
        }
        i += 1;
    }
    if cur.len() > 0 {
        proof {
            done = done.push(cur@);
        }
        out.push(cur);
    } else {
        assert(done + Seq::<Seq<char>>::empty() =~= done);
    }
    assert(words(s@) =~= done);
    out
}

/// Some word of `text` is `needle` (an empty needle is always there).
pub open spec fn has_word(text: Seq<char>, needle: Seq<char>) -> bool {
    needle.len() == 0 || exists|i: int| 0 <= i < words(text).len() && words(text)[i] == needle
}

fn contains_whole_word(text: &[char], needle: &[char]) -> (r: bool)
    ensures
        r == has_word(text@, needle@),
{
    if needle.len() == 0 {
        return true;
    }
    let ws = word_list(text);
    let mut i: usize = 0;
    while i < ws.len()
        invariant
            i <= ws@.len(),
            ws@.len() == words(text@).len(),
            forall|k: int| 0 <= k < ws@.len() ==> (#[trigger] ws@[k])@ == words(text@)[k],
            forall|k: int| 0 <= k < i ==> words(text@)[k] != needle@,
        decreases ws.len() - i,
    {
        if chars_equal(ws[i].as_slice(), needle) {
            return true;
        }
        i += 1;
    }
    false
}

fn chars_equal(a: &[char], b: &[char]) -> (r: bool)
    ensures
        r == (a@ == b@),
{
    if a.len() != b.len() {
        return false;
    }
    let mut i: usize = 0;
    while i < a.len()
        invariant
            a@.len() == b@.len(),
            i <= a@.len(),
            forall|j: int| 0 <= j < i ==> a@[j] == b@[j],
        decreases a.len() - i,
    {
        if a[i] != b[i] {
            return false;
        }
        i += 1;
    }
    assert(a@ =~= b@);
    true
}

/// `p` with its leading `*`s removed.
pub open spec fn skip_stars(p: Seq<char>) -> Seq<char>
    decreases p.len(),
{
    if p.len() > 0 && p[0] == '*' {
        skip_stars(p.drop_first())
    } else {
        p
    }
}

pub proof fn lemma_skip_stars(p: Seq<char>)
    ensures
        skip_stars(p).len() <= p.len(),
        skip_stars(p).len() > 0 ==> skip_stars(p)[0] != '*',
    decreases p.len(),
{
    if p.len() > 0 && p[0] == '*' {
        lemma_skip_stars(p.drop_first());
    }
}

/// Wildcard match of the whole of `t` against `p`: `?` takes one character, other characters
/// themselves, and a run of `*` any sequence of characters, the empty one included: after a
/// run that ends the pattern anything matches, otherwise the rest of the pattern is tried at
/// each later position of `t`.
pub open spec fn glob(t: Seq<char>, p: Seq<char>) -> bool
    decreases p.len(), t.len(), 0int,
{
    if p.len() == 0 {
        t.len() == 0
    } else if p[0] == '*' {
        let rest = skip_stars(p.drop_first());
        if rest.len() == 0 {
            true
        } else {
            proof {
                lemma_skip_stars(p.drop_first());
            }
            glob_resume(t, rest)
        }
    } else if p[0] == '?' {
        t.len() > 0 && glob(t.drop_first(), p.drop_first())
    } else {
        t.len() > 0 && t[0] == p[0] && glob(t.drop_first(), p.drop_first())
    }
}

/// Some non-empty suffix of `t` matches `p` (whose first character is no `*`, so the empty
/// suffix cannot).
pub open spec fn glob_resume(t: Seq<char>, p: Seq<char>) -> bool
    decreases p.len(), t.len(), 1int,
{
    if t.len() == 0 || p.len() == 0 {
        false
    } else {
        glob(t, p) || glob_resume(t.drop_first(), p)
    }
}

fn glob_at(t: &[char], ti: usize, p: &[char], pi: usize) -> (r: bool)
    requires
        ti <= t@.len(),
        pi <= p@.len(),
    ensures
        r == glob(t@.skip(ti as int), p@.skip(pi as int)),
    decreases p@.len() - pi, t@.len() - ti, 0int,
{
    let ghost ts = t@.skip(ti as int);
    let ghost ps = p@.skip(pi as int);
    if pi == p.len() {
        return ti == t.len();
    }
    assert(ps[0] == p@[pi as int]);
    assert(ps.drop_first() =~= p@.skip(pi + 1));
    if ti < t.len() {
        assert(ts[0] == t@[ti as int]);
        assert(ts.drop_first() =~= t@.skip(ti + 1));
    }
    let c = p[pi];
    if c == '*' {
        let mut k = pi + 1;
        while k < p.len() && p[k] == '*'
            invariant
                pi + 1 <= k <= p@.len(),
                skip_stars(p@.skip(pi + 1)) == skip_stars(p@.skip(k as int)),
            decreases p@.len() - k,
        {
            assert(p@.skip(k as int)[0] == '*');
            assert(p@.skip(k as int).drop_first() =~= p@.skip(k + 1));
            k += 1;
        }
        proof {
            if k < p@.len() {
                assert(p@.skip(k as int)[0] == p@[k as int]);
            }
        }
        if k == p.len() {
            return true;
        }
        glob_resume_at(t, ti, p, k)
    } else if c == '?' {
        ti < t.len() && glob_at(t, ti + 1, p, pi + 1)
    } else {
        ti < t.len() && t[ti] == c && glob_at(t, ti + 1, p, pi + 1)
    }
}

fn glob_resume_at(t: &[char], ti: usize, p: &[char], k: usize) -> (r: bool)
    requires
        ti <= t@.len(),
        k < p@.len(),
    ensures
        r == glob_resume(t@.skip(ti as int), p@.skip(k as int)),
    decreases p@.len() - k, t@.len() - ti, 1int,
{
    let mut j = ti;
    while j < t.len()
        invariant
            ti <= j <= t@.len(),
            k < p@.len(),
            glob_resume(t@.skip(ti as int), p@.skip(k as int)) == glob_resume(t@.skip(j as int), p@.skip(k as int)),
        decreases t@.len() - j,
    {
        assert(t@.skip(j as int)[0] == t@[j as int]);
        assert(p@.skip(k as int)[0] == p@[k as int]);
        assert(t@.skip(j as int).drop_first() =~= t@.skip(j + 1));
        if glob_at(t, j, p, k) {
            return true;
        }
        j += 1;
    }
    false
}

/// Wildcard match of all of `text` against `pattern`.
fn glob_match(text: &[char], pattern: &[char]) -> (r: bool)
    ensures
        r == glob(text@, pattern@),
{
    assert(text@.skip(0) =~= text@);
    assert(pattern@.skip(0) =~= pattern@);
    glob_at(text, 0, pattern, 0)
}

/// A wildcard pattern matches somewhere in `t`: a pattern without `*` or `?` is searched as a
/// plain substring; otherwise it must match some non-empty suffix of `t` in full.
pub open spec fn glob_sub(t: Seq<char>, p: Seq<char>) -> bool {
    if !p.contains('*') && !p.contains('?') {
        seq_contains(t, p)
    } else {
        exists|i: int| 0 <= i < t.len() && glob(t.skip(i), p)
    }
}

/// A wildcard pattern matches some word of `t` in full.
pub open spec fn glob_word(t: Seq<char>, p: Seq<char>) -> bool {
    exists|i: int| 0 <= i < words(t).len() && glob(words(t)[i], p)
}

fn chars_contains(hay: &[char], needle: &[char]) -> (r: bool)
    ensures
        r == seq_contains(hay@, needle@),
{
    let hl = hay.len();
    if needle.len() > hay.len() {
        proof {
            assert forall|i: int| !occurs_at(hay@, needle@, i) by {}
        }
        return false;
    }
    let mut i: usize = 0;
    while i <= hay.len() - needle.len()
        invariant
            hl == hay@.len(),
            needle@.len() <= hay@.len(),
            i <= hay@.len() - needle@.len() + 1,
            forall|k: int| 0 <= k < i ==> !occurs_at(hay@, needle@, k),
        decreases hay.len() + 1 - i,
    {
        let mut j: usize = 0;
        let mut same = true;
        while j < needle.len()
            invariant
                hl == hay@.len(),
                i + needle@.len() <= hay@.len(),
                j <= needle@.len(),
                same == (forall|k: int| 0 <= k < j ==> hay@[i + k] == needle@[k]),
            decreases needle.len() - j,
        {
            if hay[i + j] != needle[j] {
                same = false;
            }
            j += 1;
        }
        if same {
            assert(hay@.subrange(i as int, i + needle@.len()) =~= needle@);
            assert(occurs_at(hay@, needle@, i as int));
            return true;
        }
        proof {
            let k = choose|k: int| !(0 <= k < needle@.len() ==> hay@[i + k] == needle@[k]);
            if occurs_at(hay@, needle@, i as int) {
                assert(hay@.subrange(i as int, i + needle@.len())[k] == needle@[k]);
            }
        }
        i += 1;
    }
    proof {
        assert forall|k: int| !occurs_at(hay@, needle@, k) by {
            if 0 <= k < i {
            }
        }
    }
    false
}

fn glob_match_substring(text: &[char], pattern: &[char]) -> (r: bool)
    ensures
        r == glob_sub(text@, pattern@),
{
    if !crate::text::has_char(pattern, '*') && !crate::text::has_char(pattern, '?') {
        return chars_contains(text, pattern);
    }
    let mut i: usize = 0;
    while i < text.len()
        invariant
            i <= text@.len(),
            pattern@.contains('*') || pattern@.contains('?'),
            forall|k: int| 0 <= k < i ==> !glob(text@.skip(k), pattern@),
        decreases text.len() - i,
    {
        assert(pattern@.skip(0) =~= pattern@);
        if glob_at(text, i, pattern, 0) {
            assert(0 <= i < text@.len() && glob(text@.skip(i as int), pattern@));
            return true;
        }
        i += 1;
    }
    false
}

fn glob_match_word(text: &[char], pattern: &[char]) -> (r: bool)
    ensures
        r == glob_word(text@, pattern@),
{
    let ws = word_list(text);
    let mut i: usize = 0;
    while i < ws.len()
        invariant
            i <= ws@.len(),
            ws@.len() == words(text@).len(),
            forall|k: int| 0 <= k < ws@.len() ==> (#[trigger] ws@[k])@ == words(text@)[k],
            forall|k: int| 0 <= k < i ==> !glob(words(text@)[k], pattern@),
        decreases ws.len() - i,
    {
        if glob_match(ws[i].as_slice(), pattern) {
            return true;
        }
        i += 1;
    }
    false
}

/// The text a term is matched against: the whole path, or the file name.
pub open spec fn term_text(e: Entry, path: bool) -> Seq<char> {
    if path {
        e.path@
    } else {
        name_chars(e)
    }
}

/// `s` as compared: as is when case matters, lower-cased otherwise.
pub open spec fn fold_case(s: Seq<char>, case: bool) -> Seq<char> {
    if case {
        s
    } else {
        lower_chars(s)
    }
}

/// How a query compares text: case-sensitively, against the path, by whole words, against the
/// whole file name.
pub struct MatchFlags {
    pub case: bool,
    pub path: bool,
    pub whole_word: bool,
    pub whole_filename: bool,
}

pub open spec fn flags_of(q: Query) -> MatchFlags {
    MatchFlags {
        case: q.match_case,
        path: q.match_path,
        whole_word: q.match_whole_word,
        whole_filename: q.whole_filename,
    }
}

/// A substring term: an empty one matches everything; otherwise the (case-folded) text holds
/// it, as a whole word when asked.
pub open spec fn substring_hit(e: Entry, s: Seq<char>, f: MatchFlags) -> bool {
    let needle = fold_case(s, f.case);
    let text = fold_case(term_text(e, f.path), f.case);
    if encode_utf8(needle).len() == 0 {
        true
    } else if f.whole_word {
        has_word(text, needle)
    } else {
        seq_contains(encode_utf8(text), encode_utf8(needle))
    }
}

/// A wildcard term: against the whole text, one of its words, or somewhere in it.
pub open spec fn wildcard_hit(e: Entry, p: Seq<char>, f: MatchFlags) -> bool {
    let pat = fold_case(p, f.case);
    let target = fold_case(term_text(e, f.path), f.case);
    if f.whole_filename {
        glob(target, pat)
    } else if f.whole_word {
        glob_word(target, pat)
    } else {
        glob_sub(target, pat)
    }
}

/// Some match of the regex compiled from `pat` covers all of `w`.
pub open spec fn spans_whole(pat: Seq<char>, w: Seq<char>) -> bool {
    exists|k: int|
        0 <= k < regex_spans(pat, w).len() && regex_spans(pat, w)[k] == (0usize, encode_utf8(w).len() as usize)
}

/// A regex term: it matches somewhere in the (case-folded) text, or covers one of its words.
pub open spec fn regex_hit(e: Entry, src: Seq<char>, f: MatchFlags) -> bool {
    let pat = effective_pattern(src);
    let t = fold_case(term_text(e, f.path), f.case);
    if f.whole_word {
        exists|i: int| 0 <= i < words(t).len() && spans_whole(pat, #[trigger] words(t)[i])
    } else {
        regex_finds(pat, t)
    }
}

pub open spec fn term_hit(e: Entry, t: TermModel, f: MatchFlags) -> bool
    decreases t,
{
    match t {
        TermModel::Substring(s) => substring_hit(e, s, f),
        TermModel::Wildcard(p) => wildcard_hit(e, p, f),
        TermModel::Regex(p) => regex_hit(e, p, f),
        TermModel::Not(b) => !term_hit(e, *b, f),
        TermModel::Or(ts) => any_hit(e, ts, f),
    }
}

/// One of the terms matches.
pub open spec fn any_hit(e: Entry, ts: Seq<TermModel>, f: MatchFlags) -> bool
    decreases ts,
{
    if ts.len() == 0 {
        false
    } else {
        term_hit(e, ts[0], f) || any_hit(e, ts.subrange(1, ts.len() as int), f)
    }
}

/// A term with its regular expression compiled.
enum CompiledTerm {
    Substring(String),
    Wildcard(String),
    Regex(CompiledRegex, String),
    Not(Box<CompiledTerm>),
    Or(Vec<CompiledTerm>),
}

/// `c` is `t` compiled.
spec fn compiled_as(c: CompiledTerm, t: TermModel) -> bool
    decreases c,
{
    match c {
        CompiledTerm::Substring(s) => t == TermModel::Substring(s@),
        CompiledTerm::Wildcard(s) => t == TermModel::Wildcard(s@),
        CompiledTerm::Regex(r, src) => t == TermModel::Regex(src@) && r.pattern_view() == effective_pattern(src@),
        CompiledTerm::Not(b) => match t {
            TermModel::Not(tb) => compiled_as(*b, *tb),
            _ => false,
        },
        CompiledTerm::Or(v) => match t {
            TermModel::Or(ts) => all_compiled_as(v@, ts),
            _ => false,
        },
    }
}

spec fn all_compiled_as(v: Seq<CompiledTerm>, ts: Seq<TermModel>) -> bool
    decreases v,
{
    if v.len() == 0 {
        ts.len() == 0
    } else {
        ts.len() > 0 && compiled_as(v[0], ts[0]) && all_compiled_as(v.subrange(1, v.len() as int), ts.subrange(1, ts.len() as int))
    }
}

fn copy_string(s: &String) -> (r: String)
    ensures
        r@ == s@,
{
    s.clone()
}

/// Compiles the regular expression of a term (escaped when it does not compile as written).
fn compile_term(t: &TextTerm) -> (r: Option<CompiledTerm>)
    ensures
        r is Some <==> term_compiles(term_model(*t)),
        r matches Some(c) ==> compiled_as(c, term_model(*t)),
    decreases t,
{
    match t {
        TextTerm::Substring(s) => Some(CompiledTerm::Substring(copy_string(s))),
        TextTerm::Wildcard(p) => Some(CompiledTerm::Wildcard(copy_string(p))),
        TextTerm::Regex(p) => {
            let re = match regex_new(p.as_str()) {
                Some(re) => Some(re),
                None => {
                    let esc = regex_escape(p.as_str());
                    regex_new(esc.as_str())
                },
            };
            match re {
                Some(re) => Some(CompiledTerm::Regex(re, copy_string(p))),
                None => None,
            }
        },
        TextTerm::Not(inner) => {
            match compile_term(inner) {
                Some(c) => Some(CompiledTerm::Not(Box::new(c))),
                None => None,
            }
        },
        TextTerm::Or(items) => {
            match compile_terms(items) {
                Some(v) => Some(CompiledTerm::Or(v)),
                None => None,
            }
        },
    }
}

proof fn lemma_terms_compile(ts: Seq<TermModel>)
    ensures
        terms_compile(ts) <==> forall|i: int| 0 <= i < ts.len() ==> term_compiles(#[trigger] ts[i]),
    decreases ts.len(),
{
    if ts.len() > 0 {
        let rest = ts.subrange(1, ts.len() as int);
        lemma_terms_compile(rest);
        if forall|i: int| 0 <= i < ts.len() ==> term_compiles(#[trigger] ts[i]) {
            assert forall|i: int| 0 <= i < rest.len() implies term_compiles(#[trigger] rest[i]) by {
                assert(rest[i] == ts[i + 1]);
            }
        }
        if terms_compile(ts) {
            assert forall|i: int| 0 <= i < ts.len() implies term_compiles(#[trigger] ts[i]) by {
                if i > 0 {
                    assert(rest[i - 1] == ts[i]);
                }
            }
        }
    }
}

proof fn lemma_all_compiled_as(v: Seq<CompiledTerm>, ts: Seq<TermModel>)
    ensures
        all_compiled_as(v, ts) <==> (v.len() == ts.len() && forall|i: int| 0 <= i < v.len() ==> compiled_as(#[trigger] v[i], ts[i])),
    decreases v.len(),
{
    if v.len() > 0 && ts.len() > 0 {
        let vr = v.subrange(1, v.len() as int);
        let tr = ts.subrange(1, ts.len() as int);
        lemma_all_compiled_as(vr, tr);
        if v.len() == ts.len() && forall|i: int| 0 <= i < v.len() ==> compiled_as(#[trigger] v[i], ts[i]) {
            assert forall|i: int| 0 <= i < vr.len() implies compiled_as(#[trigger] vr[i], tr[i]) by {
                assert(vr[i] == v[i + 1] && tr[i] == ts[i + 1]);
            }
        }
        if all_compiled_as(v, ts) {
            assert forall|i: int| 0 <= i < v.len() implies compiled_as(#[trigger] v[i], ts[i]) by {
                if i > 0 {
                    assert(vr[i - 1] == v[i] && tr[i - 1] == ts[i]);
                }
            }
        }
    }
}

fn compile_terms(items: &Vec<TextTerm>) -> (r: Option<Vec<CompiledTerm>>)
    ensures
        r is Some <==> terms_compile(terms_model(items@)),
        r matches Some(v) ==> all_compiled_as(v@, terms_model(items@)),
    decreases items,
{
    proof {
        lemma_terms_model_len(items@);
        lemma_terms_compile(terms_model(items@));
    }
    let mut out: Vec<CompiledTerm> = Vec::new();
    let mut i: usize = 0;
    while i < items.len()
        invariant
            i <= items@.len(),
            terms_model(items@).len() == items@.len(),
            forall|j: int| 0 <= j < items@.len() ==> #[trigger] terms_model(items@)[j] == term_model(items@[j]),
            terms_compile(terms_model(items@)) <==> forall|j: int| 0 <= j < items@.len() ==> term_compiles(#[trigger] terms_model(items@)[j]),
            out@.len() == i,
            forall|j: int| 0 <= j < i ==> compiled_as(#[trigger] out@[j], term_model(items@[j])),
            forall|j: int| 0 <= j < i ==> term_compiles(#[trigger] term_model(items@[j])),
        decreases items.len() - i,
    {
        match compile_term(&items[i]) {
            Some(c) => {
                out.push(c);
            },
            None => {
                assert(!term_compiles(terms_model(items@)[i as int]));
                return None;
            },
        }
        i += 1;
    }
    proof {
        lemma_all_compiled_as(out@, terms_model(items@));
        assert forall|j: int| 0 <= j < items@.len() implies term_compiles(#[trigger] terms_model(items@)[j]) by {
            assert(term_compiles(term_model(items@[j])));
        }
    }
    Some(out)
}

proof fn lemma_any_hit(e: Entry, ts: Seq<TermModel>, f: MatchFlags)
    ensures
        any_hit(e, ts, f) <==> exists|i: int| 0 <= i < ts.len() && term_hit(e, #[trigger] ts[i], f),
    decreases ts.len(),
{
    if ts.len() > 0 {
        let rest = ts.subrange(1, ts.len() as int);
        lemma_any_hit(e, rest, f);
        if any_hit(e, rest, f) {
            let i = choose|i: int| 0 <= i < rest.len() && term_hit(e, #[trigger] rest[i], f);
            assert(ts[i + 1] == rest[i]);
        }
        if exists|i: int| 0 <= i < ts.len() && term_hit(e, #[trigger] ts[i], f) {
            let i = choose|i: int| 0 <= i < ts.len() && term_hit(e, #[trigger] ts[i], f);
            if i > 0 {
                assert(rest[i - 1] == ts[i]);
            }
        }
    }
}

/// `s`, lower-cased unless case matters.
fn fold_string(s: &str, case: bool) -> (r: String)
    ensures
        r@ == fold_case(s@, case),
        !case ==> no_ascii_upper(r@),
{
    if case {
        s.to_owned()
    } else {
        to_lowercase(s)
    }
}

/// The text a term is matched against, case-folded as asked.
fn target_text(e: &Entry, f: &MatchFlags) -> (r: String)
    ensures
        r@ == fold_case(term_text(*e, f.path), f.case),
{
    if f.path {
        fold_string(e.path.as_str(), f.case)
    } else {
        fold_string(e.name(), f.case)
    }
}

fn substring_matches(e: &Entry, s: &String, f: &MatchFlags) -> (r: bool)
    ensures
        r == substring_hit(*e, s@, *f),
{
    let needle = fold_string(s.as_str(), f.case);
    let nb = needle.as_str().as_bytes();
    if nb.len() == 0 {
        return true;
    }
    if f.whole_word {
        let text = target_text(e, f);
        contains_whole_word(chars_of(text.as_str()).as_slice(), chars_of(needle.as_str()).as_slice())
    } else if !f.path && !f.case {
        contains_ignore_case(e.name(), needle.as_str())
    } else {
        let text = target_text(e, f);
        bytes_contains(text.as_str().as_bytes(), nb)
    }
}

fn wildcard_matches(e: &Entry, p: &String, f: &MatchFlags) -> (r: bool)
    ensures
        r == wildcard_hit(*e, p@, *f),
{
    let pat = chars_of(fold_string(p.as_str(), f.case).as_str());
    let target = chars_of(target_text(e, f).as_str());
    if f.whole_filename {
        glob_match(target.as_slice(), pat.as_slice())
    } else if f.whole_word {
        glob_match_word(target.as_slice(), pat.as_slice())
    } else {
        glob_match_substring(target.as_slice(), pat.as_slice())
    }
}

fn regex_term_matches(e: &Entry, re: &CompiledRegex, src: &String, f: &MatchFlags) -> (r: bool)
    requires
        re.pattern_view() == effective_pattern(src@),
    ensures
        r == regex_hit(*e, src@, *f),
{
    let text = target_text(e, f);
    if !f.whole_word {
        return regex_is_match(re, text.as_str());
    }
    let ghost t = text@;
    let ws = word_list(chars_of(text.as_str()).as_slice());
    let mut i: usize = 0;
    while i < ws.len()
        invariant
            t == fold_case(term_text(*e, f.path), f.case),
            f.whole_word,
            re.pattern_view() == effective_pattern(src@),
            i <= ws@.len(),
            ws@.len() == words(t).len(),
            forall|k: int| 0 <= k < ws@.len() ==> (#[trigger] ws@[k])@ == words(t)[k],
            forall|k: int| 0 <= k < i ==> !spans_whole(re.pattern_view(), #[trigger] words(t)[k]),
        decreases ws.len() - i,
    {
        let word = string_from_chars(ws[i].as_slice());
        let wl = word.as_str().as_bytes().len();
        let spans = regex_match_spans(re, word.as_str());
        assert(word@ == words(t)[i as int]);
        assert(wl as int == encode_utf8(word@).len());
        let mut k: usize = 0;
        while k < spans.len()
            invariant
                t == fold_case(term_text(*e, f.path), f.case),
                f.whole_word,
                re.pattern_view() == effective_pattern(src@),
                0 <= i < words(t).len(),
                word@ == words(t)[i as int],
                k <= spans@.len(),
                spans@ == regex_spans(re.pattern_view(), word@),
                wl as int == encode_utf8(word@).len(),
                forall|j: int| 0 <= j < k ==> spans@[j] != (0usize, wl),
            decreases spans.len() - k,
        {
            let (a, b) = spans[k];
            if a == 0 && b == wl {
                assert(spans@[k as int] == (0usize, encode_utf8(word@).len() as usize));
                assert(spans_whole(re.pattern_view(), words(t)[i as int]));
                assert(0 <= i < words(t).len() && spans_whole(effective_pattern(src@), words(t)[i as int]));
                return true;
            }
            k += 1;
        }
        assert(!spans_whole(re.pattern_view(), words(t)[i as int]));
        i += 1;
    }
    false
}

/// Whether an entry matches a compiled term.
fn term_matches(e: &Entry, c: &CompiledTerm, Ghost(t): Ghost<TermModel>, f: &MatchFlags) -> (r: bool)
    requires
        compiled_as(*c, t),
    ensures
        r == term_hit(*e, t, *f),
    decreases t,
{
    match c {
        CompiledTerm::Substring(s) => substring_matches(e, s, f),
        CompiledTerm::Wildcard(p) => wildcard_matches(e, p, f),
        CompiledTerm::Regex(re, src) => regex_term_matches(e, re, src, f),
        CompiledTerm::Not(inner) => {
            let ghost tb = match t {
                TermModel::Not(b) => *b,
                _ => t,
            };
            !term_matches(e, inner, Ghost(tb), f)
        },
        CompiledTerm::Or(items) => {
            let ghost ts = match t {
                TermModel::Or(v) => v,
                _ => Seq::empty(),
            };
            proof {
                lemma_all_compiled_as(items@, ts);
                lemma_any_hit(*e, ts, *f);
            }
            let mut i: usize = 0;
            while i < items.len()
                invariant
                    i <= items@.len(),
                    t == TermModel::Or(ts),
                    term_hit(*e, t, *f) == any_hit(*e, ts, *f),
                    any_hit(*e, ts, *f) <==> exists|j: int| 0 <= j < ts.len() && term_hit(*e, #[trigger] ts[j], *f),
                    items@.len() == ts.len(),
                    forall|j: int| 0 <= j < items@.len() ==> compiled_as(#[trigger] items@[j], ts[j]),
                    forall|j: int| 0 <= j < i ==> !term_hit(*e, #[trigger] ts[j], *f),
                decreases items.len() - i,
            {
                proof {
                    assert(decreases_to!(t => ts));
                    assert(decreases_to!(ts => ts[i as int]));
                }
                if term_matches(e, &items[i], Ghost(ts[i as int]), f) {
                    return true;
                }
                i += 1;
            }
            false
        },
    }
}

pub open spec fn range_ok_u64(v: u64, r: Option<RangeFilter<u64>>) -> bool {
    match r {
        Some(f) => (f.min matches Some(m) ==> v >= m) && (f.max matches Some(m) ==> v <= m),
        None => true,
    }
}

pub open spec fn range_ok_i64(v: i64, r: Option<RangeFilter<i64>>) -> bool {
    match r {
        Some(f) => (f.min matches Some(m) ==> v >= m) && (f.max matches Some(m) ==> v <= m),
        None => true,
    }
}

fn in_range_u64(v: u64, r: &Option<RangeFilter<u64>>) -> (b: bool)
    ensures
        b == range_ok_u64(v, *r),
{
    match r {
        Some(f) => {
            match f.min {
                Some(m) => {
                    if v < m {
                        return false;
                    }
                },
                None => {},
            }
            match f.max {
                Some(m) => {
                    if v > m {
                        return false;
                    }
                },
                None => {},
            }
            true
        },
        None => true,
    }
}

fn in_range_i64(v: i64, r: &Option<RangeFilter<i64>>) -> (b: bool)
    ensures
        b == range_ok_i64(v, *r),
{
    match r {
        Some(f) => {
            match f.min {
                Some(m) => {
                    if v < m {
                        return false;
                    }
                },
                None => {},
            }
            match f.max {
                Some(m) => {
                    if v > m {
                        return false;
                    }
                },
                None => {},
            }
            true
        },
        None => true,
    }
}

/// The path filter, folded as compared, is not empty (searching for an empty one is refused).
pub open spec fn path_filter_usable(q: Query) -> bool {
    q.path_filter matches Some(pf) ==> encode_utf8(fold_case(pf@, q.match_case)).len() > 0
}

/// An entry passes the query's kind, path, size, date and attribute filters and every term.
pub open spec fn entry_ok(e: Entry, q: Query) -> bool {
    &&& !(q.require_file && e.is_dir)
    &&& !(q.require_folder && !e.is_dir)
    &&& (q.path_filter matches Some(pf) ==> seq_contains(
        encode_utf8(fold_case(e.path@, q.match_case)),
        encode_utf8(fold_case(pf@, q.match_case)),
    ))
    &&& range_ok_u64(e.size, q.size)
    &&& range_ok_i64(e.modified, q.date_modified)
    &&& range_ok_i64(e.created, q.date_created)
    &&& range_ok_i64(e.accessed, q.date_accessed)
    &&& (q.attributes matches Some(a) ==> (a.dir matches Some(d) ==> d == e.is_dir))
    &&& forall|i: int| 0 <= i < q.terms@.len() ==> term_hit(e, term_model(#[trigger] q.terms@[i]), flags_of(q))
}

fn entry_matches(e: &Entry, q: &Query, compiled: &Vec<CompiledTerm>) -> (r: bool)
    requires
        all_compiled_as(compiled@, terms_model(q.terms@)),
        path_filter_usable(*q),
    ensures
        r == entry_ok(*e, *q),
{
    if q.require_file && e.is_dir {
        return false;
    }
    if q.require_folder && !e.is_dir {
        return false;
    }
    match &q.path_filter {
        Some(pf) => {
            let needle = fold_string(pf.as_str(), q.match_case);
            let hay = fold_string(e.path.as_str(), q.match_case);
            if !bytes_contains(hay.as_str().as_bytes(), needle.as_str().as_bytes()) {
                return false;
            }
        },
        None => {},
    }
    if !in_range_u64(e.size, &q.size) {
        return false;
    }
    if !in_range_i64(e.modified, &q.date_modified) {
        return false;
    }
    if !in_range_i64(e.created, &q.date_created) {
        return false;
    }
    if !in_range_i64(e.accessed, &q.date_accessed) {
        return false;
    }
    match &q.attributes {
        Some(a) => {
            match a.dir {
                Some(d) => {
                    if d != e.is_dir {
                        return false;
                    }
                },
                None => {},
            }
        },
        None => {},
    }
    let f = MatchFlags {
        case: q.match_case,
        path: q.match_path,
        whole_word: q.match_whole_word,
        whole_filename: q.whole_filename,
    };
    proof {
        lemma_all_compiled_as(compiled@, terms_model(q.terms@));
        lemma_terms_model_len(q.terms@);
    }
    let mut i: usize = 0;
    while i < compiled.len()
        invariant
            i <= compiled@.len(),
            f == flags_of(*q),
            compiled@.len() == q.terms@.len(),
            forall|j: int| 0 <= j < compiled@.len() ==> compiled_as(#[trigger] compiled@[j], term_model(q.terms@[j])),
            forall|j: int| 0 <= j < i ==> term_hit(*e, term_model(#[trigger] q.terms@[j]), f),
        decreases compiled.len() - i,
    {
        if !term_matches(e, &compiled[i], Ghost(term_model(q.terms@[i as int])), &f) {
            return false;
        }
        i += 1;
    }
    true
}

/// Slot `x` is marked when it was before or some of the first `k` ids of `list` is `x`.
spec fn marks_ok(mark: Seq<bool>, m0: Seq<bool>, list: Seq<u32>, k: int) -> bool {
    forall|x: int|
        0 <= x < mark.len() ==> (#[trigger] mark[x] <==> m0[x] || exists|q2: int| 0 <= q2 < k && list[q2] == x)
}

/// Some of the extensions is that of `e`, a file.
pub open spec fn has_listed_ext(e: Entry, exts: Seq<Seq<char>>) -> bool {
    !e.is_dir && exists|j: int| 0 <= j < exts.len() && ext_chars(e) == exts[j]
}

/// The ids the query selects: with an extension list, the files with one of those
/// extensions, else every entry; then those that pass `entry_ok`; in increasing order.
pub open spec fn selected(index: Index, q: Query, x: u32) -> bool {
    &&& (x as int) < index.entries@.len()
    &&& (q.ext matches Some(v) ==> has_listed_ext(index.entries@[x as int], strings_model(v@)))
    &&& entry_ok(index.entries@[x as int], q)
}

/// The candidate ids: all, or the files with one of the listed extensions.
fn candidates(index: &Index, q: &Query) -> (r: Vec<u32>)
    requires
        index.wf(),
    ensures
        strictly_increasing(r@),
        forall|x: u32|
            r@.contains(x) <==> (x as int) < index.entries@.len() && (q.ext matches Some(v) ==> has_listed_ext(
                index.entries@[x as int],
                strings_model(v@),
            )),
{
    let n = index.entries.len();
    match &q.ext {
        None => all_ids(n),
        Some(exts) => {
            let mut mark: Vec<bool> = Vec::new();
            let mut z: usize = 0;
            while z < n
                invariant
                    z <= n,
                    mark@.len() == z,
                    forall|k: int| 0 <= k < z ==> !mark@[k],
                decreases n - z,
            {
                mark.push(false);
                z += 1;
            }
            let ghost es = index.entries@;
            let ghost ev = strings_model(exts@);
            let mut j: usize = 0;
            while j < exts.len()
                invariant
                    index.wf(),
                    es == index.entries@,
                    n == es.len(),
                    ev == strings_model(exts@),
                    j <= exts@.len(),
                    mark@.len() == n,
                    forall|x: int| 0 <= x < n ==> (mark@[x] <==> !es[x].is_dir && exists|k: int| 0 <= k < j && ext_chars(es[x]) == ev[k]),
                decreases exts.len() - j,
            {
                match index.by_extension(exts[j].as_str()) {
                    Some(list) => {
                        let mut k: usize = 0;
                        let ghost m0 = mark@;
                        while k < list.len()
                            invariant
                                index.wf(),
                                es == index.entries@,
                                n == es.len(),
                                m0.len() == n,
                                j < exts@.len(),
                                mark@.len() == n,
                                k <= list@.len(),
                                forall|x: u32| list@.contains(x) <==> (x as int) < n && !es[x as int].is_dir && ext_chars(es[x as int]) == exts@[j as int]@,
                                marks_ok(mark@, m0, list@, k as int),
                            decreases list.len() - k,
                        {
                            let id = list[k];
                            assert(list@.contains(id));
                            let ghost mk = mark@;
                            mark.set(id as usize, true);
                            proof {
                                assert forall|x: int| 0 <= x < mark@.len() implies (#[trigger] mark@[x] <==> m0[x] || exists|q2: int| 0 <= q2 < k + 1 && list@[q2] == x) by {
                                    if x == id as int {
                                        assert(mark@[x]);
                                        assert(list@[k as int] == x);
                                    } else {
                                        assert(mark@[x] == mk[x]);
                                        assert(mk[x] <==> m0[x] || exists|q2: int| 0 <= q2 < k && list@[q2] == x);
                                        if exists|q2: int| 0 <= q2 < k + 1 && list@[q2] == x {
                                            let q2 = choose|q2: int| 0 <= q2 < k + 1 && list@[q2] == x;
                                            assert(q2 != k);
                                            assert(0 <= q2 < k && list@[q2] == x);
                                        }
                                        if exists|q2: int| 0 <= q2 < k && list@[q2] == x {
                                            let q2 = choose|q2: int| 0 <= q2 < k && list@[q2] == x;
                                            assert(0 <= q2 < k + 1 && list@[q2] == x);
                                        }
                                    }
                                }
                            }
                            k += 1;
                        }
                        proof {
                            assert forall|x: int| 0 <= x < n implies (mark@[x] <==> !es[x].is_dir && exists|k2: int| 0 <= k2 < j + 1 && ext_chars(es[x]) == ev[k2]) by {
                                assert(mark@[x] <==> m0[x] || exists|q2: int| 0 <= q2 < list@.len() && list@[q2] == x);
                                if mark@[x] && !m0[x] {
                                    let q2 = choose|q2: int| 0 <= q2 < k && list@[q2] == x;
                                    assert(list@.contains(x as u32));
                                    assert(ext_chars(es[x]) == ev[j as int]);
                                }
                                if !es[x].is_dir && ext_chars(es[x]) == ev[j as int] {
                                    assert(list@.contains(x as u32));
                                    let q2 = choose|q2: int| 0 <= q2 < list@.len() && list@[q2] == x as u32;
                                }
                            }
                        }
                    },
                    None => {
                        proof {
                            assert forall|x: int| 0 <= x < n implies (mark@[x] <==> !es[x].is_dir && exists|k2: int| 0 <= k2 < j + 1 && ext_chars(es[x]) == ev[k2]) by {
                                if !es[x].is_dir && ext_chars(es[x]) == ev[j as int] {
                                    let i = choose|i: int| 0 <= i < index.by_ext@.len() && index.by_ext@[i].0@ == ext_chars(es[x]) && index.by_ext@[i].1@.contains(x as u32);
                                    assert(index.ext_keys().contains(exts@[j as int]@));
                                }
                            }
                        }
                    },
                }
                j += 1;
            }
            let mut out: Vec<u32> = Vec::new();
            let mut x: usize = 0;
            while x < n
                invariant
                    n == es.len() <= u32::MAX,
                    x <= n,
                    mark@.len() == n,
                    strictly_increasing(out@),
                    forall|y: u32| out@.contains(y) <==> (y as int) < x && mark@[y as int],
                    forall|k: int| 0 <= k < out@.len() ==> out@[k] < x,
                decreases n - x,
            {
                if mark[x] {
                    let ghost before = out@;
                    out.push(x as u32);
                    proof {
                        assert forall|y: u32| out@.contains(y) <==> (y as int) < x + 1 && mark@[y as int] by {
                            if out@.contains(y) && y != x as u32 {
                                let k = choose|k: int| 0 <= k < out@.len() && out@[k] == y;
                                assert(k < out@.len() - 1);
                                assert(before[k] == y);
                                assert(before.contains(y));
                            }
                            if y == x as u32 {
                                assert(out@[out@.len() - 1] == y);
                            } else if (y as int) < x && mark@[y as int] {
                                assert(before.contains(y));
                                let k = choose|k: int| 0 <= k < before.len() && before[k] == y;
                                assert(out@[k] == y);
                            }
                        }
                    }
                }
                x += 1;
            }
            out
        },
    }
}

/// The ids of the entries the query selects, in increasing order, with its terms compiled.
fn match_compiled(index: &Index, query: &Query, compiled: &Vec<CompiledTerm>) -> (r: Vec<u32>)
    requires
        index.wf(),
        all_compiled_as(compiled@, terms_model(query.terms@)),
        path_filter_usable(*query),
    ensures
        strictly_increasing(r@),
        forall|x: u32| r@.contains(x) <==> selected(*index, *query, x),
{
    let ids = candidates(index, query);
    let mut out: Vec<u32> = Vec::new();
    let mut k: usize = 0;
    while k < ids.len()
        invariant
            k <= ids@.len(),
            strictly_increasing(ids@),
            forall|x: u32|
                ids@.contains(x) <==> (x as int) < index.entries@.len() && (query.ext matches Some(v) ==> has_listed_ext(
                    index.entries@[x as int],
                    strings_model(v@),
                )),
            all_compiled_as(compiled@, terms_model(query.terms@)),
            path_filter_usable(*query),
            strictly_increasing(out@),
            forall|x: u32| out@.contains(x) <==> (exists|c: int| 0 <= c < k && ids@[c] == x) && entry_ok(index.entries@[x as int], *query),
        decreases ids.len() - k,
    {
        let id = ids[k];
        assert(ids@.contains(id));
        let ghost before = out@;
        if entry_matches(&index.entries[id as usize], query, compiled) {
            out.push(id);
            proof {
                assert forall|a: int, b: int| 0 <= a < b < out@.len() implies out@[a] < out@[b] by {
                    if b == out@.len() - 1 {
                        assert(before.contains(out@[a]));
                        let c = choose|c: int| 0 <= c < k && ids@[c] == out@[a];
                    }
                }
            }
        }
        proof {
            assert forall|x: u32| out@.contains(x) <==> (exists|c: int| 0 <= c < k + 1 && ids@[c] == x) && entry_ok(index.entries@[x as int], *query) by {
                if out@.contains(x) {
                    let j = choose|j: int| 0 <= j < out@.len() && out@[j] == x;
                    if j < before.len() {
                        assert(before.contains(x));
                        let c = choose|c: int| 0 <= c < k && ids@[c] == x;
                        assert(0 <= c < k + 1 && ids@[c] == x);
                    } else {
                        assert(ids@[k as int] == x);
                    }
                }
                if (exists|c: int| 0 <= c < k + 1 && ids@[c] == x) && entry_ok(index.entries@[x as int], *query) {
                    let c = choose|c: int| 0 <= c < k + 1 && ids@[c] == x;
                    if c < k {
                        assert(before.contains(x));
                        let j = choose|j: int| 0 <= j < before.len() && before[j] == x;
                        assert(out@[j] == x);
                    } else {
                        assert(out@[out@.len() - 1] == x);
                    }
                }
            }
        }
        k += 1;
    }
    proof {
        assert forall|x: u32| out@.contains(x) <==> selected(*index, *query, x) by {
            assert((exists|c: int| 0 <= c < ids@.len() && ids@[c] == x) <==> ids@.contains(x));
        }
    }
    out
}

/// The ids of the entries of `index` that `query` selects, in increasing order.
pub fn match_query(index: &Index, query: &Query) -> (r: Vec<u32>)
    requires
        index.wf(),
        path_filter_usable(*query),
        terms_compile(terms_model(query.terms@)),
    ensures
        strictly_increasing(r@),
        forall|x: u32| r@.contains(x) <==> selected(*index, *query, x),
{
    match compile_terms(&query.terms) {
        Some(compiled) => match_compiled(index, query, &compiled),
        None => Vec::new(),
    }
}

/// `match_query` where it applies: `None` when the path filter folds to nothing or a regular
/// expression compiles neither as written nor escaped.
pub fn try_match_query(index: &Index, query: &Query) -> (r: Option<Vec<u32>>)
    requires
        index.wf(),
    ensures
        r is Some <==> path_filter_usable(*query) && terms_compile(terms_model(query.terms@)),
        r matches Some(v) ==> strictly_increasing(v@) && forall|x: u32| v@.contains(x) <==> selected(*index, *query, x),
{
    match &query.path_filter {
        Some(pf) => {
            let needle = fold_string(pf.as_str(), query.match_case);
            if needle.as_str().as_bytes().len() == 0 {
                return None;
            }
        },
        None => {},
    }
    match compile_terms(&query.terms) {
        Some(compiled) => Some(match_compiled(index, query, &compiled)),
        None => None,
    }
}

/// Terms are joined by AND: a query whose terms include every term of another, and that
/// agrees with it in everything else, selects no entry the other does not select.
pub proof fn law_more_terms_select_fewer(index: Index, q: Query, narrower: Query, x: u32)
    requires
        narrower == (Query { terms: narrower.terms, ..q }),
        forall|i: int| 0 <= i < q.terms@.len() ==> narrower.terms@.contains(#[trigger] q.terms@[i]),
    ensures
        selected(index, narrower, x) ==> selected(index, q, x),
{
    if selected(index, narrower, x) {
        let e = index.entries@[x as int];
        assert(flags_of(narrower) == flags_of(q));
        assert forall|i: int| 0 <= i < q.terms@.len() implies term_hit(
            e,
            term_model(#[trigger] q.terms@[i]),
            flags_of(q),
        ) by {
            assert(narrower.terms@.contains(q.terms@[i]));
            let j = choose|j: int| 0 <= j < narrower.terms@.len() && narrower.terms@[j] == q.terms@[i];
            assert(term_hit(e, term_model(narrower.terms@[j]), flags_of(narrower)));
        }
    }
}

/// A pattern without wildcards: no `*` and no `?`.
pub open spec fn literal_pattern(a: Seq<char>) -> bool {
    forall|i: int| 0 <= i < a.len() ==> a[i] != '*' && a[i] != '?'
}

/// A text that matches nothing but the empty text is empty.
proof fn lemma_glob_empty_text(q: Seq<char>)
    requires
        q.len() > 0,
        q[0] != '*',
    ensures
        !glob(Seq::empty(), q),
{
}

/// A `*` in front of a pattern matches the empty run: whatever a pattern matches, the pattern
/// with a `*` in front matches too.
pub proof fn law_leading_star_matches_empty(t: Seq<char>, q: Seq<char>)
    requires
        glob(t, q),
    ensures
        glob(t, seq!['*'] + q),
{
    let p = seq!['*'] + q;
    assert(p[0] == '*');
    assert(p.drop_first() =~= q);
    if q.len() > 0 && q[0] == '*' {
        assert(skip_stars(q) == skip_stars(q.drop_first()));
    } else if q.len() > 0 {
        assert(skip_stars(q) == q);
        if t.len() == 0 {
            lemma_glob_empty_text(q);
        }
        assert(glob_resume(t, q));
    } else {
        assert(skip_stars(q).len() == 0);
    }
}

/// A literal prefix of the pattern takes itself off the text.
pub proof fn law_literal_prefix(a: Seq<char>, t: Seq<char>, q: Seq<char>)
    requires
        literal_pattern(a),
    ensures
        glob(a + t, a + q) == glob(t, q),
    decreases a.len(),
{
    if a.len() > 0 {
        let a1 = a.drop_first();
        assert(literal_pattern(a1)) by {
            assert forall|i: int| 0 <= i < a1.len() implies a1[i] != '*' && a1[i] != '?' by {
                assert(a1[i] == a[i + 1]);
            }
        }
        law_literal_prefix(a1, t, q);
        assert((a + q)[0] == a[0]);
        assert((a + t)[0] == a[0]);
        assert((a + q).drop_first() =~= a1 + q);
        assert((a + t).drop_first() =~= a1 + t);
    } else {
        assert(a + t =~= t);
        assert(a + q =~= q);
    }
}

/// A `*` matches the empty run wherever it stands after a literal part: where `a + q`
/// matches `a + t`, so does `a + "*" + q` (`foo*.txt` matches `foo.txt`, `*foo` matches
/// `foo`).
pub proof fn law_star_matches_empty(a: Seq<char>, t: Seq<char>, q: Seq<char>)
    requires
        literal_pattern(a),
        glob(a + t, a + q),
    ensures
        glob(a + t, a + seq!['*'] + q),
{
    law_literal_prefix(a, t, q);
    law_leading_star_matches_empty(t, q);
    law_literal_prefix(a, t, seq!['*'] + q);
    assert(a + seq!['*'] + q =~= a + (seq!['*'] + q));
}

proof fn lemma_resume_longer(u: Seq<char>, t: Seq<char>, r: Seq<char>)
    requires
        glob_resume(t, r),
    ensures
        glob_resume(u + t, r),
    decreases u.len(),
{
    if u.len() > 0 {
        lemma_resume_longer(u.drop_first(), t, r);
        assert((u + t).drop_first() =~= u.drop_first() + t);
    } else {
        assert(u + t =~= t);
    }
}

/// A `*` matches any run of characters: where `q` matches `t`, `*` followed by `q` matches
/// `t` with any text `u` in front.
pub proof fn law_star_matches_any_run(u: Seq<char>, t: Seq<char>, q: Seq<char>)
    requires
        glob(t, q),
    ensures
        glob(u + t, seq!['*'] + q),
{
    law_leading_star_matches_empty(t, q);
    let p = seq!['*'] + q;
    assert(p.drop_first() =~= q);
    let r = skip_stars(q);
    if r.len() > 0 {
        assert(glob_resume(t, r));
        lemma_resume_longer(u, t, r);
    }
}

/// A `?` takes exactly one character, whichever it is, and never matches the empty text.
pub proof fn law_question_takes_one(c: char, t: Seq<char>, q: Seq<char>)
    ensures
        glob(seq![c] + t, seq!['?'] + q) == glob(t, q),
        !glob(Seq::empty(), seq!['?'] + q),
{
    assert((seq![c] + t).drop_first() =~= t);
    assert((seq!['?'] + q).drop_first() =~= q);
    assert((seq!['?'] + q)[0] == '?');
}

/// A pattern without wildcards matches exactly the text it spells.
pub proof fn law_literal_pattern_matches_itself(t: Seq<char>, p: Seq<char>)
    requires
        literal_pattern(p),
    ensures
        glob(t, p) <==> t == p,
    decreases p.len(),
{
    if p.len() > 0 {
        let p1 = p.drop_first();
        assert forall|i: int| 0 <= i < p1.len() implies p1[i] != '*' && p1[i] != '?' by {
            assert(p1[i] == p[i + 1]);
        }
        if t.len() > 0 {
            law_literal_pattern_matches_itself(t.drop_first(), p1);
            if t == p {
                assert(t.drop_first() =~= p1);
            }
            if t[0] == p[0] && t.drop_first() == p1 {
                assert(t.len() == p.len());
                assert forall|i: int| 0 <= i < t.len() implies t[i] == p[i] by {
                    if i > 0 {
                        assert(t[i] == t.drop_first()[i - 1]);
                        assert(p[i] == p1[i - 1]);
                    }
                }
                assert(t =~= p);
            }
        }
    } else {
        if t.len() == 0 {
            assert(t =~= p);
        }
    }
}

} // verus!
