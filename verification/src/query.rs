//! The query language: text terms (substring, wildcard, regular expression, alternatives with
//! `|`), modifiers (`case:`, `path:`, `regex:`, ...), functions (`ext:`, `size:`, `dm:`,
//! `sort:`, ...) and file-type macros (`audio:`, `doc:`, ...).
use crate::text::{
    chars_of, eq_lit, find_char, has_char, index_of, lemma_index_of, lower_chars, lower_vec,
    parse_u64, parse_u64_spec, push_str, slice_chars, split_chars, split_on, string_from_chars, string_of,
    trim, trim_chars, upper_chars, upper_vec,
};
use vstd::prelude::*;

verus! {

#[derive(Debug, Clone, Copy, PartialEq, Eq, Structural)]
pub enum SearchMode {
    Substring,
    Wildcard,
    Regex,
}

/// A text term, as parsed.
#[derive(Debug, PartialEq, Eq)]
pub enum TextTerm {
    Substring(String),
    Wildcard(String),
    Regex(String),
    Not(Box<TextTerm>),
    Or(Vec<TextTerm>),
}

/// A text term, its strings taken as characters.
pub enum TermModel {
    Substring(Seq<char>),
    Wildcard(Seq<char>),
    Regex(Seq<char>),
    Not(Box<TermModel>),
    Or(Seq<TermModel>),
}

pub open spec fn term_model(t: TextTerm) -> TermModel
    decreases t,
{
    match t {
        TextTerm::Substring(s) => TermModel::Substring(s@),
        TextTerm::Wildcard(s) => TermModel::Wildcard(s@),
        TextTerm::Regex(s) => TermModel::Regex(s@),
        TextTerm::Not(b) => TermModel::Not(Box::new(term_model(*b))),
        TextTerm::Or(v) => TermModel::Or(terms_model(v@)),
    }
}

pub open spec fn terms_model(s: Seq<TextTerm>) -> Seq<TermModel>
    decreases s,
{
    if s.len() == 0 {
        Seq::empty()
    } else {
        seq![term_model(s[0])] + terms_model(s.subrange(1, s.len() as int))
    }
}

/// A range bound on a value: at least `min`, at most `max` (both inclusive, either open).
#[derive(Debug, Clone, Copy, PartialEq, Eq)]
pub struct RangeFilter<T> {
    pub min: Option<T>,
    pub max: Option<T>,
}

#[derive(Debug, Clone, Copy, PartialEq, Eq)]
pub struct AttributeFilter {
    pub dir: Option<bool>,
    pub hidden: Option<bool>,
    pub readonly: Option<bool>,
    pub system: Option<bool>,
}

#[derive(Debug, Clone, Copy, PartialEq, Eq, Structural)]
pub enum Sort {
    NameAsc,
    NameDesc,
    PathAsc,
    PathDesc,
    SizeAsc,
    SizeDesc,
    ModifiedAsc,
    ModifiedDesc,
    CreatedAsc,
    CreatedDesc,
    AccessedAsc,
    AccessedDesc,
    ExtensionAsc,
    ExtensionDesc,
}

/// A query that did not parse, with the reason.
#[derive(Debug, Clone, PartialEq, Eq)]
pub struct ParseError(pub String);

impl ParseError {
    /// The reason, as text.
    pub fn to_string(&self) -> (r: String)
        ensures
            r@ == self.0@,
    {
        self.0.clone()
    }
}

/// Checks that brackets are balanced (`\` escapes the next character): the reason when not.
pub open spec fn regex_check(s: Seq<char>, stack: Seq<char>, escaped: bool) -> Option<Seq<char>>
    decreases s.len(),
{
    if s.len() == 0 {
        if stack.len() > 0 {
            Some("unclosed group"@)
        } else {
            None
        }
    } else if escaped {
        regex_check(s.drop_first(), stack, false)
    } else {
        let c = s[0];
        let rest = s.drop_first();
        if c == '\\' {
            regex_check(rest, stack, true)
        } else if c == '(' || c == '[' || c == '{' {
            regex_check(rest, stack.push(c), false)
        } else if c == ')' || c == ']' || c == '}' {
            let open = if c == ')' {
                '('
            } else if c == ']' {
                '['
            } else {
                '{'
            };
            if stack.len() > 0 && stack.last() == open {
                regex_check(rest, stack.drop_last(), false)
            } else if c == ')' {
                Some("unmatched )"@)
            } else if c == ']' {
                Some("unmatched ]"@)
            } else {
                Some("unmatched }"@)
            }
        } else {
            regex_check(rest, stack, false)
        }
    }
}

/// Checks that the brackets of a regular expression are balanced.
pub fn validate_regex(pattern: &[char]) -> (r: Result<(), ParseError>)
    ensures
        match r {
            Ok(()) => regex_check(pattern@, Seq::empty(), false) is None,
            Err(e) => regex_check(pattern@, Seq::empty(), false) == Some(e.0@),
        },
{
    let mut stack: Vec<char> = Vec::new();
    let mut escaped = false;
    let mut i: usize = 0;
    assert(pattern@.skip(0) =~= pattern@);
    while i < pattern.len()
        invariant
            i <= pattern@.len(),
            regex_check(pattern@, Seq::empty(), false) == regex_check(
                pattern@.skip(i as int),
                stack@,
                escaped,
            ),
        decreases pattern.len() - i,
    {
        let c = pattern[i];
        assert(pattern@.skip(i as int)[0] == c);
        assert(pattern@.skip(i as int).drop_first() =~= pattern@.skip(i + 1));
        if escaped {
            escaped = false;
        } else if c == '\\' {
            escaped = true;
        } else if c == '(' || c == '[' || c == '{' {
            stack.push(c);
        } else if c == ')' || c == ']' || c == '}' {
            let open = if c == ')' {
                '('
            } else if c == ']' {
                '['
            } else {
                '{'
            };
            let n = stack.len();
            if n > 0 && stack[n - 1] == open {
                stack.pop();
            } else if c == ')' {
                return Err(ParseError(string_of("unmatched )")));
            } else if c == ']' {
                return Err(ParseError(string_of("unmatched ]")));
            } else {
                return Err(ParseError(string_of("unmatched }")));
            }
        }
        i += 1;
    }
    if stack.len() > 0 {
        return Err(ParseError(string_of("unclosed group")));
    }
    Ok(())
}

/// The sort order a `sort:` value names.
pub open spec fn sort_named(v: Seq<char>) -> Option<Sort> {
    if v == "name"@ || v == "name-asc"@ {
        Some(Sort::NameAsc)
    } else if v == "name-desc"@ {
        Some(Sort::NameDesc)
    } else if v == "path"@ || v == "path-asc"@ {
        Some(Sort::PathAsc)
    } else if v == "path-desc"@ {
        Some(Sort::PathDesc)
    } else if v == "size"@ || v == "size-asc"@ {
        Some(Sort::SizeAsc)
    } else if v == "size-desc"@ {
        Some(Sort::SizeDesc)
    } else if v == "modified"@ || v == "date-modified"@ || v == "modified-asc"@ || v
        == "date-modified-asc"@ {
        Some(Sort::ModifiedAsc)
    } else if v == "modified-desc"@ || v == "date-modified-desc"@ {
        Some(Sort::ModifiedDesc)
    } else if v == "created"@ || v == "date-created"@ || v == "created-asc"@ || v
        == "date-created-asc"@ {
        Some(Sort::CreatedAsc)
    } else if v == "created-desc"@ || v == "date-created-desc"@ {
        Some(Sort::CreatedDesc)
    } else if v == "accessed"@ || v == "date-accessed"@ || v == "accessed-asc"@ || v
        == "date-accessed-asc"@ {
        Some(Sort::AccessedAsc)
    } else if v == "accessed-desc"@ || v == "date-accessed-desc"@ {
        Some(Sort::AccessedDesc)
    } else if v == "extension"@ || v == "ext"@ || v == "extension-asc"@ || v == "ext-asc"@ {
        Some(Sort::ExtensionAsc)
    } else if v == "extension-desc"@ || v == "ext-desc"@ {
        Some(Sort::ExtensionDesc)
    } else {
        None
    }
}

/// `sort:` value: trimmed and lower-cased, then looked up.
pub open spec fn sort_spec(value: Seq<char>) -> Result<Sort, Seq<char>> {
    let v = lower_chars(trim(value));
    match sort_named(v) {
        Some(s) => Ok(s),
        None => Err("unknown sort: "@ + v),
    }
}

fn sort_lookup(v: &[char]) -> (r: Option<Sort>)
    ensures
        r == sort_named(v@),
{
    if eq_lit(v, "name") || eq_lit(v, "name-asc") {
        Some(Sort::NameAsc)
    } else if eq_lit(v, "name-desc") {
        Some(Sort::NameDesc)
    } else if eq_lit(v, "path") || eq_lit(v, "path-asc") {
        Some(Sort::PathAsc)
    } else if eq_lit(v, "path-desc") {
        Some(Sort::PathDesc)
    } else if eq_lit(v, "size") || eq_lit(v, "size-asc") {
        Some(Sort::SizeAsc)
    } else if eq_lit(v, "size-desc") {
        Some(Sort::SizeDesc)
    } else if eq_lit(v, "modified") || eq_lit(v, "date-modified") || eq_lit(v, "modified-asc")
        || eq_lit(v, "date-modified-asc") {
        Some(Sort::ModifiedAsc)
    } else if eq_lit(v, "modified-desc") || eq_lit(v, "date-modified-desc") {
        Some(Sort::ModifiedDesc)
    } else if eq_lit(v, "created") || eq_lit(v, "date-created") || eq_lit(v, "created-asc")
        || eq_lit(v, "date-created-asc") {
        Some(Sort::CreatedAsc)
    } else if eq_lit(v, "created-desc") || eq_lit(v, "date-created-desc") {
        Some(Sort::CreatedDesc)
    } else if eq_lit(v, "accessed") || eq_lit(v, "date-accessed") || eq_lit(v, "accessed-asc")
        || eq_lit(v, "date-accessed-asc") {
        Some(Sort::AccessedAsc)
    } else if eq_lit(v, "accessed-desc") || eq_lit(v, "date-accessed-desc") {
        Some(Sort::AccessedDesc)
    } else if eq_lit(v, "extension") || eq_lit(v, "ext") || eq_lit(v, "extension-asc") || eq_lit(
        v,
        "ext-asc",
    ) {
        Some(Sort::ExtensionAsc)
    } else if eq_lit(v, "extension-desc") || eq_lit(v, "ext-desc") {
        Some(Sort::ExtensionDesc)
    } else {
        None
    }
}

/// An error whose message is `prefix` followed by `rest`.
fn error_with(prefix: &str, rest: &[char]) -> (e: ParseError)
    ensures
        e.0@ == prefix@ + rest@,
{
    let mut m = string_of(prefix);
    let r = string_from_chars(rest);
    push_str(&mut m, r.as_str());
    ParseError(m)
}

fn parse_sort(value: &[char]) -> (r: Result<Sort, ParseError>)
    ensures
        match r {
            Ok(s) => sort_spec(value@) == Ok::<Sort, Seq<char>>(s),
            Err(e) => sort_spec(value@) == Err::<Sort, Seq<char>>(e.0@),
        },
{
    let v = lower_vec(trim_chars(value).as_slice());
    match sort_lookup(v.as_slice()) {
        Some(s) => Ok(s),
        None => Err(error_with("unknown sort: ", v.as_slice())),
    }
}

/// The named sizes.
pub open spec fn size_named(s: Seq<char>) -> Option<u64> {
    if s == "empty"@ {
        Some(0u64)
    } else if s == "tiny"@ {
        Some(10240u64)
    } else if s == "small"@ {
        Some(102400u64)
    } else if s == "medium"@ {
        Some(1048576u64)
    } else if s == "large"@ {
        Some(16777216u64)
    } else if s == "huge"@ {
        Some(134217728u64)
    } else if s == "gigantic"@ {
        Some(134217729u64)
    } else {
        None
    }
}

/// `s` ends with the two characters `a b`.
pub open spec fn ends_with2(s: Seq<char>, a: char, b: char) -> bool {
    s.len() >= 2 && s[s.len() - 2] == a && s[s.len() - 1] == b
}

/// A size: a named size, or a decimal number with an optional `kb`, `mb` or `gb` suffix
/// (powers of 1000). A number that does not fit in a `u64`, alone or times its unit, is no
/// size.
pub open spec fn size_value_spec(raw: Seq<char>) -> Result<u64, Seq<char>> {
    let s = lower_chars(trim(raw));
    match size_named(s) {
        Some(v) => Ok(v),
        None => {
            let (num, mult) = if ends_with2(s, 'g', 'b') {
                (trim(s.subrange(0, s.len() - 2)), 1_000_000_000u64)
            } else if ends_with2(s, 'm', 'b') {
                (trim(s.subrange(0, s.len() - 2)), 1_000_000u64)
            } else if ends_with2(s, 'k', 'b') {
                (trim(s.subrange(0, s.len() - 2)), 1_000u64)
            } else {
                (s, 1u64)
            };
            match parse_u64_spec(num) {
                Some(n) => if n * mult <= u64::MAX {
                    Ok((n * mult) as u64)
                } else {
                    Err("invalid size: "@ + s)
                },
                None => Err("invalid size: "@ + s),
            }
        },
    }
}

fn size_lookup(s: &[char]) -> (r: Option<u64>)
    ensures
        r == size_named(s@),
{
    if eq_lit(s, "empty") {
        Some(0)
    } else if eq_lit(s, "tiny") {
        Some(10 * 1024)
    } else if eq_lit(s, "small") {
        Some(100 * 1024)
    } else if eq_lit(s, "medium") {
        Some(1024 * 1024)
    } else if eq_lit(s, "large") {
        Some(16 * 1024 * 1024)
    } else if eq_lit(s, "huge") {
        Some(128 * 1024 * 1024)
    } else if eq_lit(s, "gigantic") {
        Some(128 * 1024 * 1024 + 1)
    } else {
        None
    }
}

fn parse_size_value(raw: &[char]) -> (r: Result<u64, ParseError>)
    ensures
        match r {
            Ok(v) => size_value_spec(raw@) == Ok::<u64, Seq<char>>(v),
            Err(e) => size_value_spec(raw@) == Err::<u64, Seq<char>>(e.0@),
        },
{
    let s = lower_vec(trim_chars(raw).as_slice());
    match size_lookup(s.as_slice()) {
        Some(v) => {
            return Ok(v);
        },
        None => {},
    }
    let n = s.len();
    let ends_gb = n >= 2 && s[n - 2] == 'g' && s[n - 1] == 'b';
    let ends_mb = n >= 2 && s[n - 2] == 'm' && s[n - 1] == 'b';
    let ends_kb = n >= 2 && s[n - 2] == 'k' && s[n - 1] == 'b';
    let (num, mult) = if ends_gb {
        (trim_chars(slice_chars(s.as_slice(), 0, n - 2).as_slice()), 1_000_000_000u64)
    } else if ends_mb {
        (trim_chars(slice_chars(s.as_slice(), 0, n - 2).as_slice()), 1_000_000u64)
    } else if ends_kb {
        (trim_chars(slice_chars(s.as_slice(), 0, n - 2).as_slice()), 1_000u64)
    } else {
        (s.clone(), 1u64)
    };
    match parse_u64(num.as_slice()) {
        Some(v) => match v.checked_mul(mult) {
            Some(p) => Ok(p),
            None => Err(error_with("invalid size: ", s.as_slice())),
        },
        None => Err(error_with("invalid size: ", s.as_slice())),
    }
}

/// Position of the first `..` in `s`, or -1.
pub open spec fn index_of_dots(s: Seq<char>) -> int
    decreases s.len(),
{
    if s.len() < 2 {
        -1
    } else if s[0] == '.' && s[1] == '.' {
        0
    } else if index_of_dots(s.drop_first()) < 0 {
        -1
    } else {
        index_of_dots(s.drop_first()) + 1
    }
}

proof fn lemma_index_of_dots(s: Seq<char>)
    ensures
        -1 <= index_of_dots(s),
        index_of_dots(s) >= 0 ==> index_of_dots(s) + 2 <= s.len(),
    decreases s.len(),
{
    if s.len() >= 2 && !(s[0] == '.' && s[1] == '.') {
        lemma_index_of_dots(s.drop_first());
    }
}

fn find_dots(s: &[char]) -> (r: Option<usize>)
    ensures
        match r {
            Some(i) => i as int == index_of_dots(s@),
            None => index_of_dots(s@) == -1,
        },
{
    let mut i: usize = 0;
    assert(s@.skip(0) =~= s@);
    let n = s.len();
    while i < n && i + 1 < n
        invariant
            n == s@.len(),
            i <= s@.len(),
            index_of_dots(s@) == if index_of_dots(s@.skip(i as int)) < 0 {
                -1
            } else {
                index_of_dots(s@.skip(i as int)) + i
            },
        decreases s.len() - i,
    {
        assert(s@.skip(i as int)[0] == s@[i as int] && s@.skip(i as int)[1] == s@[i + 1]);
        if s[i] == '.' && s[i + 1] == '.' {
            return Some(i);
        }
        assert(s@.skip(i as int).drop_first() =~= s@.skip(i + 1));
        i += 1;
    }
    None
}

/// Both ends of a range given as two sizes.
pub open spec fn size_pair(a: Seq<char>, b: Seq<char>) -> Result<RangeFilter<u64>, Seq<char>> {
    match size_value_spec(trim(a)) {
        Err(e) => Err(e),
        Ok(x) => match size_value_spec(trim(b)) {
            Err(e) => Err(e),
            Ok(y) => Ok(RangeFilter { min: Some(x), max: Some(y) }),
        },
    }
}

pub open spec fn strict_below_zero_message() -> Seq<char> {
    "strictly less than zero bytes is not a valid size filter"@
}

pub open spec fn strict_above_max_message() -> Seq<char> {
    "strictly more than the largest size is not a valid size filter"@
}

/// `size:` value: `a..b` or `a-b` (a range), `>=a`, `<=a`, `>a`, `<a`, or one size `a` (that
/// size exactly). `>a` is at least `a` plus one, and `<a` at most `a` minus one: `<0`, and `>`
/// the largest `u64`, are refused.
pub open spec fn size_spec(value: Seq<char>) -> Result<RangeFilter<u64>, Seq<char>> {
    let v = trim(value);
    let d = index_of_dots(v);
    let h = index_of(v, '-');
    if d >= 0 {
        size_pair(v.subrange(0, d), v.subrange(d + 2, v.len() as int))
    } else if h >= 0 {
        size_pair(v.subrange(0, h), v.subrange(h + 1, v.len() as int))
    } else if v.len() >= 2 && v[0] == '>' && v[1] == '=' {
        match size_value_spec(v.subrange(2, v.len() as int)) {
            Err(e) => Err(e),
            Ok(x) => Ok(RangeFilter { min: Some(x), max: None }),
        }
    } else if v.len() >= 2 && v[0] == '<' && v[1] == '=' {
        match size_value_spec(v.subrange(2, v.len() as int)) {
            Err(e) => Err(e),
            Ok(x) => Ok(RangeFilter { min: None, max: Some(x) }),
        }
    } else if v.len() >= 1 && v[0] == '>' {
        match size_value_spec(v.subrange(1, v.len() as int)) {
            Err(e) => Err(e),
            Ok(x) => if x == u64::MAX {
                Err(strict_above_max_message())
            } else {
                Ok(RangeFilter { min: Some((x + 1) as u64), max: None })
            },
        }
    } else if v.len() >= 1 && v[0] == '<' {
        match size_value_spec(v.subrange(1, v.len() as int)) {
            Err(e) => Err(e),
            Ok(x) => if x == 0 {
                Err(strict_below_zero_message())
            } else {
                Ok(RangeFilter { min: None, max: Some((x - 1) as u64) })
            },
        }
    } else {
        match size_value_spec(v) {
            Err(e) => Err(e),
            Ok(x) => Ok(RangeFilter { min: Some(x), max: Some(x) }),
        }
    }
}

proof fn lemma_no_dots(s: Seq<char>)
    requires
        forall|i: int| 0 <= i < s.len() ==> s[i] != '.',
    ensures
        index_of_dots(s) == -1,
    decreases s.len(),
{
    if s.len() >= 2 {
        lemma_no_dots(s.drop_first());
    }
}

/// A size value fit to follow a comparison: not empty, no white space at either end, and none
/// of the characters that make a range or a comparison (`-`, `.`, `<`, `>`, `=`).
pub open spec fn plain_size_text(v: Seq<char>) -> bool {
    &&& v.len() > 0
    &&& !crate::text::is_space(v[0])
    &&& !crate::text::is_space(v.last())
    &&& forall|i: int|
        0 <= i < v.len() ==> v[i] != '-' && v[i] != '.' && v[i] != '<' && v[i] != '>' && v[i] != '='
}

proof fn lemma_size_text_shape(pre: Seq<char>, v: Seq<char>)
    requires
        plain_size_text(v),
        pre.len() <= 2,
        forall|i: int| 0 <= i < pre.len() ==> (pre[i] == '<' || pre[i] == '>' || pre[i] == '='),
    ensures
        trim(pre + v) == pre + v,
        index_of_dots(pre + v) == -1,
        index_of(pre + v, '-') == -1,
        (pre + v).subrange(pre.len() as int, (pre + v).len() as int) == v,
{
    let w = pre + v;
    assert(w.len() > 0);
    assert(w.last() == v.last());
    if pre.len() > 0 {
        assert(w[0] == pre[0]);
    } else {
        assert(w[0] == v[0]);
    }
    assert(!crate::text::is_space(w[0])) by {
        if pre.len() > 0 {
            assert(pre[0] == '<' || pre[0] == '>' || pre[0] == '=');
        }
    }
    assert(crate::text::trim_start(w) == w);
    assert(crate::text::trim_end(w) == w);
    assert forall|i: int| 0 <= i < w.len() implies w[i] != '.' && w[i] != '-' by {
        if i < pre.len() {
            assert(w[i] == pre[i]);
        } else {
            assert(w[i] == v[i - pre.len()]);
        }
    }
    lemma_no_dots(w);
    crate::text::lemma_index_of(w, '-');
    assert(w.subrange(pre.len() as int, w.len() as int) =~= v);
}

/// `<=v` is at most the size `v` reads as, with no lower bound.
pub proof fn law_size_at_most(v: Seq<char>, x: u64)
    requires
        size_value_spec(v) == Ok::<u64, Seq<char>>(x),
        plain_size_text(v),
    ensures
        size_spec(seq!['<', '='] + v) == Ok::<RangeFilter<u64>, Seq<char>>(RangeFilter { min: None, max: Some(x) }),
{
    lemma_size_text_shape(seq!['<', '='], v);
    assert((seq!['<', '='] + v)[0] == '<' && (seq!['<', '='] + v)[1] == '=');
}

/// `>=v` is at least the size `v` reads as, with no upper bound.
pub proof fn law_size_at_least(v: Seq<char>, x: u64)
    requires
        size_value_spec(v) == Ok::<u64, Seq<char>>(x),
        plain_size_text(v),
    ensures
        size_spec(seq!['>', '='] + v) == Ok::<RangeFilter<u64>, Seq<char>>(RangeFilter { min: Some(x), max: None }),
{
    lemma_size_text_shape(seq!['>', '='], v);
    assert((seq!['>', '='] + v)[0] == '>' && (seq!['>', '='] + v)[1] == '=');
}

/// `<v` is at most one less than the size `v` reads as, with no lower bound; refused where
/// that size is 0.
pub proof fn law_size_below(v: Seq<char>, x: u64)
    requires
        size_value_spec(v) == Ok::<u64, Seq<char>>(x),
        plain_size_text(v),
    ensures
        x > 0 ==> size_spec(seq!['<'] + v) == Ok::<RangeFilter<u64>, Seq<char>>(
            RangeFilter { min: None, max: Some((x - 1) as u64) },
        ),
        x == 0 ==> size_spec(seq!['<'] + v) is Err,
{
    lemma_size_text_shape(seq!['<'], v);
    assert((seq!['<'] + v)[0] == '<' && (seq!['<'] + v)[1] == v[0]);
    assert(v[0] != '=');
}

/// `>v` is at least one more than the size `v` reads as, with no upper bound; refused where
/// that size is the largest `u64`.
pub proof fn law_size_above(v: Seq<char>, x: u64)
    requires
        size_value_spec(v) == Ok::<u64, Seq<char>>(x),
        plain_size_text(v),
    ensures
        x < u64::MAX ==> size_spec(seq!['>'] + v) == Ok::<RangeFilter<u64>, Seq<char>>(
            RangeFilter { min: Some((x + 1) as u64), max: None },
        ),
        x == u64::MAX ==> size_spec(seq!['>'] + v) is Err,
{
    lemma_size_text_shape(seq!['>'], v);
    assert((seq!['>'] + v)[0] == '>' && (seq!['>'] + v)[1] == v[0]);
    assert(v[0] != '=');
}

/// A size alone is exactly that size.
pub proof fn law_size_exactly(v: Seq<char>, x: u64)
    requires
        size_value_spec(v) == Ok::<u64, Seq<char>>(x),
        plain_size_text(v),
    ensures
        size_spec(v) == Ok::<RangeFilter<u64>, Seq<char>>(RangeFilter { min: Some(x), max: Some(x) }),
{
    lemma_size_text_shape(Seq::empty(), v);
    assert(Seq::<char>::empty() + v =~= v);
    assert(v[0] != '<' && v[0] != '>');
}

proof fn lemma_dots_after(a: Seq<char>, rest: Seq<char>)
    requires
        forall|i: int| 0 <= i < a.len() ==> a[i] != '.',
        rest.len() >= 2,
        rest[0] == '.',
        rest[1] == '.',
    ensures
        index_of_dots(a + rest) == a.len(),
    decreases a.len(),
{
    if a.len() > 0 {
        lemma_dots_after(a.drop_first(), rest);
        assert((a + rest).drop_first() =~= a.drop_first() + rest);
        assert((a + rest)[0] == a[0]);
    } else {
        assert(a + rest =~= rest);
    }
}

proof fn lemma_char_after(a: Seq<char>, rest: Seq<char>, c: char)
    requires
        forall|i: int| 0 <= i < a.len() ==> a[i] != c,
        rest.len() >= 1,
        rest[0] == c,
    ensures
        index_of(a + rest, c) == a.len(),
    decreases a.len(),
{
    if a.len() > 0 {
        lemma_char_after(a.drop_first(), rest, c);
        assert((a + rest).drop_first() =~= a.drop_first() + rest);
        assert((a + rest)[0] == a[0]);
    } else {
        assert(a + rest =~= rest);
    }
}

/// `a..b` and `a-b` are the sizes from what `a` reads as to what `b` reads as.
pub proof fn law_size_range(a: Seq<char>, b: Seq<char>, x: u64, y: u64)
    requires
        size_value_spec(a) == Ok::<u64, Seq<char>>(x),
        size_value_spec(b) == Ok::<u64, Seq<char>>(y),
        plain_size_text(a),
        plain_size_text(b),
    ensures
        size_spec(a + seq!['.', '.'] + b) == Ok::<RangeFilter<u64>, Seq<char>>(RangeFilter { min: Some(x), max: Some(y) }),
        size_spec(a + seq!['-'] + b) == Ok::<RangeFilter<u64>, Seq<char>>(RangeFilter { min: Some(x), max: Some(y) }),
{
    let w1 = a + seq!['.', '.'] + b;
    let w2 = a + seq!['-'] + b;
    assert(w1 =~= a + (seq!['.', '.'] + b));
    assert(w2 =~= a + (seq!['-'] + b));
    assert(w1.last() == b.last() && w1[0] == a[0]);
    assert(w2.last() == b.last() && w2[0] == a[0]);
    assert(crate::text::trim_start(w1) == w1 && crate::text::trim_end(w1) == w1);
    assert(crate::text::trim_start(w2) == w2 && crate::text::trim_end(w2) == w2);
    lemma_dots_after(a, seq!['.', '.'] + b);
    assert(w1.subrange(0, a.len() as int) =~= a);
    assert(w1.subrange(a.len() as int + 2, w1.len() as int) =~= b);
    assert(crate::text::trim_start(a) == a && crate::text::trim_end(a) == a);
    assert(crate::text::trim_start(b) == b && crate::text::trim_end(b) == b);
    assert forall|i: int| 0 <= i < w2.len() implies w2[i] != '.' by {
        if i < a.len() {
            assert(w2[i] == a[i]);
        } else if i > a.len() {
            assert(w2[i] == b[i - a.len() - 1]);
        }
    }
    lemma_no_dots(w2);
    lemma_char_after(a, seq!['-'] + b, '-');
    assert(w2.subrange(0, a.len() as int) =~= a);
    assert(w2.subrange(a.len() as int + 1, w2.len() as int) =~= b);
}

proof fn lemma_digits_then_unit(d: Seq<char>, unit: Seq<char>)
    requires
        d.len() > 0,
        crate::text::all_digits(d),
        unit.len() == 0 || (unit.len() == 2 && unit[1] == 'b' && (unit[0] == 'k' || unit[0] == 'm'
            || unit[0] == 'g')),
    ensures
        lower_chars(trim(d + unit)) == d + unit,
        size_named(d + unit) is None,
        (d + unit).subrange(0, d.len() as int) == d,
        trim(d) == d,
{
    reveal_strlit("empty");
    reveal_strlit("tiny");
    reveal_strlit("small");
    reveal_strlit("medium");
    reveal_strlit("large");
    reveal_strlit("huge");
    reveal_strlit("gigantic");
    let s = d + unit;
    assert(s[0] == d[0]);
    assert('0' <= s[0] <= '9');
    assert(s.last() == if unit.len() == 0 { d.last() } else { 'b' });
    assert(!crate::text::is_space(s[0]) && !crate::text::is_space(s.last())) by {
        assert('0' <= d.last() <= '9');
    }
    assert(crate::text::trim_start(s) == s && crate::text::trim_end(s) == s);
    assert(!crate::text::is_space(d[0]) && !crate::text::is_space(d.last())) by {
        assert('0' <= d.last() <= '9');
    }
    assert(crate::text::trim_start(d) == d && crate::text::trim_end(d) == d);
    assert forall|i: int| 0 <= i < s.len() implies (s[i] as u32) < 128 && !('A' <= s[i] <= 'Z') by {
        if i < d.len() {
            assert(s[i] == d[i]);
            assert('0' <= d[i] <= '9');
        } else {
            assert(s[i] == unit[i - d.len()]);
        }
    }
    assert(vstd::utf8::is_ascii_chars(s));
    assert(crate::text::ascii_lower_chars(s) =~= s);
    assert(s.subrange(0, d.len() as int) =~= d);
}

/// The units of a size: a number alone is bytes, `kb` thousands, `mb` millions and `gb`
/// billions of bytes; a number that, times its unit, does not fit in a `u64` is no size.
pub proof fn law_size_units(d: Seq<char>)
    requires
        d.len() > 0,
        crate::text::all_digits(d),
    ensures
        ({
            let n = crate::text::digits_value(d);
            &&& size_value_spec(d) == if n <= u64::MAX { Ok::<u64, Seq<char>>(n as u64) } else { Err(size_value_spec(d)->Err_0) }
            &&& n * 1000 <= u64::MAX ==> size_value_spec(d + seq!['k', 'b']) == Ok::<u64, Seq<char>>((n * 1000) as u64)
            &&& n * 1000000 <= u64::MAX ==> size_value_spec(d + seq!['m', 'b']) == Ok::<u64, Seq<char>>((n * 1000000) as u64)
            &&& n * 1000000000 <= u64::MAX ==> size_value_spec(d + seq!['g', 'b']) == Ok::<u64, Seq<char>>((n * 1000000000) as u64)
            &&& n * 1000000000 > u64::MAX ==> size_value_spec(d + seq!['g', 'b']) is Err
        }),
{
    lemma_digits_then_unit(d, Seq::empty());
    assert(d + Seq::<char>::empty() =~= d);
    lemma_digits_then_unit(d, seq!['k', 'b']);
    lemma_digits_then_unit(d, seq!['m', 'b']);
    lemma_digits_then_unit(d, seq!['g', 'b']);
    assert(d[0] != '+');
    if d.len() >= 2 {
        assert(!ends_with2(d, 'g', 'b') && !ends_with2(d, 'm', 'b') && !ends_with2(d, 'k', 'b')) by {
            assert('0' <= d[d.len() - 1] <= '9');
        }
    }
    crate::text::lemma_digits_value_nonneg(d);
    let n = crate::text::digits_value(d);
    let dk = d + seq!['k', 'b'];
    assert(dk[dk.len() - 2] == 'k' && dk[dk.len() - 1] == 'b');
    let dm = d + seq!['m', 'b'];
    assert(dm[dm.len() - 2] == 'm' && dm[dm.len() - 1] == 'b');
    let dg = d + seq!['g', 'b'];
    assert(dg[dg.len() - 2] == 'g' && dg[dg.len() - 1] == 'b');
    if n <= u64::MAX {
        assert(parse_u64_spec(d) == Some(n as u64));
        assert(lower_chars(trim(d)) == d);
        assert(size_named(d) is None);
        assert(!ends_with2(d, 'g', 'b') && !ends_with2(d, 'm', 'b') && !ends_with2(d, 'k', 'b'));
        let k = n as u64;
        assert(k * 1u64 == k) by (nonlinear_arith);
        assert(size_value_spec(d) == Ok::<u64, Seq<char>>(n as u64));
    }
    if n * 1000 <= u64::MAX {
        assert(size_value_spec(dk) == Ok::<u64, Seq<char>>((n * 1000) as u64));
    }
}

fn parse_size_pair(a: &[char], b: &[char]) -> (r: Result<RangeFilter<u64>, ParseError>)
    ensures
        match r {
            Ok(f) => size_pair(a@, b@) == Ok::<RangeFilter<u64>, Seq<char>>(f),
            Err(e) => size_pair(a@, b@) == Err::<RangeFilter<u64>, Seq<char>>(e.0@),
        },
{
    let x = parse_size_value(trim_chars(a).as_slice())?;
    let y = parse_size_value(trim_chars(b).as_slice())?;
    Ok(RangeFilter { min: Some(x), max: Some(y) })
}

/// Parses a `size:` value.
fn parse_size(value: &[char]) -> (r: Result<RangeFilter<u64>, ParseError>)
    ensures
        match r {
            Ok(f) => size_spec(value@) == Ok::<RangeFilter<u64>, Seq<char>>(f),
            Err(e) => size_spec(value@) == Err::<RangeFilter<u64>, Seq<char>>(e.0@),
        },
{
    let v = trim_chars(value);
    let n = v.len();
    proof {
        lemma_index_of_dots(v@);
        lemma_index_of(v@, '-');
    }
    match find_dots(v.as_slice()) {
        Some(d) => {
            return parse_size_pair(slice_chars(v.as_slice(), 0, d).as_slice(), slice_chars(v.as_slice(), d + 2, n).as_slice());
        },
        None => {},
    }
    match find_char(v.as_slice(), '-') {
        Some(h) => {
            return parse_size_pair(slice_chars(v.as_slice(), 0, h).as_slice(), slice_chars(v.as_slice(), h + 1, n).as_slice());
        },
        None => {},
    }
    if n >= 2 && v[0] == '>' && v[1] == '=' {
        let x = parse_size_value(slice_chars(v.as_slice(), 2, n).as_slice())?;
        return Ok(RangeFilter { min: Some(x), max: None });
    }
    if n >= 2 && v[0] == '<' && v[1] == '=' {
        let x = parse_size_value(slice_chars(v.as_slice(), 2, n).as_slice())?;
        return Ok(RangeFilter { min: None, max: Some(x) });
    }
    if n >= 1 && v[0] == '>' {
        let x = parse_size_value(slice_chars(v.as_slice(), 1, n).as_slice())?;
        if x == u64::MAX {
            return Err(ParseError(string_of("strictly more than the largest size is not a valid size filter")));
        }
        return Ok(RangeFilter { min: Some(x + 1), max: None });
    }
    if n >= 1 && v[0] == '<' {
        let x = parse_size_value(slice_chars(v.as_slice(), 1, n).as_slice())?;
        if x == 0 {
            return Err(ParseError(string_of("strictly less than zero bytes is not a valid size filter")));
        }
        return Ok(RangeFilter { min: None, max: Some(x - 1) });
    }
    let x = parse_size_value(v.as_slice())?;
    Ok(RangeFilter { min: Some(x), max: Some(x) })
}

/// The start of the day of `t`, the quotient taken towards zero as `/` on `i64` does: a time
/// in the day before the epoch counts as day zero.
pub open spec fn day_start(t: int) -> int {
    if t >= 0 {
        (t / 86400) * 86400
    } else {
        -(((-t) / 86400) * 86400)
    }
}

/// The clock values a date filter is computed from: from the epoch to one day before the
/// largest `i64`.
pub open spec fn clock_in_range(now: i64) -> bool {
    0 <= now <= i64::MAX - 86400
}

/// `dm:`/`dc:`/`da:` value at time `now`: `today` and `yesterday` are those calendar days (UTC);
/// anything else is the last 24 hours.
pub open spec fn date_spec(value: Seq<char>, now: i64) -> RangeFilter<i64> {
    let v = lower_chars(trim(value));
    if v == "today"@ {
        RangeFilter { min: Some(day_start(now as int) as i64), max: Some((day_start(now as int) + 86399) as i64) }
    } else if v == "yesterday"@ {
        RangeFilter {
            min: Some(day_start(now - 86400) as i64),
            max: Some((day_start(now - 86400) + 86399) as i64),
        }
    } else {
        RangeFilter { min: Some((now - 86400) as i64), max: Some(now) }
    }
}

fn start_of_day(ts: i64) -> (r: i64)
    requires
        -86400 <= ts,
    ensures
        r == day_start(ts as int),
        -86400 <= r <= ts || (ts < 0 && r == 0),
{
    if ts >= 0 {
        let d = ts / 86400;
        assert(0 <= d * 86400 <= ts) by (nonlinear_arith)
            requires
                d == ts / 86400,
                ts >= 0,
        ;
        d * 86400
    } else {
        let p = -ts;
        let d = p / 86400;
        assert(0 <= d * 86400 <= p) by (nonlinear_arith)
            requires
                d == p / 86400,
                p >= 0,
        ;
        -(d * 86400)
    }
}

fn parse_date(value: &[char], now: i64) -> (r: RangeFilter<i64>)
    requires
        clock_in_range(now),
    ensures
        r == date_spec(value@, now),
{
    let v = lower_vec(trim_chars(value).as_slice());
    if eq_lit(v.as_slice(), "today") {
        let s = start_of_day(now);
        RangeFilter { min: Some(s), max: Some(s + 86399) }
    } else if eq_lit(v.as_slice(), "yesterday") {
        let s = start_of_day(now - 86400);
        RangeFilter { min: Some(s), max: Some(s + 86399) }
    } else {
        RangeFilter { min: Some(now - 86400), max: Some(now) }
    }
}

/// `attrib:` value, upper-cased: `D`, `H`, `R`, `S` require a directory, hidden, read-only,
/// system file.
pub open spec fn attrs_after(s: Seq<char>, f: AttributeFilter) -> AttributeFilter
    decreases s.len(),
{
    if s.len() == 0 {
        f
    } else {
        let c = s[0];
        let g = if c == 'D' {
            AttributeFilter { dir: Some(true), ..f }
        } else if c == 'H' {
            AttributeFilter { hidden: Some(true), ..f }
        } else if c == 'R' {
            AttributeFilter { readonly: Some(true), ..f }
        } else if c == 'S' {
            AttributeFilter { system: Some(true), ..f }
        } else {
            f
        };
        attrs_after(s.drop_first(), g)
    }
}

pub open spec fn attrs_spec(value: Seq<char>) -> AttributeFilter {
    attrs_after(upper_chars(value), AttributeFilter { dir: None, hidden: None, readonly: None, system: None })
}

fn parse_attributes(value: &[char]) -> (r: AttributeFilter)
    ensures
        r == attrs_spec(value@),
{
    let u = upper_vec(value);
    let mut f = AttributeFilter { dir: None, hidden: None, readonly: None, system: None };
    let mut i: usize = 0;
    assert(u@.skip(0) =~= u@);
    while i < u.len()
        invariant
            i <= u@.len(),
            u@ == upper_chars(value@),
            attrs_spec(value@) == attrs_after(u@.skip(i as int), f),
        decreases u.len() - i,
    {
        assert(u@.skip(i as int)[0] == u@[i as int]);
        assert(u@.skip(i as int).drop_first() =~= u@.skip(i + 1));
        let c = u[i];
        if c == 'D' {
            f.dir = Some(true);
        } else if c == 'H' {
            f.hidden = Some(true);
        } else if c == 'R' {
            f.readonly = Some(true);
        } else if c == 'S' {
            f.system = Some(true);
        }
        i += 1;
    }
    f
}

/// A query token: free text, a modifier or function with its value, or a macro.
pub enum TokenModel {
    Text(Seq<char>),
    Modifier(Seq<char>, Seq<char>),
    Function(Seq<char>, Seq<char>),
    Macro(Seq<char>),
}

enum Token {
    Text(Vec<char>),
    Modifier(Vec<char>, Vec<char>),
    Function(Vec<char>, Vec<char>),
    Macro(Vec<char>),
}

spec fn token_model(t: Token) -> TokenModel {
    match t {
        Token::Text(s) => TokenModel::Text(s@),
        Token::Modifier(n, v) => TokenModel::Modifier(n@, v@),
        Token::Function(n, v) => TokenModel::Function(n@, v@),
        Token::Macro(n) => TokenModel::Macro(n@),
    }
}

pub open spec fn is_modifier_name(n: Seq<char>) -> bool {
    n == "case"@ || n == "nocase"@ || n == "file"@ || n == "folder"@ || n == "path"@ || n
        == "nopath"@ || n == "ww"@ || n == "noww"@ || n == "wildcards"@ || n == "nowildcards"@ || n
        == "regex"@ || n == "noregex"@ || n == "diacritics"@ || n == "wholefilename"@ || n
        == "nowholefilename"@
}

pub open spec fn is_function_name(n: Seq<char>) -> bool {
    n == "ext"@ || n == "parent"@ || n == "size"@ || n == "dm"@ || n == "dc"@ || n == "da"@ || n
        == "attrib"@ || n == "child"@ || n == "depth"@ || n == "empty"@ || n == "sort"@
}

pub open spec fn is_macro_name(n: Seq<char>) -> bool {
    n == "audio"@ || n == "doc"@ || n == "exe"@ || n == "pic"@ || n == "video"@ || n == "zip"@
}

fn modifier_name(n: &[char]) -> (r: bool)
    ensures
        r == is_modifier_name(n@),
{
    eq_lit(n, "case") || eq_lit(n, "nocase") || eq_lit(n, "file") || eq_lit(n, "folder") || eq_lit(
        n,
        "path",
    ) || eq_lit(n, "nopath") || eq_lit(n, "ww") || eq_lit(n, "noww") || eq_lit(n, "wildcards")
        || eq_lit(n, "nowildcards") || eq_lit(n, "regex") || eq_lit(n, "noregex") || eq_lit(
        n,
        "diacritics",
    ) || eq_lit(n, "wholefilename") || eq_lit(n, "nowholefilename")
}

fn function_name(n: &[char]) -> (r: bool)
    ensures
        r == is_function_name(n@),
{
    eq_lit(n, "ext") || eq_lit(n, "parent") || eq_lit(n, "size") || eq_lit(n, "dm") || eq_lit(n, "dc")
        || eq_lit(n, "da") || eq_lit(n, "attrib") || eq_lit(n, "child") || eq_lit(n, "depth")
        || eq_lit(n, "empty") || eq_lit(n, "sort")
}

fn macro_name(n: &[char]) -> (r: bool)
    ensures
        r == is_macro_name(n@),
{
    eq_lit(n, "audio") || eq_lit(n, "doc") || eq_lit(n, "exe") || eq_lit(n, "pic") || eq_lit(n, "video")
        || eq_lit(n, "zip")
}

/// A word is `name:value` when the lower-cased part before its first `:` is a known modifier,
/// function or macro name; otherwise it is text.
pub open spec fn classify_spec(s: Seq<char>) -> TokenModel {
    let k = index_of(s, ':');
    if k <= 0 {
        TokenModel::Text(s)
    } else {
        let nl = lower_chars(s.subrange(0, k));
        let value = s.subrange(k + 1, s.len() as int);
        if is_modifier_name(nl) {
            TokenModel::Modifier(nl, value)
        } else if is_function_name(nl) {
            TokenModel::Function(nl, value)
        } else if is_macro_name(nl) {
            TokenModel::Macro(nl)
        } else {
            TokenModel::Text(s)
        }
    }
}

fn classify_token(s: &[char]) -> (t: Token)
    ensures
        token_model(t) == classify_spec(s@),
{
    proof {
        lemma_index_of(s@, ':');
        assert(s@.subrange(0, s@.len() as int) =~= s@);
    }
    let _n = s.len();
    match find_char(s, ':') {
        Some(k) => {
            if k == 0 {
                return Token::Text(slice_chars(s, 0, s.len()));
            }
            let nl = lower_vec(slice_chars(s, 0, k).as_slice());
            let value = slice_chars(s, k + 1, s.len());
            if modifier_name(nl.as_slice()) {
                Token::Modifier(nl, value)
            } else if function_name(nl.as_slice()) {
                Token::Function(nl, value)
            } else if macro_name(nl.as_slice()) {
                Token::Macro(nl)
            } else {
                Token::Text(slice_chars(s, 0, s.len()))
            }
        },
        None => Token::Text(slice_chars(s, 0, s.len())),
    }
}

pub open spec fn is_token_space(c: char) -> bool {
    c == ' ' || c == '\t' || c == '\n' || c == '\r'
}

/// The token of a finished word, if the word is not empty.
pub open spec fn flush(cur: Seq<char>) -> Seq<TokenModel> {
    if cur.len() > 0 {
        seq![classify_spec(cur)]
    } else {
        Seq::empty()
    }
}

/// Tokens of `s`, after a word `cur` in progress, inside or outside double quotes. Words are
/// separated by spaces, tabs and line breaks; quoted text is one text token, quotes dropped.
pub open spec fn tokens_after(s: Seq<char>, cur: Seq<char>, quoted: bool) -> Seq<TokenModel>
    decreases s.len(),
{
    if s.len() == 0 {
        if quoted {
            seq![TokenModel::Text(cur)]
        } else {
            flush(cur)
        }
    } else if quoted {
        if s[0] == '"' {
            seq![TokenModel::Text(cur)] + tokens_after(s.drop_first(), Seq::empty(), false)
        } else {
            tokens_after(s.drop_first(), cur.push(s[0]), true)
        }
    } else if is_token_space(s[0]) {
        flush(cur) + tokens_after(s.drop_first(), Seq::empty(), false)
    } else if s[0] == '"' {
        flush(cur) + tokens_after(s.drop_first(), Seq::empty(), true)
    } else {
        tokens_after(s.drop_first(), cur.push(s[0]), false)
    }
}

pub open spec fn tokens_spec(s: Seq<char>) -> Seq<TokenModel> {
    tokens_after(s, Seq::empty(), false)
}

spec fn tokens_model(v: Seq<Token>) -> Seq<TokenModel> {
    Seq::new(v.len(), |i: int| token_model(v[i]))
}

fn push_flush(tokens: &mut Vec<Token>, cur: &Vec<char>)
    ensures
        tokens_model(final(tokens)@) == tokens_model(old(tokens)@) + flush(cur@),
{
    if cur.len() > 0 {
        let t = classify_token(cur.as_slice());
        tokens.push(t);
    }
    assert(tokens_model(tokens@) =~= tokens_model(old(tokens)@) + flush(cur@));
}

fn tokenize(input: &[char]) -> (r: Vec<Token>)
    ensures
        tokens_model(r@) == tokens_spec(input@),
{
    let mut tokens: Vec<Token> = Vec::new();
    let mut cur: Vec<char> = Vec::new();
    let mut quoted = false;
    let mut i: usize = 0;
    assert(input@.skip(0) =~= input@);
    assert(tokens_model(tokens@) =~= Seq::<TokenModel>::empty());
    while i < input.len()
        invariant
            i <= input@.len(),
            tokens_spec(input@) == tokens_model(tokens@) + tokens_after(
                input@.skip(i as int),
                cur@,
                quoted,
            ),
        decreases input.len() - i,
    {
        let c = input[i];
        let ghost rest = input@.skip(i + 1);
        assert(input@.skip(i as int)[0] == c);
        assert(input@.skip(i as int).drop_first() =~= rest);
        let ghost before = tokens_model(tokens@);
        let ghost cur0 = cur@;
        if quoted {
            if c == '"' {
                tokens.push(Token::Text(cur));
                cur = Vec::new();
                quoted = false;
                assert(tokens_model(tokens@) =~= before.push(TokenModel::Text(cur0)));
                assert(before + (seq![TokenModel::Text(cur0)] + tokens_after(rest, Seq::empty(), false))
                    =~= before.push(TokenModel::Text(cur0)) + tokens_after(rest, Seq::empty(), false));
            } else {
                cur.push(c);
            }
        } else if c == ' ' || c == '\t' || c == '\n' || c == '\r' {
            push_flush(&mut tokens, &cur);
            cur = Vec::new();
            assert(before + (flush(cur0) + tokens_after(rest, Seq::empty(), false)) =~= (before + flush(
                cur0,
            )) + tokens_after(rest, Seq::empty(), false));
        } else if c == '"' {
            push_flush(&mut tokens, &cur);
            cur = Vec::new();
            quoted = true;
            assert(before + (flush(cur0) + tokens_after(rest, Seq::empty(), true)) =~= (before + flush(
                cur0,
            )) + tokens_after(rest, Seq::empty(), true));
        } else {
            cur.push(c);
        }
        i += 1;
    }
    let ghost before = tokens_model(tokens@);
    if quoted {
        let ghost cur0 = cur@;
        tokens.push(Token::Text(cur));
        assert(tokens_model(tokens@) =~= before + seq![TokenModel::Text(cur0)]);
    } else {
        push_flush(&mut tokens, &cur);
    }
    tokens
}

/// A parsed query.
#[derive(Debug, PartialEq, Eq)]
pub struct Query {
    pub raw: String,
    pub mode: SearchMode,
    pub match_case: bool,
    pub match_whole_word: bool,
    pub match_path: bool,
    pub require_file: bool,
    pub require_folder: bool,
    pub whole_filename: bool,
    pub terms: Vec<TextTerm>,
    pub ext: Option<Vec<String>>,
    pub path_filter: Option<String>,
    pub size: Option<RangeFilter<u64>>,
    pub date_modified: Option<RangeFilter<i64>>,
    pub date_created: Option<RangeFilter<i64>>,
    pub date_accessed: Option<RangeFilter<i64>>,
    pub attributes: Option<AttributeFilter>,
    pub offset: usize,
    pub max_results: usize,
    pub sort: Sort,
}

/// What parsing decides of a query, strings taken as characters.
pub struct QueryModel {
    pub mode: SearchMode,
    pub match_case: bool,
    pub match_whole_word: bool,
    pub match_path: bool,
    pub require_file: bool,
    pub require_folder: bool,
    pub whole_filename: bool,
    pub terms: Seq<TermModel>,
    pub ext: Option<Seq<Seq<char>>>,
    pub path_filter: Option<Seq<char>>,
    pub size: Option<RangeFilter<u64>>,
    pub date_modified: Option<RangeFilter<i64>>,
    pub date_created: Option<RangeFilter<i64>>,
    pub date_accessed: Option<RangeFilter<i64>>,
    pub attributes: Option<AttributeFilter>,
    pub sort: Sort,
}

pub open spec fn strings_model(v: Seq<String>) -> Seq<Seq<char>> {
    Seq::new(v.len(), |i: int| v[i]@)
}

impl Query {
    pub open spec fn model(&self) -> QueryModel {
        QueryModel {
            mode: self.mode,
            match_case: self.match_case,
            match_whole_word: self.match_whole_word,
            match_path: self.match_path,
            require_file: self.require_file,
            require_folder: self.require_folder,
            whole_filename: self.whole_filename,
            terms: terms_model(self.terms@),
            ext: match self.ext {
                Some(v) => Some(strings_model(v@)),
                None => None,
            },
            path_filter: match self.path_filter {
                Some(p) => Some(p@),
                None => None,
            },
            size: self.size,
            date_modified: self.date_modified,
            date_created: self.date_created,
            date_accessed: self.date_accessed,
            attributes: self.attributes,
            sort: self.sort,
        }
    }
}

/// A query before any token: substring search, no filters, sorted by name.
pub open spec fn default_model() -> QueryModel {
    QueryModel {
        mode: SearchMode::Substring,
        match_case: false,
        match_whole_word: false,
        match_path: false,
        require_file: false,
        require_folder: false,
        whole_filename: false,
        terms: Seq::empty(),
        ext: None,
        path_filter: None,
        size: None,
        date_modified: None,
        date_created: None,
        date_accessed: None,
        attributes: None,
        sort: Sort::NameAsc,
    }
}

impl Default for Query {
    fn default() -> (r: Self)
        ensures
            r.model() == default_model(),
            r.raw@ == Seq::<char>::empty(),
            r.offset == 0,
            r.max_results == usize::MAX,
    {
        let r = Query {
            raw: String::new(),
            mode: SearchMode::Substring,
            match_case: false,
            match_whole_word: false,
            match_path: false,
            require_file: false,
            require_folder: false,
            whole_filename: false,
            terms: Vec::new(),
            ext: None,
            path_filter: None,
            size: None,
            date_modified: None,
            date_created: None,
            date_accessed: None,
            attributes: None,
            offset: 0,
            max_results: usize::MAX,
            sort: Sort::NameAsc,
        };
        assert(terms_model(r.terms@) =~= Seq::<TermModel>::empty());
        r
    }
}

pub proof fn lemma_terms_model_len(s: Seq<TextTerm>)
    ensures
        terms_model(s).len() == s.len(),
        forall|i: int| 0 <= i < s.len() ==> #[trigger] terms_model(s)[i] == term_model(s[i]),
    decreases s.len(),
{
    if s.len() > 0 {
        let rest = s.subrange(1, s.len() as int);
        lemma_terms_model_len(rest);
        assert forall|i: int| 0 <= i < s.len() implies #[trigger] terms_model(s)[i] == term_model(s[i]) by {
            if i > 0 {
                assert(rest[i - 1] == s[i]);
            }
        }
    }
}

pub proof fn lemma_terms_model_push(s: Seq<TextTerm>, t: TextTerm)
    ensures
        terms_model(s.push(t)) == terms_model(s).push(term_model(t)),
    decreases s.len(),
{
    if s.len() == 0 {
        assert(s.push(t).subrange(1, 1) =~= Seq::<TextTerm>::empty());
        assert(terms_model(s.push(t).subrange(1, 1)) =~= Seq::<TermModel>::empty());
        assert(s.push(t)[0] == t);
        assert(terms_model(s) =~= Seq::<TermModel>::empty());
        assert(terms_model(s.push(t)) =~= seq![term_model(t)]);
    } else {
        let rest = s.subrange(1, s.len() as int);
        assert(s.push(t).subrange(1, s.len() as int + 1) =~= rest.push(t));
        lemma_terms_model_push(rest, t);
        assert(terms_model(s.push(t)) =~= terms_model(s).push(term_model(t)));
    }
}

/// A modifier applied to a query.
pub open spec fn modifier_spec(q: QueryModel, name: Seq<char>, value: Seq<char>) -> Result<QueryModel, Seq<char>> {
    if name == "case"@ {
        Ok(QueryModel { match_case: true, ..q })
    } else if name == "nocase"@ {
        Ok(QueryModel { match_case: false, ..q })
    } else if name == "file"@ {
        Ok(QueryModel { require_file: true, ..q })
    } else if name == "folder"@ {
        Ok(QueryModel { require_folder: true, ..q })
    } else if name == "path"@ {
        Ok(QueryModel {
            match_path: true,
            path_filter: if value.len() > 0 { Some(value) } else { q.path_filter },
            ..q
        })
    } else if name == "nopath"@ {
        Ok(QueryModel { match_path: false, ..q })
    } else if name == "ww"@ {
        Ok(QueryModel { match_whole_word: true, ..q })
    } else if name == "noww"@ {
        Ok(QueryModel { match_whole_word: false, ..q })
    } else if name == "wildcards"@ {
        Ok(QueryModel { mode: SearchMode::Wildcard, ..q })
    } else if name == "nowildcards"@ || name == "noregex"@ {
        Ok(QueryModel { mode: SearchMode::Substring, ..q })
    } else if name == "regex"@ {
        if value.len() == 0 {
            Ok(QueryModel { mode: SearchMode::Regex, ..q })
        } else {
            match regex_check(value, Seq::empty(), false) {
                Some(e) => Err(e),
                None => Ok(QueryModel { mode: SearchMode::Regex, terms: q.terms.push(TermModel::Regex(value)), ..q }),
            }
        }
    } else if name == "wholefilename"@ {
        Ok(QueryModel { whole_filename: true, ..q })
    } else if name == "nowholefilename"@ {
        Ok(QueryModel { whole_filename: false, ..q })
    } else {
        Ok(q)
    }
}

/// Query fields that parsing leaves alone.
pub open spec fn same_frame(a: Query, b: Query) -> bool {
    a.raw == b.raw && a.offset == b.offset && a.max_results == b.max_results
}

fn apply_modifier(query: &mut Query, name: &[char], value: &[char]) -> (r: Result<(), ParseError>)
    ensures
        same_frame(*old(query), *final(query)),
        match r {
            Ok(()) => modifier_spec(old(query).model(), name@, value@) == Ok::<QueryModel, Seq<char>>(final(query).model()),
            Err(e) => modifier_spec(old(query).model(), name@, value@) == Err::<QueryModel, Seq<char>>(e.0@),
        },
{
    if eq_lit(name, "case") {
        query.match_case = true;
    } else if eq_lit(name, "nocase") {
        query.match_case = false;
    } else if eq_lit(name, "file") {
        query.require_file = true;
    } else if eq_lit(name, "folder") {
        query.require_folder = true;
    } else if eq_lit(name, "path") {
        query.match_path = true;
        if value.len() > 0 {
            query.path_filter = Some(string_from_chars(value));
        }
    } else if eq_lit(name, "nopath") {
        query.match_path = false;
    } else if eq_lit(name, "ww") {
        query.match_whole_word = true;
    } else if eq_lit(name, "noww") {
        query.match_whole_word = false;
    } else if eq_lit(name, "wildcards") {
        query.mode = SearchMode::Wildcard;
    } else if eq_lit(name, "nowildcards") || eq_lit(name, "noregex") {
        query.mode = SearchMode::Substring;
    } else if eq_lit(name, "regex") {
        query.mode = SearchMode::Regex;
        if value.len() > 0 {
            validate_regex(value)?;
            let ghost before = query.terms@;
            let t = TextTerm::Regex(string_from_chars(value));
            let ghost tg = t;
            query.terms.push(t);
            proof {
                lemma_terms_model_push(before, tg);
            }
        }
    } else if eq_lit(name, "wholefilename") {
        query.whole_filename = true;
    } else if eq_lit(name, "nowholefilename") {
        query.whole_filename = false;
    }
    Ok(())
}

/// The extensions of an `ext:` list: each piece trimmed and lower-cased, empty ones dropped.
pub open spec fn ext_parts(parts: Seq<Seq<char>>) -> Seq<Seq<char>>
    decreases parts.len(),
{
    if parts.len() == 0 {
        Seq::empty()
    } else {
        let e = lower_chars(trim(parts.last()));
        if e.len() > 0 {
            ext_parts(parts.drop_last()).push(e)
        } else {
            ext_parts(parts.drop_last())
        }
    }
}

/// A function applied to a query, at time `now`.
pub open spec fn function_spec(q: QueryModel, name: Seq<char>, value: Seq<char>, now: i64) -> Result<QueryModel, Seq<char>> {
    if name == "ext"@ {
        let e = ext_parts(split_on(value, ';'));
        if e.len() > 0 {
            Ok(QueryModel { ext: Some(e), ..q })
        } else {
            Ok(q)
        }
    } else if name == "size"@ {
        match size_spec(value) {
            Ok(r) => Ok(QueryModel { size: Some(r), ..q }),
            Err(e) => Err(e),
        }
    } else if name == "dm"@ {
        Ok(QueryModel { date_modified: Some(date_spec(value, now)), ..q })
    } else if name == "dc"@ {
        Ok(QueryModel { date_created: Some(date_spec(value, now)), ..q })
    } else if name == "da"@ {
        Ok(QueryModel { date_accessed: Some(date_spec(value, now)), ..q })
    } else if name == "attrib"@ {
        Ok(QueryModel { attributes: Some(attrs_spec(value)), ..q })
    } else if name == "sort"@ {
        match sort_spec(value) {
            Ok(s) => Ok(QueryModel { sort: s, ..q }),
            Err(e) => Err(e),
        }
    } else {
        Ok(q)
    }
}

fn strings_of(parts: &Vec<Vec<char>>) -> (r: Vec<String>)
    ensures
        strings_model(r@) == Seq::new(parts@.len(), |i: int| parts@[i]@),
{
    let mut r: Vec<String> = Vec::new();
    let mut i: usize = 0;
    while i < parts.len()
        invariant
            i <= parts@.len(),
            r@.len() == i,
            forall|j: int| 0 <= j < i ==> (#[trigger] r@[j])@ == parts@[j]@,
        decreases parts.len() - i,
    {
        r.push(string_from_chars(parts[i].as_slice()));
        i += 1;
    }
    assert(strings_model(r@) =~= Seq::new(parts@.len(), |i: int| parts@[i]@));
    r
}

fn ext_list(value: &[char]) -> (r: Vec<String>)
    ensures
        strings_model(r@) == ext_parts(split_on(value@, ';')),
{
    let parts = split_chars(value, ';');
    let ghost ps = split_on(value@, ';');
    let mut r: Vec<String> = Vec::new();
    let mut i: usize = 0;
    assert(strings_model(r@) =~= ext_parts(ps.subrange(0, 0)));
    while i < parts.len()
        invariant
            i <= parts@.len(),
            ps == split_on(value@, ';'),
            parts@.len() == ps.len(),
            forall|j: int| 0 <= j < parts@.len() ==> (#[trigger] parts@[j])@ == ps[j],
            strings_model(r@) == ext_parts(ps.subrange(0, i as int)),
        decreases parts.len() - i,
    {
        assert(ps.subrange(0, i + 1).drop_last() =~= ps.subrange(0, i as int));
        let e = lower_vec(trim_chars(parts[i].as_slice()).as_slice());
        if e.len() > 0 {
            r.push(string_from_chars(e.as_slice()));
        }
        assert(strings_model(r@) =~= ext_parts(ps.subrange(0, i + 1)));
        i += 1;
    }
    assert(ps.subrange(0, ps.len() as int) =~= ps);
    r
}

fn apply_function(query: &mut Query, name: &[char], value: &[char], now: i64) -> (r: Result<(), ParseError>)
    requires
        clock_in_range(now),
    ensures
        same_frame(*old(query), *final(query)),
        match r {
            Ok(()) => function_spec(old(query).model(), name@, value@, now) == Ok::<QueryModel, Seq<char>>(final(query).model()),
            Err(e) => function_spec(old(query).model(), name@, value@, now) == Err::<QueryModel, Seq<char>>(e.0@),
        },
{
    if eq_lit(name, "ext") {
        let exts = ext_list(value);
        if exts.len() > 0 {
            query.ext = Some(exts);
        }
    } else if eq_lit(name, "size") {
        let r = parse_size(value)?;
        query.size = Some(r);
    } else if eq_lit(name, "dm") {
        query.date_modified = Some(parse_date(value, now));
    } else if eq_lit(name, "dc") {
        query.date_created = Some(parse_date(value, now));
    } else if eq_lit(name, "da") {
        query.date_accessed = Some(parse_date(value, now));
    } else if eq_lit(name, "attrib") {
        query.attributes = Some(parse_attributes(value));
    } else if eq_lit(name, "sort") {
        query.sort = parse_sort(value)?;
    }
    Ok(())
}

/// The extensions a file-type macro stands for.
pub open spec fn macro_exts(name: Seq<char>) -> Option<Seq<char>> {
    if name == "audio"@ {
        Some("aac;ac3;aiff;flac;m4a;mid;midi;mp3;ogg;ra;wav;wma"@)
    } else if name == "doc"@ {
        Some("doc;docx;xls;xlsx;ppt;pptx;pdf;txt;rtf;csv"@)
    } else if name == "exe"@ {
        Some("exe;com;bat;cmd;msi;scr;pif"@)
    } else if name == "pic"@ {
        Some("bmp;gif;ico;jpg;jpeg;png;psd;svg;tif;tiff;webm"@)
    } else if name == "video"@ {
        Some("avi;flv;m4v;mkv;mov;mp4;mpeg;mpg;wmv"@)
    } else if name == "zip"@ {
        Some("7z;cab;bz2;gz;rar;tar;tgz;zip"@)
    } else {
        None
    }
}

/// A file-type macro applied to a query: its extension list replaces the query's.
pub open spec fn macro_spec(q: QueryModel, name: Seq<char>) -> QueryModel {
    match macro_exts(name) {
        Some(list) => QueryModel { ext: Some(split_on(list, ';')), ..q },
        None => q,
    }
}

fn apply_macro(query: &mut Query, name: &[char])
    ensures
        same_frame(*old(query), *final(query)),
        final(query).model() == macro_spec(old(query).model(), name@),
{
    let list = if eq_lit(name, "audio") {
        "aac;ac3;aiff;flac;m4a;mid;midi;mp3;ogg;ra;wav;wma"
    } else if eq_lit(name, "doc") {
        "doc;docx;xls;xlsx;ppt;pptx;pdf;txt;rtf;csv"
    } else if eq_lit(name, "exe") {
        "exe;com;bat;cmd;msi;scr;pif"
    } else if eq_lit(name, "pic") {
        "bmp;gif;ico;jpg;jpeg;png;psd;svg;tif;tiff;webm"
    } else if eq_lit(name, "video") {
        "avi;flv;m4v;mkv;mov;mp4;mpeg;mpg;wmv"
    } else if eq_lit(name, "zip") {
        "7z;cab;bz2;gz;rar;tar;tgz;zip"
    } else {
        return ;
    };
    let parts = split_chars(chars_of(list).as_slice(), ';');
    let exts = strings_of(&parts);
    query.ext = Some(exts);
    assert(strings_model(exts@) =~= split_on(list@, ';'));
}

/// Terms of the `|`-separated pieces of a text token, with the search mode they leave: empty
/// pieces are skipped; in regex mode a piece is a regular expression (and must have balanced
/// brackets); otherwise a piece with `*` or `?` is a wildcard (and switches the query to
/// wildcard mode), any other a substring.
pub open spec fn text_terms(parts: Seq<Seq<char>>, mode: SearchMode) -> Result<(Seq<TermModel>, SearchMode), Seq<char>>
    decreases parts.len(),
{
    if parts.len() == 0 {
        Ok((Seq::empty(), mode))
    } else {
        let p = parts[0];
        let rest = parts.drop_first();
        if p.len() == 0 {
            text_terms(rest, mode)
        } else if mode == SearchMode::Regex {
            match regex_check(p, Seq::empty(), false) {
                Some(e) => Err(e),
                None => prepend_term(TermModel::Regex(p), text_terms(rest, mode)),
            }
        } else if p.contains('*') || p.contains('?') {
            prepend_term(TermModel::Wildcard(p), text_terms(rest, SearchMode::Wildcard))
        } else {
            prepend_term(TermModel::Substring(p), text_terms(rest, mode))
        }
    }
}

pub open spec fn prepend_term(t: TermModel, r: Result<(Seq<TermModel>, SearchMode), Seq<char>>) -> Result<(Seq<TermModel>, SearchMode), Seq<char>> {
    prepend_terms(seq![t], r)
}

pub open spec fn prepend_terms(acc: Seq<TermModel>, r: Result<(Seq<TermModel>, SearchMode), Seq<char>>) -> Result<(Seq<TermModel>, SearchMode), Seq<char>> {
    match r {
        Ok((ts, m)) => Ok((acc + ts, m)),
        Err(e) => Err(e),
    }
}

/// A text token applied to a query: no term, one term, or the alternatives of all its terms.
pub open spec fn text_spec(q: QueryModel, text: Seq<char>) -> Result<QueryModel, Seq<char>> {
    match text_terms(split_on(text, '|'), q.mode) {
        Err(e) => Err(e),
        Ok((ts, m)) => Ok(QueryModel {
            mode: m,
            terms: if ts.len() == 0 {
                q.terms
            } else if ts.len() == 1 {
                q.terms.push(ts[0])
            } else {
                q.terms.push(TermModel::Or(ts))
            },
            ..q
        }),
    }
}

fn add_text_term(query: &mut Query, text: &[char]) -> (r: Result<(), ParseError>)
    ensures
        same_frame(*old(query), *final(query)),
        match r {
            Ok(()) => text_spec(old(query).model(), text@) == Ok::<QueryModel, Seq<char>>(final(query).model()),
            Err(e) => text_spec(old(query).model(), text@) == Err::<QueryModel, Seq<char>>(e.0@),
        },
{
    let parts = split_chars(text, '|');
    let ghost ps = split_on(text@, '|');
    let ghost m0 = query.mode;
    let mut mode = query.mode;
    let mut terms: Vec<TextTerm> = Vec::new();
    let mut k: usize = 0;
    assert(ps.skip(0) =~= ps);
    assert(terms_model(terms@) =~= Seq::<TermModel>::empty());
    assert(prepend_terms(Seq::empty(), text_terms(ps, m0)) == text_terms(ps, m0)) by {
        match text_terms(ps, m0) {
            Ok((ts, m)) => {
                assert(Seq::<TermModel>::empty() + ts =~= ts);
            },
            Err(e) => {},
        }
    }
    while k < parts.len()
        invariant
            k <= parts@.len(),
            ps == split_on(text@, '|'),
            parts@.len() == ps.len(),
            forall|j: int| 0 <= j < parts@.len() ==> (#[trigger] parts@[j])@ == ps[j],
            text_terms(ps, m0) == prepend_terms(terms_model(terms@), text_terms(ps.skip(k as int), mode)),
            *query == *old(query),
            m0 == old(query).mode,
        decreases parts.len() - k,
    {
        let p = &parts[k];
        let ghost rest = ps.skip(k + 1);
        assert(ps.skip(k as int)[0] == p@);
        assert(ps.skip(k as int).drop_first() =~= rest);
        let ghost acc = terms_model(terms@);
        if p.len() > 0 {
            let t = if mode == SearchMode::Regex {
                validate_regex(p.as_slice())?;
                TextTerm::Regex(string_from_chars(p.as_slice()))
            } else if has_char(p.as_slice(), '*') || has_char(p.as_slice(), '?') {
                mode = SearchMode::Wildcard;
                TextTerm::Wildcard(string_from_chars(p.as_slice()))
            } else {
                TextTerm::Substring(string_from_chars(p.as_slice()))
            };
            let ghost tg = t;
            let ghost before = terms@;
            terms.push(t);
            proof {
                lemma_terms_model_push(before, tg);
                match text_terms(rest, mode) {
                    Ok((ts, m)) => {
                        assert(acc + (seq![term_model(tg)] + ts) =~= acc.push(term_model(tg)) + ts);
                    },
                    Err(e) => {},
                }
            }
        }
        k += 1;
    }
    proof {
        assert(ps.skip(k as int) =~= Seq::<Seq<char>>::empty());
    }
    let ghost ts = terms_model(terms@);
    assert(terms_model(terms@) + Seq::<TermModel>::empty() =~= ts);
    assert(text_terms(ps, m0) == Ok::<(Seq<TermModel>, SearchMode), Seq<char>>((ts, mode)));
    proof {
        lemma_terms_model_len(terms@);
    }
    let ghost before = query.terms@;
    let ghost q0 = query.model();
    query.mode = mode;
    let n = terms.len();
    if n == 1 {
        let t = terms.remove(0);
        proof {
            lemma_terms_model_push(before, t);
            assert(ts[0] == term_model(t));
        }
        query.terms.push(t);
        assert(query.model().terms == q0.terms.push(ts[0]));
    } else if n > 1 {
        let t = TextTerm::Or(terms);
        let ghost tg = t;
        query.terms.push(t);
        proof {
            lemma_terms_model_push(before, tg);
        }
        assert(query.model().terms == q0.terms.push(TermModel::Or(ts)));
    } else {
        assert(query.model().terms == q0.terms);
    }
    assert(query.model() == (QueryModel {
        mode: mode,
        terms: if ts.len() == 0 {
            q0.terms
        } else if ts.len() == 1 {
            q0.terms.push(ts[0])
        } else {
            q0.terms.push(TermModel::Or(ts))
        },
        ..q0
    }));
    Ok(())
}

/// One token applied to a query.
pub open spec fn token_spec(q: QueryModel, t: TokenModel, now: i64) -> Result<QueryModel, Seq<char>> {
    match t {
        TokenModel::Text(x) => text_spec(q, x),
        TokenModel::Modifier(n, v) => modifier_spec(q, n, v),
        TokenModel::Function(n, v) => function_spec(q, n, v, now),
        TokenModel::Macro(n) => Ok(macro_spec(q, n)),
    }
}

/// Tokens applied in order; the first error stops.
pub open spec fn apply_tokens(q: QueryModel, ts: Seq<TokenModel>, now: i64) -> Result<QueryModel, Seq<char>>
    decreases ts.len(),
{
    if ts.len() == 0 {
        Ok(q)
    } else {
        match token_spec(q, ts[0], now) {
            Ok(q2) => apply_tokens(q2, ts.drop_first(), now),
            Err(e) => Err(e),
        }
    }
}

/// The query `input` stands for at time `now`, or why it is refused.
pub open spec fn parse_spec(input: Seq<char>, now: i64) -> Result<QueryModel, Seq<char>> {
    apply_tokens(default_model(), tokens_spec(input), now)
}

/// Seconds since the Unix epoch by the system clock (`SystemTime::now()`), zero when the clock
/// is before the epoch. Nothing is stated of the value: it is the time.
#[verifier::external_body]
fn clock_seconds() -> u64 {
    std::time::SystemTime::now().duration_since(std::time::UNIX_EPOCH).unwrap_or_default().as_secs()
}

impl Query {
    /// Parses a query, with date filters taken relative to `now` (seconds since the Unix epoch).
    pub fn parse_at(input: &str, now: i64) -> (r: Result<Query, ParseError>)
        requires
            clock_in_range(now),
        ensures
            match r {
                Ok(q) => {
                    &&& parse_spec(input@, now) == Ok::<QueryModel, Seq<char>>(q.model())
                    &&& q.raw@ == input@
                    &&& q.offset == 0
                    &&& q.max_results == usize::MAX
                },
                Err(e) => parse_spec(input@, now) == Err::<QueryModel, Seq<char>>(e.0@),
            },
    {
        let chars = chars_of(input);
        let tokens = tokenize(chars.as_slice());
        let mut query = Query::default();
        query.raw = input.to_owned();
        let ghost all = tokens_model(tokens@);
        let mut i: usize = 0;
        assert(all.skip(0) =~= all);
        while i < tokens.len()
            invariant
                clock_in_range(now),
                i <= tokens@.len(),
                all == tokens_model(tokens@),
                all == tokens_spec(input@),
                parse_spec(input@, now) == apply_tokens(query.model(), all.skip(i as int), now),
                query.raw@ == input@,
                query.offset == 0,
                query.max_results == usize::MAX,
            decreases tokens.len() - i,
        {
            let ghost q0 = query.model();
            assert(all.skip(i as int)[0] == token_model(tokens@[i as int]));
            assert(all.skip(i as int).drop_first() =~= all.skip(i + 1));
            match &tokens[i] {
                Token::Modifier(n, v) => {
                    apply_modifier(&mut query, n.as_slice(), v.as_slice())?;
                },
                Token::Function(n, v) => {
                    apply_function(&mut query, n.as_slice(), v.as_slice(), now)?;
                },
                Token::Macro(n) => {
                    apply_macro(&mut query, n.as_slice());
                },
                Token::Text(t) => {
                    add_text_term(&mut query, t.as_slice())?;
                },
            }
            i += 1;
        }
        Ok(query)
    }

    /// Parses a query, with date filters taken relative to the system clock. The clock is read
    /// only for a query with a date filter, and a clock outside the range dates can be computed
    /// in refuses only such a query; any other query parses as it would at every time.
    pub fn parse(input: &str) -> (r: Result<Query, ParseError>)
        ensures
            match r {
                Ok(q) => exists|now: i64|
                    clock_in_range(now) && parse_spec(input@, now) == Ok::<QueryModel, Seq<char>>(q.model()),
                Err(e) => (e.0@ == "system clock out of range"@ && has_date_filter(input@))
                    || exists|now: i64|
                    clock_in_range(now) && parse_spec(input@, now) == Err::<QueryModel, Seq<char>>(e.0@),
            },
            !has_date_filter(input@) ==> forall|now: i64|
                clock_in_range(now) ==> match r {
                    Ok(q) => #[trigger] parse_spec(input@, now) == Ok::<QueryModel, Seq<char>>(q.model()),
                    Err(e) => parse_spec(input@, now) == Err::<QueryModel, Seq<char>>(e.0@),
                },
    {
        let chars = chars_of(input);
        let tokens = tokenize(chars.as_slice());
        let dated = tokens_have_date(&tokens);
        let now: i64 = if dated {
            let secs = clock_seconds();
            if secs > (i64::MAX - 86400) as u64 {
                return Err(ParseError(string_of("system clock out of range")));
            }
            secs as i64
        } else {
            86400
        };
        let r = Query::parse_at(input, now);
        proof {
            if !dated {
                assert forall|n: i64| clock_in_range(n) implies parse_spec(input@, n) == parse_spec(input@, now) by {
                    law_parse_without_dates_ignores_clock(input@, n, now);
                }
            }
            if r is Ok {
                assert(clock_in_range(now) && parse_spec(input@, now) == Ok::<QueryModel, Seq<char>>(r->Ok_0.model()));
            } else {
                assert(clock_in_range(now) && parse_spec(input@, now) == Err::<QueryModel, Seq<char>>(r->Err_0.0@));
            }
        }
        r
    }
}

/// A `dm:`, `dc:` or `da:` filter, the tokens whose meaning depends on the clock.
pub open spec fn is_date_token(t: TokenModel) -> bool {
    match t {
        TokenModel::Function(n, _) => n == "dm"@ || n == "dc"@ || n == "da"@,
        _ => false,
    }
}

/// `input` holds a date filter.
pub open spec fn has_date_filter(input: Seq<char>) -> bool {
    exists|i: int| 0 <= i < tokens_spec(input).len() && is_date_token(#[trigger] tokens_spec(input)[i])
}

fn tokens_have_date(tokens: &Vec<Token>) -> (r: bool)
    ensures
        r == exists|i: int| 0 <= i < tokens@.len() && is_date_token(#[trigger] tokens_model(tokens@)[i]),
{
    let mut i: usize = 0;
    while i < tokens.len()
        invariant
            i <= tokens@.len(),
            forall|j: int| 0 <= j < i ==> !is_date_token(#[trigger] tokens_model(tokens@)[j]),
        decreases tokens.len() - i,
    {
        match &tokens[i] {
            Token::Function(n, _) => {
                if eq_lit(n.as_slice(), "dm") || eq_lit(n.as_slice(), "dc") || eq_lit(n.as_slice(), "da") {
                    assert(is_date_token(tokens_model(tokens@)[i as int]));
                    return true;
                }
            },
            _ => {},
        }
        assert(!is_date_token(tokens_model(tokens@)[i as int]));
        i += 1;
    }
    false
}

proof fn lemma_apply_tokens_clock_free(q: QueryModel, ts: Seq<TokenModel>, n1: i64, n2: i64)
    requires
        forall|i: int| 0 <= i < ts.len() ==> !is_date_token(#[trigger] ts[i]),
    ensures
        apply_tokens(q, ts, n1) == apply_tokens(q, ts, n2),
    decreases ts.len(),
{
    if ts.len() > 0 {
        assert(!is_date_token(ts[0]));
        assert(token_spec(q, ts[0], n1) == token_spec(q, ts[0], n2));
        match token_spec(q, ts[0], n1) {
            Ok(q2) => {
                assert forall|i: int| 0 <= i < ts.drop_first().len() implies !is_date_token(
                    #[trigger] ts.drop_first()[i],
                ) by {
                    assert(ts.drop_first()[i] == ts[i + 1]);
                }
                lemma_apply_tokens_clock_free(q2, ts.drop_first(), n1, n2);
            },
            Err(_) => {},
        }
    }
}

/// A query without a date filter means the same at every time.
pub proof fn law_parse_without_dates_ignores_clock(input: Seq<char>, n1: i64, n2: i64)
    requires
        !has_date_filter(input),
    ensures
        parse_spec(input, n1) == parse_spec(input, n2),
{
    let ts = tokens_spec(input);
    assert forall|i: int| 0 <= i < ts.len() implies !is_date_token(#[trigger] ts[i]) by {
        if is_date_token(ts[i]) {
            assert(has_date_filter(input));
        }
    }
    lemma_apply_tokens_clock_free(default_model(), ts, n1, n2);
}

} // verus!
