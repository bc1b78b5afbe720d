//! Marked search results: `*term*` marks shown as terminal colours, and colour codes taken out
//! again.
use crate::text::{chars_of, push_char, push_str, string_of};
use vstd::prelude::*;

verus! {

/// The escape sequence that starts colour `color % 8`.
pub open spec fn colour_open(color: u8) -> Seq<char> {
    seq!['\x1b', '[', '3', (48 + color % 8) as char, 'm']
}

/// The escape sequence that resets the colour.
pub open spec fn colour_close() -> Seq<char> {
    seq!['\x1b', '[', '0', 'm']
}

/// `*term*` shown in colour, `**` shown as one `*`; a `*` that is not closed, or that closes
/// at once, is kept.
pub open spec fn render_spec(s: Seq<char>, open: Seq<char>) -> Seq<char>
    decreases s.len(),
{
    if s.len() == 0 {
        s
    } else if s[0] != '*' {
        seq![s[0]] + render_spec(s.drop_first(), open)
    } else if s.len() >= 2 && s[1] == '*' {
        seq!['*'] + render_spec(s.skip(2), open)
    } else {
        let rest = s.drop_first();
        let k = crate::text::index_of(rest, '*');
        if k < 0 {
            s
        } else if k == 0 {
            seq!['*'] + render_spec(rest.skip(1), open)
        } else {
            proof {
                crate::text::lemma_index_of(rest, '*');
            }
            open + rest.take(k) + colour_close() + render_spec(rest.skip(k + 1), open)
        }
    }
}

/// `s` without escape sequences (an escape character up to and with the next `m`).
pub open spec fn strip_spec(s: Seq<char>) -> Seq<char>
    decreases s.len(),
{
    if s.len() == 0 {
        s
    } else if s[0] != '\x1b' {
        seq![s[0]] + strip_spec(s.drop_first())
    } else {
        let rest = s.drop_first();
        let k = crate::text::index_of(rest, 'm');
        if k < 0 {
            Seq::empty()
        } else {
            proof {
                crate::text::lemma_index_of(rest, 'm');
            }
            strip_spec(rest.skip(k + 1))
        }
    }
}

/// Render a highlighted string by converting `*term*` markers to ANSI escapes.
pub fn render_ansi(input: &str, color: u8) -> (r: String)
    ensures
        r@ == render_spec(input@, colour_open(color)),
{
    let c = chars_of(input);
    let n = c.len();
    let mut open = string_of("\x1b[3");
    push_char(&mut open, (48u8 + color % 8) as char);
    push_char(&mut open, 'm');
    proof {
        reveal_strlit("\x1b[3");
    }
    assert(open@ =~= colour_open(color));
    let mut out = String::new();
    let mut i: usize = 0;
    assert(c@.skip(0) =~= c@);
    assert(out@ =~= Seq::<char>::empty());
    while i < n
        invariant
            i <= n == c@.len(),
            c@ == input@,
            open@ == colour_open(color),
            render_spec(input@, open@) == out@ + render_spec(c@.skip(i as int), open@),
        decreases n - i,
    {
        let ghost rest0 = c@.skip(i as int);
        let ghost out0 = out@;
        if c[i] != '*' {
            push_char(&mut out, c[i]);
            assert(rest0.drop_first() =~= c@.skip(i + 1));
            i += 1;
        } else if i + 1 < n && c[i + 1] == '*' {
            push_char(&mut out, '*');
            assert(rest0.skip(2) =~= c@.skip(i + 2));
            i += 2;
        } else {
            let ghost rest = rest0.drop_first();
            assert(rest =~= c@.skip(i + 1));
            let mut j: usize = i + 1;
            while j < n && c[j] != '*'
                invariant
                    i + 1 <= j <= n == c@.len(),
                    forall|t: int| i + 1 <= t < j ==> c@[t] != '*',
                decreases n - j,
            {
                j += 1;
            }
            proof {
                crate::text::lemma_index_of(rest, '*');
                if j < n {
                    assert(rest[j - i - 1] == '*');
                    assert forall|t: int| 0 <= t < j - i - 1 implies rest[t] != '*' by {
                        assert(rest[t] == c@[i + 1 + t]);
                    }
                } else {
                    assert forall|t: int| 0 <= t < rest.len() implies rest[t] != '*' by {
                        assert(rest[t] == c@[i + 1 + t]);
                    }
                }
            }
            if j == n {
                let tail = crate::text::string_from_chars(vstd::slice::slice_subrange(c.as_slice(), i, n));
                push_str(&mut out, tail.as_str());
                assert(c@.subrange(i as int, n as int) =~= rest0);
                assert(c@.skip(n as int) =~= Seq::<char>::empty());
                i = n;
            } else {
                let k: usize = j - i - 1;
                assert(crate::text::index_of(rest, '*') == k);
                if k == 0 {
                    push_char(&mut out, '*');
                } else {
                    push_str(&mut out, open.as_str());
                    let term = crate::text::string_from_chars(vstd::slice::slice_subrange(c.as_slice(), i + 1, j));
                    assert(term@ =~= rest.take(k as int));
                    push_str(&mut out, term.as_str());
                    push_str(&mut out, "\x1b[0m");
                    proof {
                        reveal_strlit("\x1b[0m");
                    }
                    assert(out@ =~= out0 + (open@ + rest.take(k as int) + colour_close()));
                }
                assert(rest.skip(k + 1) =~= c@.skip(j + 1));
                i = j + 1;
            }
        }
    }
    assert(c@.skip(n as int) =~= Seq::<char>::empty());
    assert(out@ =~= render_spec(input@, colour_open(color)));
    out
}

/// Convert an ANSI-rendered string back to plain text.
pub fn strip_ansi(input: &str) -> (r: String)
    ensures
        r@ == strip_spec(input@),
{
    let c = chars_of(input);
    let n = c.len();
    let mut out = String::new();
    let mut i: usize = 0;
    assert(c@.skip(0) =~= c@);
    assert(out@ =~= Seq::<char>::empty());
    while i < n
        invariant
            i <= n == c@.len(),
            c@ == input@,
            strip_spec(input@) == out@ + strip_spec(c@.skip(i as int)),
        decreases n - i,
    {
        let ghost rest0 = c@.skip(i as int);
        if c[i] != '\x1b' {
            push_char(&mut out, c[i]);
            assert(rest0.drop_first() =~= c@.skip(i + 1));
            i += 1;
        } else {
            let ghost rest = rest0.drop_first();
            let mut j: usize = i + 1;
            while j < n && c[j] != 'm'
                invariant
                    i + 1 <= j <= n == c@.len(),
                    forall|t: int| i + 1 <= t < j ==> c@[t] != 'm',
                decreases n - j,
            {
                j += 1;
            }
            proof {
                crate::text::lemma_index_of(rest, 'm');
                if j < n {
                    assert(rest[j - i - 1] == 'm');
                    assert forall|t: int| 0 <= t < j - i - 1 implies rest[t] != 'm' by {
                        assert(rest[t] == c@[i + 1 + t]);
                    }
                    assert(crate::text::index_of(rest, 'm') == j - i - 1);
                    assert(rest.skip(j - i) =~= c@.skip(j + 1));
                } else {
                    assert forall|t: int| 0 <= t < rest.len() implies rest[t] != 'm' by {
                        assert(rest[t] == c@[i + 1 + t]);
                    }
                    assert(c@.skip(n as int) =~= Seq::<char>::empty());
                    assert(out@ =~= out@ + Seq::<char>::empty());
                }
            }
            i = if j < n {
                j + 1
            } else {
                n
            };
        }
    }
    assert(c@.skip(n as int) =~= Seq::<char>::empty());
    assert(out@ =~= strip_spec(input@));
    out
}


/// `s` with its marks taken out: what `render_spec` shows, without the colours.
pub open spec fn unmarked(s: Seq<char>) -> Seq<char>
    decreases s.len(),
{
    if s.len() == 0 {
        s
    } else if s[0] != '*' {
        seq![s[0]] + unmarked(s.drop_first())
    } else if s.len() >= 2 && s[1] == '*' {
        seq!['*'] + unmarked(s.skip(2))
    } else {
        let rest = s.drop_first();
        let k = crate::text::index_of(rest, '*');
        if k < 0 {
            s
        } else if k == 0 {
            seq!['*'] + unmarked(rest.skip(1))
        } else {
            proof {
                crate::text::lemma_index_of(rest, '*');
            }
            rest.take(k) + unmarked(rest.skip(k + 1))
        }
    }
}

pub open spec fn no_escape(s: Seq<char>) -> bool {
    forall|i: int| 0 <= i < s.len() ==> s[i] != '\x1b'
}

proof fn lemma_strip_plain_prefix(a: Seq<char>, b: Seq<char>)
    requires
        no_escape(a),
    ensures
        strip_spec(a + b) == a + strip_spec(b),
    decreases a.len(),
{
    if a.len() > 0 {
        assert((a + b)[0] == a[0]);
        assert((a + b).drop_first() =~= a.drop_first() + b);
        lemma_strip_plain_prefix(a.drop_first(), b);
        assert(a =~= seq![a[0]] + a.drop_first());
    } else {
        assert(a + b =~= b);
    }
}

proof fn lemma_strip_code(code: Seq<char>, x: Seq<char>)
    requires
        code.len() >= 2,
        code[0] == '\x1b',
        code.last() == 'm',
        forall|i: int| 1 <= i < code.len() - 1 ==> code[i] != 'm',
    ensures
        strip_spec(code + x) == strip_spec(x),
{
    let d = code + x;
    let rest = d.drop_first();
    crate::text::lemma_index_of(rest, 'm');
    assert(rest[code.len() - 2] == 'm');
    assert forall|t: int| 0 <= t < code.len() - 2 implies rest[t] != 'm' by {
        assert(rest[t] == code[t + 1]);
    }
    assert(crate::text::index_of(rest, 'm') == code.len() - 2);
    assert(rest.skip(code.len() - 1) =~= x);
}

/// Taking the colour codes out of a rendered string gives the string with its marks taken out,
/// for a string that has no escape character of its own.
pub proof fn law_strip_undoes_render(s: Seq<char>, color: u8)
    requires
        no_escape(s),
    ensures
        strip_spec(render_spec(s, colour_open(color))) == unmarked(s),
    decreases s.len(),
{
    let open = colour_open(color);
    if s.len() == 0 {
    } else if s[0] != '*' {
        assert(no_escape(s.drop_first()));
        law_strip_undoes_render(s.drop_first(), color);
        lemma_strip_plain_prefix(seq![s[0]], render_spec(s.drop_first(), open));
    } else if s.len() >= 2 && s[1] == '*' {
        assert(no_escape(s.skip(2)));
        law_strip_undoes_render(s.skip(2), color);
        lemma_strip_plain_prefix(seq!['*'], render_spec(s.skip(2), open));
    } else {
        let rest = s.drop_first();
        let k = crate::text::index_of(rest, '*');
        crate::text::lemma_index_of(rest, '*');
        if k < 0 {
            lemma_strip_plain_prefix(s, Seq::empty());
            assert(s + Seq::<char>::empty() =~= s);
        } else if k == 0 {
            assert(no_escape(rest.skip(1)));
            law_strip_undoes_render(rest.skip(1), color);
            lemma_strip_plain_prefix(seq!['*'], render_spec(rest.skip(1), open));
        } else {
            let t = rest.take(k);
            let tail = render_spec(rest.skip(k + 1), open);
            assert(no_escape(rest.skip(k + 1)));
            law_strip_undoes_render(rest.skip(k + 1), color);
            assert(no_escape(t));
            assert(open + t + colour_close() + tail =~= open + (t + (colour_close() + tail)));
            lemma_strip_code(open, t + (colour_close() + tail));
            lemma_strip_plain_prefix(t, colour_close() + tail);
            lemma_strip_code(colour_close(), tail);
        }
    }
}

} // verus!
