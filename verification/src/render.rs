//! Search results as the command-line client prints them: one path per line, or a table with
//! a `Name` header in CSV (quoted, CRLF line ends) or TSV.
use crate::opts::OutputFormat;
use crate::text::{chars_of, push_char, push_str};
use vstd::prelude::*;

verus! {

pub open spec fn strings_view(v: Seq<String>) -> Seq<Seq<char>> {
    Seq::new(v.len(), |i: int| v[i]@)
}

/// `s` with each `"` doubled.
pub open spec fn double_quotes(s: Seq<char>) -> Seq<char>
    decreases s.len(),
{
    if s.len() == 0 {
        s
    } else {
        double_quotes(s.drop_last()) + if s.last() == '"' {
            seq!['"', '"']
        } else {
            seq![s.last()]
        }
    }
}

/// One row: in CSV (`sep` is a comma) the path is quoted.
pub open spec fn row_text(p: Seq<char>, sep: Seq<char>) -> Seq<char> {
    if sep == ","@ {
        seq!['"'] + double_quotes(p) + seq!['"']
    } else {
        p
    }
}

pub open spec fn rows_text(paths: Seq<Seq<char>>, sep: Seq<char>, line_end: Seq<char>) -> Seq<char>
    decreases paths.len(),
{
    if paths.len() == 0 {
        Seq::empty()
    } else {
        rows_text(paths.drop_last(), sep, line_end) + row_text(paths.last(), sep) + line_end
    }
}

/// A table: the header line unless it is left out, then a line per path.
pub open spec fn table_text(
    paths: Seq<Seq<char>>,
    header: Seq<char>,
    sep: Seq<char>,
    line_end: Seq<char>,
    no_header: bool,
) -> Seq<char> {
    (if no_header {
        Seq::empty()
    } else {
        header + line_end
    }) + rows_text(paths, sep, line_end)
}

/// The paths joined by newlines.
pub open spec fn joined_lines(paths: Seq<Seq<char>>) -> Seq<char>
    decreases paths.len(),
{
    if paths.len() == 0 {
        Seq::empty()
    } else if paths.len() == 1 {
        paths[0]
    } else {
        joined_lines(paths.drop_last()) + seq!['\n'] + paths.last()
    }
}

/// The results in the requested format; plain output ends with a newline unless it is empty.
pub open spec fn results_text(paths: Seq<Seq<char>>, format: OutputFormat, no_header: bool) -> Seq<
    char,
> {
    match format {
        OutputFormat::Csv => table_text(paths, "Name"@, ","@, "\r\n"@, no_header),
        OutputFormat::Tsv => table_text(paths, "Name"@, "\t"@, "\n"@, no_header),
        _ => {
            let j = joined_lines(paths);
            if j.len() > 0 {
                j + seq!['\n']
            } else {
                j
            }
        },
    }
}

fn push_csv_quoted(out: &mut String, p: &str)
    ensures
        final(out)@ == old(out)@ + seq!['"'] + double_quotes(p@) + seq!['"'],
{
    let c = chars_of(p);
    let ghost o0 = out@;
    push_char(out, '"');
    let mut i: usize = 0;
    while i < c.len()
        invariant
            i <= c@.len(),
            c@ == p@,
            out@ == o0 + seq!['"'] + double_quotes(c@.take(i as int)),
        decreases c.len() - i,
    {
        assert(c@.take(i + 1).drop_last() =~= c@.take(i as int));
        if c[i] == '"' {
            push_char(out, '"');
            push_char(out, '"');
        } else {
            push_char(out, c[i]);
        }
        assert(out@ =~= o0 + seq!['"'] + double_quotes(c@.take(i + 1)));
        i += 1;
    }
    assert(c@.take(c@.len() as int) =~= c@);
    push_char(out, '"');
}

pub fn render_table(paths: &[String], header: &str, sep: &str, line_end: &str, no_header: bool) -> (r:
    String)
    ensures
        r@ == table_text(strings_view(paths@), header@, sep@, line_end@, no_header),
{
    let mut output = String::new();
    if !no_header {
        push_str(&mut output, header);
        push_str(&mut output, line_end);
    }
    let ghost head = output@;
    assert(head =~= (if no_header {
        Seq::<char>::empty()
    } else {
        header@ + line_end@
    }));
    let csv = crate::text::str_eq(sep, ",");
    let mut i: usize = 0;
    while i < paths.len()
        invariant
            i <= paths@.len(),
            csv == (sep@ == ","@),
            output@ == head + rows_text(strings_view(paths@.take(i as int)), sep@, line_end@),
        decreases paths.len() - i,
    {
        let ghost w = strings_view(paths@.take(i + 1));
        assert(w.drop_last() =~= strings_view(paths@.take(i as int)));
        assert(w.last() == paths@[i as int]@);
        if csv {
            push_csv_quoted(&mut output, paths[i].as_str());
        } else {
            push_str(&mut output, paths[i].as_str());
        }
        push_str(&mut output, line_end);
        assert(output@ =~= head + rows_text(w, sep@, line_end@));
        i += 1;
    }
    assert(paths@.take(paths@.len() as int) =~= paths@);
    output
}

pub fn render_results(paths: &[String], format: OutputFormat, no_header: bool) -> (r: String)
    ensures
        r@ == results_text(strings_view(paths@), format, no_header),
{
    match format {
        OutputFormat::Csv => render_table(paths, "Name", ",", "\r\n", no_header),
        OutputFormat::Tsv => render_table(paths, "Name", "\t", "\n", no_header),
        _ => {
            let mut output = String::new();
            let mut i: usize = 0;
            while i < paths.len()
                invariant
                    i <= paths@.len(),
                    output@ == joined_lines(strings_view(paths@.take(i as int))),
                decreases paths.len() - i,
            {
                let ghost w = strings_view(paths@.take(i + 1));
                assert(w.drop_last() =~= strings_view(paths@.take(i as int)));
                if i > 0 {
                    push_char(&mut output, '\n');
                } else {
                    assert(output@ =~= Seq::<char>::empty());
                }
                push_str(&mut output, paths[i].as_str());
                assert(output@ =~= joined_lines(w));
                i += 1;
            }
            assert(paths@.take(paths@.len() as int) =~= paths@);
            if output.as_str().unicode_len() > 0 {
                push_char(&mut output, '\n');
            }
            output
        },
    }
}

} // verus!
