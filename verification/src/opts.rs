//! Command-line options of the search client: flags in the `-flag` style, Windows-style
//! `/a` and `/o` switches, and the search text that the flags and terms make up together.
use crate::text::{
    chars_of, eq_lit, lower_chars, lower_vec, parse_u64, parse_u64_spec, push_str, string_of,
};
use vstd::prelude::*;

verus! {

#[derive(Debug, Clone, Copy, PartialEq, Eq, Structural)]
pub enum OutputFormat {
    Default,
    Csv,
    Tsv,
    Txt,
    Efu,
}

#[derive(Debug, Clone, PartialEq, Eq)]
pub struct NdlOptions {
    pub search: String,
    pub regex: Option<String>,
    pub case: bool,
    pub whole_word: bool,
    pub match_path: bool,
    pub diacritics: bool,
    pub offset: usize,
    pub max_results: usize,
    pub path_filter: Option<String>,
    pub show_size: bool,
    pub show_modified: bool,
    pub show_created: bool,
    pub show_extension: bool,
    pub sort: Option<String>,
    pub sort_ascending: bool,
    pub format: OutputFormat,
    pub export_file: Option<String>,
    pub pause: bool,
    pub no_header: bool,
    pub highlight: bool,
    pub highlight_color: u8,
    pub status: bool,
    pub save_db: bool,
    pub reindex: bool,
    pub get_result_count: bool,
    pub get_total_size: bool,
    pub no_result_error: bool,
    pub hide_empty: bool,
    pub help: bool,
    pub version: bool,
    pub config_path: Option<String>,
}

/// The options with their texts as characters.
pub struct OptionsView {
    pub search: Seq<char>,
    pub regex: Option<Seq<char>>,
    pub case: bool,
    pub whole_word: bool,
    pub match_path: bool,
    pub diacritics: bool,
    pub offset: usize,
    pub max_results: usize,
    pub path_filter: Option<Seq<char>>,
    pub show_size: bool,
    pub show_modified: bool,
    pub show_created: bool,
    pub show_extension: bool,
    pub sort: Option<Seq<char>>,
    pub sort_ascending: bool,
    pub format: OutputFormat,
    pub export_file: Option<Seq<char>>,
    pub pause: bool,
    pub no_header: bool,
    pub highlight: bool,
    pub highlight_color: u8,
    pub status: bool,
    pub save_db: bool,
    pub reindex: bool,
    pub get_result_count: bool,
    pub get_total_size: bool,
    pub no_result_error: bool,
    pub hide_empty: bool,
    pub help: bool,
    pub version: bool,
    pub config_path: Option<Seq<char>>,
}

pub open spec fn opt_view(o: Option<String>) -> Option<Seq<char>> {
    match o {
        Some(s) => Some(s@),
        None => None,
    }
}

pub open spec fn strings_view(v: Seq<String>) -> Seq<Seq<char>> {
    Seq::new(v.len(), |i: int| v[i]@)
}

impl View for NdlOptions {
    type V = OptionsView;

    open spec fn view(&self) -> OptionsView {
        OptionsView {
            search: self.search@,
            regex: opt_view(self.regex),
            case: self.case,
            whole_word: self.whole_word,
            match_path: self.match_path,
            diacritics: self.diacritics,
            offset: self.offset,
            max_results: self.max_results,
            path_filter: opt_view(self.path_filter),
            show_size: self.show_size,
            show_modified: self.show_modified,
            show_created: self.show_created,
            show_extension: self.show_extension,
            sort: opt_view(self.sort),
            sort_ascending: self.sort_ascending,
            format: self.format,
            export_file: opt_view(self.export_file),
            pause: self.pause,
            no_header: self.no_header,
            highlight: self.highlight,
            highlight_color: self.highlight_color,
            status: self.status,
            save_db: self.save_db,
            reindex: self.reindex,
            get_result_count: self.get_result_count,
            get_total_size: self.get_total_size,
            no_result_error: self.no_result_error,
            hide_empty: self.hide_empty,
            help: self.help,
            version: self.version,
            config_path: opt_view(self.config_path),
        }
    }
}

/// No search, every result, default format, highlight colour 2, nothing else set.
pub open spec fn default_options() -> OptionsView {
    OptionsView {
        search: Seq::empty(),
        regex: None,
        case: false,
        whole_word: false,
        match_path: false,
        diacritics: false,
        offset: 0,
        max_results: usize::MAX,
        path_filter: None,
        show_size: false,
        show_modified: false,
        show_created: false,
        show_extension: false,
        sort: None,
        sort_ascending: false,
        format: OutputFormat::Default,
        export_file: None,
        pause: false,
        no_header: false,
        highlight: false,
        highlight_color: 2,
        status: false,
        save_db: false,
        reindex: false,
        get_result_count: false,
        get_total_size: false,
        no_result_error: false,
        hide_empty: false,
        help: false,
        version: false,
        config_path: None,
    }
}

impl Default for NdlOptions {
    fn default() -> (r: Self)
        ensures
            r@ == default_options(),
    {
        NdlOptions {
            search: String::new(),
            regex: None,
            case: false,
            whole_word: false,
            match_path: false,
            diacritics: false,
            offset: 0,
            max_results: usize::MAX,
            path_filter: None,
            show_size: false,
            show_modified: false,
            show_created: false,
            show_extension: false,
            sort: None,
            sort_ascending: false,
            format: OutputFormat::Default,
            export_file: None,
            pause: false,
            no_header: false,
            highlight: false,
            highlight_color: 2,
            status: false,
            save_db: false,
            reindex: false,
            get_result_count: false,
            get_total_size: false,
            no_result_error: false,
            hide_empty: false,
            help: false,
            version: false,
            config_path: None,
        }
    }
}

/// The flags, by what they do.
#[derive(Debug, Clone, Copy, PartialEq, Eq, Structural)]
pub enum Flag {
    Regex,
    Case,
    WholeWord,
    MatchPath,
    Diacritics,
    Offset,
    MaxResults,
    Path,
    ShowSize,
    ShowModified,
    ShowCreated,
    ShowExtension,
    SortByPath,
    Sort,
    SortAscending,
    SortDescending,
    Format(OutputFormat),
    Export(OutputFormat),
    Pause,
    NoHeader,
    Highlight,
    HighlightColor,
    Status,
    SaveDb,
    Reindex,
    ResultCount,
    TotalSize,
    NoResultError,
    HideEmpty,
    Help,
    Version,
    Config,
    Unknown,
}

/// The flag that a name (without its dashes) stands for.
#[verifier::opaque]
pub open spec fn flag_named(f: Seq<char>) -> Flag {
    if f == "r"@ || f == "regex"@ {
        Flag::Regex
    } else if f == "i"@ || f == "case"@ {
        Flag::Case
    } else if f == "w"@ || f == "ww"@ || f == "whole-word"@ {
        Flag::WholeWord
    } else if f == "p"@ || f == "match-path"@ {
        Flag::MatchPath
    } else if f == "a"@ || f == "diacritics"@ {
        Flag::Diacritics
    } else if f == "o"@ || f == "offset"@ {
        Flag::Offset
    } else if f == "n"@ || f == "max-results"@ {
        Flag::MaxResults
    } else if f == "path"@ {
        Flag::Path
    } else if f == "size"@ {
        Flag::ShowSize
    } else if f == "dm"@ || f == "date-modified"@ {
        Flag::ShowModified
    } else if f == "dc"@ || f == "date-created"@ {
        Flag::ShowCreated
    } else if f == "ext"@ || f == "extension"@ {
        Flag::ShowExtension
    } else if f == "s"@ {
        Flag::SortByPath
    } else if f == "sort"@ {
        Flag::Sort
    } else if f == "sort-ascending"@ {
        Flag::SortAscending
    } else if f == "sort-descending"@ {
        Flag::SortDescending
    } else if f == "csv"@ {
        Flag::Format(OutputFormat::Csv)
    } else if f == "tsv"@ {
        Flag::Format(OutputFormat::Tsv)
    } else if f == "txt"@ {
        Flag::Format(OutputFormat::Txt)
    } else if f == "efu"@ {
        Flag::Format(OutputFormat::Efu)
    } else if f == "export-csv"@ {
        Flag::Export(OutputFormat::Csv)
    } else if f == "export-tsv"@ {
        Flag::Export(OutputFormat::Tsv)
    } else if f == "export-txt"@ {
        Flag::Export(OutputFormat::Txt)
    } else if f == "export-efu"@ {
        Flag::Export(OutputFormat::Efu)
    } else if f == "pause"@ || f == "more"@ {
        Flag::Pause
    } else if f == "no-header"@ {
        Flag::NoHeader
    } else if f == "highlight"@ {
        Flag::Highlight
    } else if f == "highlight-color"@ {
        Flag::HighlightColor
    } else if f == "status"@ {
        Flag::Status
    } else if f == "save-db"@ {
        Flag::SaveDb
    } else if f == "reindex"@ {
        Flag::Reindex
    } else if f == "get-result-count"@ {
        Flag::ResultCount
    } else if f == "get-total-size"@ {
        Flag::TotalSize
    } else if f == "no-result-error"@ {
        Flag::NoResultError
    } else if f == "hide-empty-search-results"@ {
        Flag::HideEmpty
    } else if f == "h"@ || f == "help"@ {
        Flag::Help
    } else if f == "v"@ || f == "version"@ {
        Flag::Version
    } else if f == "config"@ {
        Flag::Config
    } else {
        Flag::Unknown
    }
}

/// Whether the flag takes the next argument as its value.
pub open spec fn takes_value(f: Flag) -> bool {
    match f {
        Flag::Regex | Flag::Offset | Flag::MaxResults | Flag::Path | Flag::Sort | Flag::Export(_)
        | Flag::HighlightColor | Flag::Config => true,
        _ => false,
    }
}

/// The error when a flag's value is missing.
pub open spec fn missing_value(f: Flag) -> Seq<char> {
    match f {
        Flag::Regex => "missing regex value"@,
        Flag::Offset => "missing offset value"@,
        Flag::MaxResults => "missing max-results value"@,
        Flag::Path => "missing path value"@,
        Flag::Sort => "missing sort value"@,
        Flag::Export(_) => "missing export file"@,
        Flag::HighlightColor => "missing highlight color"@,
        _ => "missing config path"@,
    }
}

/// The on/off settings that flags turn on or off.
#[derive(Debug, Clone, Copy, PartialEq, Eq, Structural)]
pub struct Switches {
    pub case: bool,
    pub whole_word: bool,
    pub match_path: bool,
    pub diacritics: bool,
    pub show_size: bool,
    pub show_modified: bool,
    pub show_created: bool,
    pub show_extension: bool,
    pub sort_ascending: bool,
    pub pause: bool,
    pub no_header: bool,
    pub highlight: bool,
    pub status: bool,
    pub save_db: bool,
    pub reindex: bool,
    pub get_result_count: bool,
    pub get_total_size: bool,
    pub no_result_error: bool,
    pub hide_empty: bool,
    pub help: bool,
    pub version: bool,
}

/// The settings that hold a value.
pub struct Values {
    pub regex: Option<String>,
    pub path_filter: Option<String>,
    pub sort: Option<String>,
    pub export_file: Option<String>,
    pub config_path: Option<String>,
    pub offset: usize,
    pub max_results: usize,
    pub highlight_color: u8,
    pub format: OutputFormat,
}

pub struct ValuesView {
    pub regex: Option<Seq<char>>,
    pub path_filter: Option<Seq<char>>,
    pub sort: Option<Seq<char>>,
    pub export_file: Option<Seq<char>>,
    pub config_path: Option<Seq<char>>,
    pub offset: usize,
    pub max_results: usize,
    pub highlight_color: u8,
    pub format: OutputFormat,
}

impl View for Values {
    type V = ValuesView;

    open spec fn view(&self) -> ValuesView {
        ValuesView {
            regex: opt_view(self.regex),
            path_filter: opt_view(self.path_filter),
            sort: opt_view(self.sort),
            export_file: opt_view(self.export_file),
            config_path: opt_view(self.config_path),
            offset: self.offset,
            max_results: self.max_results,
            highlight_color: self.highlight_color,
            format: self.format,
        }
    }
}

pub open spec fn default_switches() -> Switches {
    Switches {
        case: false,
        whole_word: false,
        match_path: false,
        diacritics: false,
        show_size: false,
        show_modified: false,
        show_created: false,
        show_extension: false,
        sort_ascending: false,
        pause: false,
        no_header: false,
        highlight: false,
        status: false,
        save_db: false,
        reindex: false,
        get_result_count: false,
        get_total_size: false,
        no_result_error: false,
        hide_empty: false,
        help: false,
        version: false,
    }
}

pub open spec fn default_values() -> ValuesView {
    ValuesView {
        regex: None,
        path_filter: None,
        sort: None,
        export_file: None,
        config_path: None,
        offset: 0,
        max_results: usize::MAX,
        highlight_color: 2,
        format: OutputFormat::Default,
    }
}

/// The options made of switches, values and the search text.
pub open spec fn options_of(sw: Switches, v: ValuesView, search: Seq<char>) -> OptionsView {
    OptionsView {
        search,
        regex: v.regex,
        case: sw.case,
        whole_word: sw.whole_word,
        match_path: sw.match_path,
        diacritics: sw.diacritics,
        offset: v.offset,
        max_results: v.max_results,
        path_filter: v.path_filter,
        show_size: sw.show_size,
        show_modified: sw.show_modified,
        show_created: sw.show_created,
        show_extension: sw.show_extension,
        sort: v.sort,
        sort_ascending: sw.sort_ascending,
        format: v.format,
        export_file: v.export_file,
        pause: sw.pause,
        no_header: sw.no_header,
        highlight: sw.highlight,
        highlight_color: v.highlight_color,
        status: sw.status,
        save_db: sw.save_db,
        reindex: sw.reindex,
        get_result_count: sw.get_result_count,
        get_total_size: sw.get_total_size,
        no_result_error: sw.no_result_error,
        hide_empty: sw.hide_empty,
        help: sw.help,
        version: sw.version,
        config_path: v.config_path,
    }
}

/// A flag without a value applied to the switches.
#[verifier::opaque]
pub open spec fn switch_spec(s: Switches, f: Flag) -> Switches {
    match f {
        Flag::Case => Switches { case: true, ..s },
        Flag::WholeWord => Switches { whole_word: true, ..s },
        Flag::MatchPath => Switches { match_path: true, ..s },
        Flag::Diacritics => Switches { diacritics: true, ..s },
        Flag::ShowSize => Switches { show_size: true, ..s },
        Flag::ShowModified => Switches { show_modified: true, ..s },
        Flag::ShowCreated => Switches { show_created: true, ..s },
        Flag::ShowExtension => Switches { show_extension: true, ..s },
        Flag::SortAscending => Switches { sort_ascending: true, ..s },
        Flag::SortDescending => Switches { sort_ascending: false, ..s },
        Flag::Pause => Switches { pause: true, ..s },
        Flag::NoHeader => Switches { no_header: true, ..s },
        Flag::Highlight => Switches { highlight: true, ..s },
        Flag::Status => Switches { status: true, ..s },
        Flag::SaveDb => Switches { save_db: true, ..s },
        Flag::Reindex => Switches { reindex: true, ..s },
        Flag::ResultCount => Switches { get_result_count: true, ..s },
        Flag::TotalSize => Switches { get_total_size: true, ..s },
        Flag::NoResultError => Switches { no_result_error: true, ..s },
        Flag::HideEmpty => Switches { hide_empty: true, ..s },
        Flag::Help => Switches { help: true, ..s },
        Flag::Version => Switches { version: true, ..s },
        _ => s,
    }
}

/// A flag without a value applied to the values: `-s` sorts by path, a format flag sets the
/// format.
#[verifier::opaque]
pub open spec fn fixed_spec(v: ValuesView, f: Flag) -> ValuesView {
    match f {
        Flag::SortByPath => ValuesView { sort: Some("path"@), ..v },
        Flag::Format(fmt) => ValuesView { format: fmt, ..v },
        _ => v,
    }
}

/// A count as `str::parse::<usize>` reads it.
pub open spec fn usize_spec(s: Seq<char>) -> Option<usize> {
    match parse_u64_spec(s) {
        Some(v) => if v <= usize::MAX {
            Some(v as usize)
        } else {
            None
        },
        None => None,
    }
}

/// A colour number as `str::parse::<u8>` reads it.
pub open spec fn u8_spec(s: Seq<char>) -> Option<u8> {
    match parse_u64_spec(s) {
        Some(v) => if v <= 255 {
            Some(v as u8)
        } else {
            None
        },
        None => None,
    }
}

/// A flag with its value `val` applied to the values and the terms.
#[verifier::opaque]
pub open spec fn valued_spec(v: ValuesView, pos: Seq<Seq<char>>, f: Flag, val: Seq<char>) -> Result<
    (ValuesView, Seq<Seq<char>>),
    Seq<char>,
> {
    match f {
        Flag::Regex => Ok((ValuesView { regex: Some(val), ..v }, pos.push("regex:"@ + val))),
        Flag::Offset => match usize_spec(val) {
            Some(n) => Ok((ValuesView { offset: n, ..v }, pos)),
            None => Err("invalid number: "@ + val),
        },
        Flag::MaxResults => match usize_spec(val) {
            Some(n) => Ok((ValuesView { max_results: n, ..v }, pos)),
            None => Err("invalid number: "@ + val),
        },
        Flag::Path => Ok((ValuesView { path_filter: Some(val), ..v }, pos.push("path:"@ + val))),
        Flag::Sort => Ok((ValuesView { sort: Some(val), ..v }, pos)),
        Flag::Export(fmt) => Ok((ValuesView { export_file: Some(val), format: fmt, ..v }, pos)),
        Flag::HighlightColor => match u8_spec(val) {
            Some(c) => Ok((ValuesView { highlight_color: c, ..v }, pos)),
            None => Err("invalid highlight color"@),
        },
        _ => Ok((ValuesView { config_path: Some(val), ..v }, pos)),
    }
}

/// `s` without its leading dashes.
pub open spec fn strip_dashes(s: Seq<char>) -> Seq<char>
    decreases s.len(),
{
    if s.len() > 0 && s[0] == '-' {
        strip_dashes(s.drop_first())
    } else {
        s
    }
}

/// The search term that an `/o` switch adds.
pub open spec fn sort_switch(s: Seq<char>) -> Option<Seq<char>> {
    if s == "N"@ {
        Some("sort:name-asc"@)
    } else if s == "-N"@ {
        Some("sort:name-desc"@)
    } else if s == "S"@ {
        Some("sort:size-desc"@)
    } else if s == "-S"@ {
        Some("sort:size-asc"@)
    } else if s == "E"@ {
        Some("sort:extension-asc"@)
    } else if s == "-E"@ {
        Some("sort:extension-desc"@)
    } else if s == "D"@ {
        Some("sort:date-modified-desc"@)
    } else if s == "-D"@ {
        Some("sort:date-modified-asc"@)
    } else {
        None
    }
}

/// The sort term for a key in one direction.
pub open spec fn keyed_sort_term(key: Seq<char>, ascending: bool) -> Seq<char> {
    "sort:"@ + key + if ascending {
        "-asc"@
    } else {
        "-desc"@
    }
}

/// Whether the plain sort letter sorts ascending: for names and extensions.
pub open spec fn plain_sort_ascends(c: char) -> bool {
    c == 'N' || c == 'E'
}

/// `/oX` and `/o-X` sort by the same key in opposite directions: for names (`N`) and
/// extensions (`E`) the plain letter sorts ascending, for sizes (`S`) and dates (`D`)
/// descending (largest, newest first).
pub proof fn law_sort_switch_pairs(c: char)
    requires
        c == 'N' || c == 'S' || c == 'E' || c == 'D',
    ensures
        exists|key: Seq<char>|
            sort_switch(seq![c]) == Some(#[trigger] keyed_sort_term(key, plain_sort_ascends(c)))
                && sort_switch(seq!['-', c]) == Some(keyed_sort_term(key, !plain_sort_ascends(c))),
{
    reveal_strlit("N");
    reveal_strlit("-N");
    reveal_strlit("S");
    reveal_strlit("-S");
    reveal_strlit("E");
    reveal_strlit("-E");
    reveal_strlit("D");
    reveal_strlit("-D");
    reveal_strlit("sort:name-asc");
    reveal_strlit("sort:name-desc");
    reveal_strlit("sort:size-desc");
    reveal_strlit("sort:size-asc");
    reveal_strlit("sort:extension-asc");
    reveal_strlit("sort:extension-desc");
    reveal_strlit("sort:date-modified-desc");
    reveal_strlit("sort:date-modified-asc");
    reveal_strlit("sort:");
    reveal_strlit("-asc");
    reveal_strlit("-desc");
    reveal_strlit("name");
    reveal_strlit("size");
    reveal_strlit("extension");
    reveal_strlit("date-modified");
    assert("N"@[0] != "S"@[0] && "N"@[0] != "E"@[0] && "N"@[0] != "D"@[0] && "S"@[0] != "E"@[0]
        && "S"@[0] != "D"@[0] && "E"@[0] != "D"@[0]);
    assert("-N"@[1] != "-S"@[1] && "-N"@[1] != "-E"@[1] && "-N"@[1] != "-D"@[1] && "-S"@[1]
        != "-E"@[1] && "-S"@[1] != "-D"@[1] && "-E"@[1] != "-D"@[1]);
    let asc = c == 'N' || c == 'E';
    let key = if c == 'N' {
        "name"@
    } else if c == 'S' {
        "size"@
    } else if c == 'E' {
        "extension"@
    } else {
        "date-modified"@
    };
    if c == 'N' {
        assert(seq![c] =~= "N"@);
        assert(seq!['-', c] =~= "-N"@);
        assert(keyed_sort_term(key, asc) =~= "sort:name-asc"@);
        assert(keyed_sort_term(key, !asc) =~= "sort:name-desc"@);
        assert(sort_switch("N"@) == Some("sort:name-asc"@));
        assert(sort_switch("-N"@) == Some("sort:name-desc"@));
    } else if c == 'S' {
        assert(seq![c] =~= "S"@);
        assert(seq!['-', c] =~= "-S"@);
        assert(keyed_sort_term(key, asc) =~= "sort:size-desc"@);
        assert(keyed_sort_term(key, !asc) =~= "sort:size-asc"@);
        assert(sort_switch("S"@) == Some("sort:size-desc"@));
        assert(sort_switch("-S"@) == Some("sort:size-asc"@));
    } else if c == 'E' {
        assert(seq![c] =~= "E"@);
        assert(seq!['-', c] =~= "-E"@);
        assert(keyed_sort_term(key, asc) =~= "sort:extension-asc"@);
        assert(keyed_sort_term(key, !asc) =~= "sort:extension-desc"@);
        assert(sort_switch("E"@) == Some("sort:extension-asc"@));
        assert(sort_switch("-E"@) == Some("sort:extension-desc"@));
    } else {
        assert(seq![c] =~= "D"@);
        assert(seq!['-', c] =~= "-D"@);
        assert(keyed_sort_term(key, asc) =~= "sort:date-modified-desc"@);
        assert(keyed_sort_term(key, !asc) =~= "sort:date-modified-asc"@);
        assert(sort_switch("D"@) == Some("sort:date-modified-desc"@));
        assert(sort_switch("-D"@) == Some("sort:date-modified-asc"@));
    }
    assert(asc == plain_sort_ascends(c));
    assert(sort_switch(seq![c]) == Some(keyed_sort_term(key, plain_sort_ascends(c))) && sort_switch(
        seq!['-', c],
    ) == Some(keyed_sort_term(key, !plain_sort_ascends(c))));
}

pub open spec fn count_char(s: Seq<char>, c: char) -> nat
    decreases s.len(),
{
    if s.len() == 0 {
        0
    } else {
        count_char(s.drop_last(), c) + if s.last() == c {
            1nat
        } else {
            0nat
        }
    }
}

/// `n` copies of the `folder:` term.
pub open spec fn folder_terms(n: nat) -> Seq<Seq<char>> {
    Seq::new(n, |i: int| "folder:"@)
}

/// A Windows-style switch (it starts with `/`) applied to the terms: `/ad` puts `folder:` first,
/// `/a-d` puts `file:` first, another `/a...` puts `folder:` first once for each `D` in it, and
/// `/o...` adds a sort term.
#[verifier::opaque]
pub open spec fn windows_spec(arg: Seq<char>, pos: Seq<Seq<char>>) -> Result<
    Seq<Seq<char>>,
    Seq<char>,
> {
    if arg == "/ad"@ {
        Ok(seq!["folder:"@] + pos)
    } else if arg == "/a-d"@ {
        Ok(seq!["file:"@] + pos)
    } else if arg.len() >= 2 && arg[0] == '/' && arg[1] == 'a' {
        Ok(folder_terms(count_char(arg.skip(2), 'D')) + pos)
    } else if arg.len() >= 2 && arg[0] == '/' && arg[1] == 'o' {
        match sort_switch(arg.skip(2)) {
            Some(t) => Ok(pos.push(t)),
            None => Err("unknown sort flag: /o"@ + arg.skip(2)),
        }
    } else {
        Err("unknown windows flag: "@ + arg)
    }
}

/// The state of reading the arguments: switches, values and the search terms so far.
pub struct ArgsState {
    pub sw: Switches,
    pub vals: ValuesView,
    pub terms: Seq<Seq<char>>,
}

/// The flag `f` at `i` applied: a switch takes effect, a flag with a value takes the next
/// argument.
#[verifier::opaque]
pub open spec fn flag_spec(st: ArgsState, args: Seq<Seq<char>>, i: int, f: Flag) -> Result<
    (ArgsState, int),
    Seq<char>,
> {
    if f == Flag::Unknown {
        Err("unknown flag: "@ + args[i])
    } else if !takes_value(f) {
        Ok(
            (
                ArgsState { sw: switch_spec(st.sw, f), vals: fixed_spec(st.vals, f), terms: st.terms },
                i + 1,
            ),
        )
    } else if i + 1 >= args.len() {
        Err(missing_value(f))
    } else {
        match valued_spec(st.vals, st.terms, f, args[i + 1]) {
            Ok((v2, p2)) => Ok((ArgsState { sw: st.sw, vals: v2, terms: p2 }, i + 2)),
            Err(e) => Err(e),
        }
    }
}

/// One argument at `i` applied: the new state, and where the next argument starts.
#[verifier::opaque]
pub open spec fn arg_spec(st: ArgsState, args: Seq<Seq<char>>, i: int) -> Result<(ArgsState, int), Seq<char>> {
    let arg = args[i];
    if arg.len() > 0 && arg[0] == '/' {
        match windows_spec(arg, st.terms) {
            Ok(p) => Ok((ArgsState { terms: p, ..st }, i + 1)),
            Err(e) => Err(e),
        }
    } else if !(arg.len() > 0 && arg[0] == '-') {
        Ok((ArgsState { terms: st.terms.push(arg), ..st }, i + 1))
    } else {
        flag_spec(st, args, i, flag_named(strip_dashes(arg)))
    }
}

/// An argument that applies moves on by one or two arguments, and not past the end.
pub proof fn lemma_arg_advances(st: ArgsState, args: Seq<Seq<char>>, i: int)
    requires
        0 <= i < args.len(),
    ensures
        arg_spec(st, args, i) matches Ok((_, j)) ==> i < j <= args.len(),
{
    reveal(arg_spec);
    reveal(flag_spec);
}

/// The arguments from `i` on applied in turn, or the first error.
pub open spec fn args_spec(st: ArgsState, args: Seq<Seq<char>>, i: int) -> Result<ArgsState, Seq<char>>
    decreases args.len() - i,
{
    if i < 0 || i >= args.len() {
        Ok(st)
    } else {
        match arg_spec(st, args, i) {
            Err(e) => Err(e),
            Ok((st2, j)) => {
                proof {
                    lemma_arg_advances(st, args, i);
                }
                args_spec(st2, args, j)
            },
        }
    }
}

pub open spec fn ends_with(s: Seq<char>, t: Seq<char>) -> bool {
    t.len() <= s.len() && s.subrange(s.len() - t.len(), s.len() as int) == t
}

/// The `sort:` term: the sort name, with `-asc` or `-desc` added unless it has a direction.
pub open spec fn sort_term(sort: Seq<char>, ascending: bool) -> Seq<char> {
    let lower = lower_chars(sort);
    "sort:"@ + if ends_with(lower, "-asc"@) || ends_with(lower, "-desc"@) {
        sort
    } else if ascending {
        sort + "-asc"@
    } else {
        sort + "-desc"@
    }
}

pub open spec fn term_if(b: bool, t: Seq<char>) -> Seq<Seq<char>> {
    if b {
        seq![t]
    } else {
        Seq::empty()
    }
}

/// The terms of the search: `case:`, `ww:`, `path:` and the sort term as the flags ask, then
/// the other terms in order.
pub open spec fn search_terms(st: ArgsState) -> Seq<Seq<char>> {
    term_if(st.sw.case, "case:"@) + term_if(st.sw.whole_word, "ww:"@) + term_if(
        st.sw.match_path,
        "path:"@,
    ) + match st.vals.sort {
        Some(s) => seq![sort_term(s, st.sw.sort_ascending)],
        None => Seq::empty(),
    } + st.terms
}

/// The terms joined by single spaces.
pub open spec fn join_words(v: Seq<Seq<char>>) -> Seq<char>
    decreases v.len(),
{
    if v.len() == 0 {
        Seq::empty()
    } else if v.len() == 1 {
        v[0]
    } else {
        join_words(v.drop_last()) + " "@ + v.last()
    }
}

/// What `NdlOptions::parse` gives: the first argument (the program) is skipped.
pub open spec fn parse_spec(args: Seq<Seq<char>>) -> Result<OptionsView, Seq<char>> {
    let init = ArgsState { sw: default_switches(), vals: default_values(), terms: Seq::empty() };
    match args_spec(init, args, 1) {
        Err(e) => Err(e),
        Ok(st) => Ok(options_of(st.sw, st.vals, join_words(search_terms(st)))),
    }
}

fn flag_of(f: &[char]) -> (r: Flag)
    ensures
        r == flag_named(f@),
{
    reveal(flag_named);
    if eq_lit(f, "r") || eq_lit(f, "regex") {
        Flag::Regex
    } else if eq_lit(f, "i") || eq_lit(f, "case") {
        Flag::Case
    } else if eq_lit(f, "w") || eq_lit(f, "ww") || eq_lit(f, "whole-word") {
        Flag::WholeWord
    } else if eq_lit(f, "p") || eq_lit(f, "match-path") {
        Flag::MatchPath
    } else if eq_lit(f, "a") || eq_lit(f, "diacritics") {
        Flag::Diacritics
    } else if eq_lit(f, "o") || eq_lit(f, "offset") {
        Flag::Offset
    } else if eq_lit(f, "n") || eq_lit(f, "max-results") {
        Flag::MaxResults
    } else if eq_lit(f, "path") {
        Flag::Path
    } else if eq_lit(f, "size") {
        Flag::ShowSize
    } else if eq_lit(f, "dm") || eq_lit(f, "date-modified") {
        Flag::ShowModified
    } else if eq_lit(f, "dc") || eq_lit(f, "date-created") {
        Flag::ShowCreated
    } else if eq_lit(f, "ext") || eq_lit(f, "extension") {
        Flag::ShowExtension
    } else if eq_lit(f, "s") {
        Flag::SortByPath
    } else if eq_lit(f, "sort") {
        Flag::Sort
    } else if eq_lit(f, "sort-ascending") {
        Flag::SortAscending
    } else if eq_lit(f, "sort-descending") {
        Flag::SortDescending
    } else if eq_lit(f, "csv") {
        Flag::Format(OutputFormat::Csv)
    } else if eq_lit(f, "tsv") {
        Flag::Format(OutputFormat::Tsv)
    } else if eq_lit(f, "txt") {
        Flag::Format(OutputFormat::Txt)
    } else if eq_lit(f, "efu") {
        Flag::Format(OutputFormat::Efu)
    } else if eq_lit(f, "export-csv") {
        Flag::Export(OutputFormat::Csv)
    } else if eq_lit(f, "export-tsv") {
        Flag::Export(OutputFormat::Tsv)
    } else if eq_lit(f, "export-txt") {
        Flag::Export(OutputFormat::Txt)
    } else if eq_lit(f, "export-efu") {
        Flag::Export(OutputFormat::Efu)
    } else if eq_lit(f, "pause") || eq_lit(f, "more") {
        Flag::Pause
    } else if eq_lit(f, "no-header") {
        Flag::NoHeader
    } else if eq_lit(f, "highlight") {
        Flag::Highlight
    } else if eq_lit(f, "highlight-color") {
        Flag::HighlightColor
    } else if eq_lit(f, "status") {
        Flag::Status
    } else if eq_lit(f, "save-db") {
        Flag::SaveDb
    } else if eq_lit(f, "reindex") {
        Flag::Reindex
    } else if eq_lit(f, "get-result-count") {
        Flag::ResultCount
    } else if eq_lit(f, "get-total-size") {
        Flag::TotalSize
    } else if eq_lit(f, "no-result-error") {
        Flag::NoResultError
    } else if eq_lit(f, "hide-empty-search-results") {
        Flag::HideEmpty
    } else if eq_lit(f, "h") || eq_lit(f, "help") {
        Flag::Help
    } else if eq_lit(f, "v") || eq_lit(f, "version") {
        Flag::Version
    } else if eq_lit(f, "config") {
        Flag::Config
    } else {
        Flag::Unknown
    }
}


/// `prefix` followed by `rest`.
fn joined(prefix: &str, rest: &str) -> (r: String)
    ensures
        r@ == prefix@ + rest@,
{
    let mut s = string_of(prefix);
    push_str(&mut s, rest);
    s
}

fn strip_dashes_exec(a: &[char]) -> (r: &[char])
    ensures
        r@ == strip_dashes(a@),
{
    let n = a.len();
    let mut k: usize = 0;
    assert(a@.skip(0) =~= a@);
    while k < n && a[k] == '-'
        invariant
            k <= n,
            n == a@.len(),
            strip_dashes(a@) == strip_dashes(a@.skip(k as int)),
        decreases n - k,
    {
        assert(a@.skip(k as int).drop_first() =~= a@.skip(k + 1));
        k += 1;
    }
    let r = vstd::slice::slice_subrange(a, k, n);
    assert(r@ =~= a@.skip(k as int));
    r
}

fn ends_with_lit(s: &[char], t: &str) -> (r: bool)
    ensures
        r == ends_with(s@, t@),
{
    let tc = chars_of(t);
    let n = s.len();
    let m = tc.len();
    if m > n {
        return false;
    }
    let tail = vstd::slice::slice_subrange(s, n - m, n);
    let r = eq_lit(tail, t);
    assert(tail@ =~= s@.subrange(n - m, n as int));
    r
}

fn count_exec(s: &[char], c: char) -> (r: usize)
    ensures
        r == count_char(s@, c),
{
    let mut k: usize = 0;
    let mut i: usize = 0;
    while i < s.len()
        invariant
            i <= s@.len(),
            k == count_char(s@.subrange(0, i as int), c),
            k <= i,
        decreases s.len() - i,
    {
        assert(s@.subrange(0, i + 1).drop_last() =~= s@.subrange(0, i as int));
        if s[i] == c {
            k += 1;
        }
        i += 1;
    }
    assert(s@.subrange(0, s@.len() as int) =~= s@);
    k
}

fn sort_switch_exec(s: &[char]) -> (r: Option<&'static str>)
    ensures
        match r {
            Some(t) => sort_switch(s@) == Some(t@),
            None => sort_switch(s@) is None,
        },
{
    if eq_lit(s, "N") {
        Some("sort:name-asc")
    } else if eq_lit(s, "-N") {
        Some("sort:name-desc")
    } else if eq_lit(s, "S") {
        Some("sort:size-desc")
    } else if eq_lit(s, "-S") {
        Some("sort:size-asc")
    } else if eq_lit(s, "E") {
        Some("sort:extension-asc")
    } else if eq_lit(s, "-E") {
        Some("sort:extension-desc")
    } else if eq_lit(s, "D") {
        Some("sort:date-modified-desc")
    } else if eq_lit(s, "-D") {
        Some("sort:date-modified-asc")
    } else {
        None
    }
}

fn windows_flag(arg: &str, positional: &mut Vec<String>) -> (r: Result<(), String>)
    ensures
        match r {
            Ok(()) => windows_spec(arg@, strings_view(old(positional)@)) == Ok::<
                Seq<Seq<char>>,
                Seq<char>,
            >(strings_view(final(positional)@)),
            Err(e) => windows_spec(arg@, strings_view(old(positional)@)) == Err::<
                Seq<Seq<char>>,
                Seq<char>,
            >(e@),
        },
{
    reveal(windows_spec);
    let a = chars_of(arg);
    let ghost p0 = strings_view(positional@);
    if eq_lit(a.as_slice(), "/ad") {
        positional.insert(0, string_of("folder:"));
        assert(strings_view(positional@) =~= seq!["folder:"@] + p0);
        return Ok(());
    }
    if eq_lit(a.as_slice(), "/a-d") {
        positional.insert(0, string_of("file:"));
        assert(strings_view(positional@) =~= seq!["file:"@] + p0);
        return Ok(());
    }
    let n = a.len();
    if n >= 2 && a[0] == '/' && a[1] == 'a' {
        let rest = vstd::slice::slice_subrange(a.as_slice(), 2, n);
        assert(rest@ =~= a@.skip(2));
        let k = count_exec(rest, 'D');
        let mut j: usize = 0;
        while j < k
            invariant
                j <= k,
                strings_view(positional@) == folder_terms(j as nat) + p0,
            decreases k - j,
        {
            let ghost before = strings_view(positional@);
            positional.insert(0, string_of("folder:"));
            assert(strings_view(positional@) =~= seq!["folder:"@] + before);
            assert(folder_terms((j + 1) as nat) =~= seq!["folder:"@] + folder_terms(j as nat));
            assert(strings_view(positional@) =~= folder_terms((j + 1) as nat) + p0);
            j += 1;
        }
        return Ok(());
    }
    if n >= 2 && a[0] == '/' && a[1] == 'o' {
        let rest = vstd::slice::slice_subrange(a.as_slice(), 2, n);
        assert(rest@ =~= a@.skip(2));
        match sort_switch_exec(rest) {
            Some(t) => {
                positional.push(string_of(t));
                assert(strings_view(positional@) =~= p0.push(t@));
                return Ok(());
            },
            None => {
                let tail = crate::text::string_from_chars(rest);
                return Err(joined("unknown sort flag: /o", tail.as_str()));
            },
        }
    }
    Err(joined("unknown windows flag: ", arg))
}

fn apply_switch(s: Switches, f: Flag) -> (r: Switches)
    ensures
        r == switch_spec(s, f),
{
    reveal(switch_spec);
    match f {
        Flag::Case => Switches { case: true, ..s },
        Flag::WholeWord => Switches { whole_word: true, ..s },
        Flag::MatchPath => Switches { match_path: true, ..s },
        Flag::Diacritics => Switches { diacritics: true, ..s },
        Flag::ShowSize => Switches { show_size: true, ..s },
        Flag::ShowModified => Switches { show_modified: true, ..s },
        Flag::ShowCreated => Switches { show_created: true, ..s },
        Flag::ShowExtension => Switches { show_extension: true, ..s },
        Flag::SortAscending => Switches { sort_ascending: true, ..s },
        Flag::SortDescending => Switches { sort_ascending: false, ..s },
        Flag::Pause => Switches { pause: true, ..s },
        Flag::NoHeader => Switches { no_header: true, ..s },
        Flag::Highlight => Switches { highlight: true, ..s },
        Flag::Status => Switches { status: true, ..s },
        Flag::SaveDb => Switches { save_db: true, ..s },
        Flag::Reindex => Switches { reindex: true, ..s },
        Flag::ResultCount => Switches { get_result_count: true, ..s },
        Flag::TotalSize => Switches { get_total_size: true, ..s },
        Flag::NoResultError => Switches { no_result_error: true, ..s },
        Flag::HideEmpty => Switches { hide_empty: true, ..s },
        Flag::Help => Switches { help: true, ..s },
        Flag::Version => Switches { version: true, ..s },
        _ => s,
    }
}

fn apply_fixed(v: &mut Values, f: Flag)
    ensures
        final(v)@ == fixed_spec(old(v)@, f),
{
    reveal(fixed_spec);
    match f {
        Flag::SortByPath => v.sort = Some(string_of("path")),
        Flag::Format(fmt) => v.format = fmt,
        _ => {},
    }
}

fn parse_count(v: &str) -> (r: Option<usize>)
    ensures
        r == usize_spec(v@),
{
    let c = chars_of(v);
    match parse_u64(c.as_slice()) {
        Some(n) => if n <= usize::MAX as u64 {
            Some(n as usize)
        } else {
            None
        },
        None => None,
    }
}

fn parse_color(v: &str) -> (r: Option<u8>)
    ensures
        r == u8_spec(v@),
{
    let c = chars_of(v);
    match parse_u64(c.as_slice()) {
        Some(n) => if n <= 255 {
            Some(n as u8)
        } else {
            None
        },
        None => None,
    }
}

fn apply_valued(vals: &mut Values, positional: &mut Vec<String>, f: Flag, v: &String) -> (r: Result<
    (),
    String,
>)
    ensures
        match r {
            Ok(()) => valued_spec(old(vals)@, strings_view(old(positional)@), f, v@) == Ok::<
                (ValuesView, Seq<Seq<char>>),
                Seq<char>,
            >((final(vals)@, strings_view(final(positional)@))),
            Err(e) => valued_spec(old(vals)@, strings_view(old(positional)@), f, v@) == Err::<
                (ValuesView, Seq<Seq<char>>),
                Seq<char>,
            >(e@),
        },
{
    reveal(valued_spec);
    let ghost p0 = strings_view(positional@);
    match f {
        Flag::Regex => {
            vals.regex = Some(v.clone());
            positional.push(joined("regex:", v.as_str()));
            assert(strings_view(positional@) =~= p0.push("regex:"@ + v@));
        },
        Flag::Offset => match parse_count(v.as_str()) {
            Some(n) => vals.offset = n,
            None => {
                return Err(joined("invalid number: ", v.as_str()));
            },
        },
        Flag::MaxResults => match parse_count(v.as_str()) {
            Some(n) => vals.max_results = n,
            None => {
                return Err(joined("invalid number: ", v.as_str()));
            },
        },
        Flag::Path => {
            vals.path_filter = Some(v.clone());
            positional.push(joined("path:", v.as_str()));
            assert(strings_view(positional@) =~= p0.push("path:"@ + v@));
        },
        Flag::Sort => vals.sort = Some(v.clone()),
        Flag::Export(fmt) => {
            vals.export_file = Some(v.clone());
            vals.format = fmt;
        },
        Flag::HighlightColor => match parse_color(v.as_str()) {
            Some(c) => vals.highlight_color = c,
            None => {
                return Err(string_of("invalid highlight color"));
            },
        },
        _ => vals.config_path = Some(v.clone()),
    }
    Ok(())
}

fn apply_arg(
    sw: Switches,
    vals: &mut Values,
    positional: &mut Vec<String>,
    args: &Vec<String>,
    i: usize,
) -> (r: Result<(Switches, usize), String>)
    requires
        i < args@.len(),
    ensures
        match r {
            Ok((sw2, j)) => arg_spec(
                ArgsState { sw, vals: old(vals)@, terms: strings_view(old(positional)@) },
                strings_view(args@),
                i as int,
            ) == Ok::<(ArgsState, int), Seq<char>>(
                (ArgsState { sw: sw2, vals: final(vals)@, terms: strings_view(final(positional)@) }, j as int),
            ),
            Err(e) => arg_spec(
                ArgsState { sw, vals: old(vals)@, terms: strings_view(old(positional)@) },
                strings_view(args@),
                i as int,
            ) == Err::<(ArgsState, int), Seq<char>>(e@),
        },
{
    let arg = &args[i];
    let a = chars_of(arg.as_str());
    let n = a.len();
    if n > 0 && a[0] == '/' {
        apply_windows_arg(sw, vals, positional, args, i)
    } else if !(n > 0 && a[0] == '-') {
        apply_term(sw, vals, positional, args, i)
    } else {
        apply_flag_arg(sw, vals, positional, args, i)
    }
}

fn apply_windows_arg(
    sw: Switches,
    vals: &mut Values,
    positional: &mut Vec<String>,
    args: &Vec<String>,
    i: usize,
) -> (r: Result<(Switches, usize), String>)
    requires
        i < args@.len(), args@[i as int]@.len() > 0 && args@[i as int]@[0] == '/',
    ensures
        match r {
            Ok((sw2, j)) => arg_spec(
                ArgsState { sw, vals: old(vals)@, terms: strings_view(old(positional)@) },
                strings_view(args@),
                i as int,
            ) == Ok::<(ArgsState, int), Seq<char>>(
                (ArgsState { sw: sw2, vals: final(vals)@, terms: strings_view(final(positional)@) }, j as int),
            ),
            Err(e) => arg_spec(
                ArgsState { sw, vals: old(vals)@, terms: strings_view(old(positional)@) },
                strings_view(args@),
                i as int,
            ) == Err::<(ArgsState, int), Seq<char>>(e@),
        },
{
    reveal(arg_spec);
    let ghost av = strings_view(args@);
    let _len = args.len();
    let arg = &args[i];
    assert(av[i as int] == arg@);
    let a = chars_of(arg.as_str());
    let n = a.len();
    return match windows_flag(arg.as_str(), positional) {
            Ok(()) => Ok((sw, i + 1)),
            Err(e) => Err(e),
        };
}

#[verifier::rlimit(100)]
fn apply_term(
    sw: Switches,
    vals: &mut Values,
    positional: &mut Vec<String>,
    args: &Vec<String>,
    i: usize,
) -> (r: Result<(Switches, usize), String>)
    requires
        i < args@.len(), !(args@[i as int]@.len() > 0 && args@[i as int]@[0] == '/'), !(args@[i as int]@.len() > 0 && args@[i as int]@[0] == '-'),
    ensures
        match r {
            Ok((sw2, j)) => arg_spec(
                ArgsState { sw, vals: old(vals)@, terms: strings_view(old(positional)@) },
                strings_view(args@),
                i as int,
            ) == Ok::<(ArgsState, int), Seq<char>>(
                (ArgsState { sw: sw2, vals: final(vals)@, terms: strings_view(final(positional)@) }, j as int),
            ),
            Err(e) => arg_spec(
                ArgsState { sw, vals: old(vals)@, terms: strings_view(old(positional)@) },
                strings_view(args@),
                i as int,
            ) == Err::<(ArgsState, int), Seq<char>>(e@),
        },
{
    reveal(arg_spec);
    let ghost av = strings_view(args@);
    let _len = args.len();
    let arg = &args[i];
    assert(av[i as int] == arg@);
    let a = chars_of(arg.as_str());
    let n = a.len();
        let ghost p0 = strings_view(positional@);
        positional.push(arg.clone());
        assert(strings_view(positional@) =~= p0.push(arg@));
        return Ok((sw, i + 1));
}

#[verifier::rlimit(100)]
fn apply_flag_arg(
    sw: Switches,
    vals: &mut Values,
    positional: &mut Vec<String>,
    args: &Vec<String>,
    i: usize,
) -> (r: Result<(Switches, usize), String>)
    requires
        i < args@.len(), args@[i as int]@.len() > 0 && args@[i as int]@[0] == '-',
    ensures
        match r {
            Ok((sw2, j)) => arg_spec(
                ArgsState { sw, vals: old(vals)@, terms: strings_view(old(positional)@) },
                strings_view(args@),
                i as int,
            ) == Ok::<(ArgsState, int), Seq<char>>(
                (ArgsState { sw: sw2, vals: final(vals)@, terms: strings_view(final(positional)@) }, j as int),
            ),
            Err(e) => arg_spec(
                ArgsState { sw, vals: old(vals)@, terms: strings_view(old(positional)@) },
                strings_view(args@),
                i as int,
            ) == Err::<(ArgsState, int), Seq<char>>(e@),
        },
{
    reveal(arg_spec);
    let ghost av = strings_view(args@);
    let _len = args.len();
    let arg = &args[i];
    assert(av[i as int] == arg@);
    let a = chars_of(arg.as_str());
    let n = a.len();
    let f = flag_of(strip_dashes_exec(a.as_slice()));
    apply_flag(sw, vals, positional, args, i, f)
}

fn apply_flag(
    sw: Switches,
    vals: &mut Values,
    positional: &mut Vec<String>,
    args: &Vec<String>,
    i: usize,
    f: Flag,
) -> (r: Result<(Switches, usize), String>)
    requires
        i < args@.len(),
    ensures
        match r {
            Ok((sw2, j)) => flag_spec(
                ArgsState { sw, vals: old(vals)@, terms: strings_view(old(positional)@) },
                strings_view(args@),
                i as int,
                f,
            ) == Ok::<(ArgsState, int), Seq<char>>(
                (ArgsState { sw: sw2, vals: final(vals)@, terms: strings_view(final(positional)@) }, j as int),
            ),
            Err(e) => flag_spec(
                ArgsState { sw, vals: old(vals)@, terms: strings_view(old(positional)@) },
                strings_view(args@),
                i as int,
                f,
            ) == Err::<(ArgsState, int), Seq<char>>(e@),
        },
{
    reveal(flag_spec);
    let ghost av = strings_view(args@);
    let _len = args.len();
    assert(av[i as int] == args@[i as int]@);
    if f == Flag::Unknown {
        return Err(joined("unknown flag: ", args[i].as_str()));
    }
    let valued = match f {
        Flag::Regex | Flag::Offset | Flag::MaxResults | Flag::Path | Flag::Sort | Flag::Export(_)
        | Flag::HighlightColor | Flag::Config => true,
        _ => false,
    };
    if !valued {
        apply_fixed(vals, f);
        return Ok((apply_switch(sw, f), i + 1));
    }
    if i + 1 >= args.len() {
        let m = match f {
            Flag::Regex => "missing regex value",
            Flag::Offset => "missing offset value",
            Flag::MaxResults => "missing max-results value",
            Flag::Path => "missing path value",
            Flag::Sort => "missing sort value",
            Flag::Export(_) => "missing export file",
            Flag::HighlightColor => "missing highlight color",
            _ => "missing config path",
        };
        return Err(string_of(m));
    }
    assert(av[i + 1] == args@[i + 1]@);
    apply_valued(vals, positional, f, &args[i + 1])?;
    Ok((sw, i + 2))
}

fn sort_term_exec(sort: &String, ascending: bool) -> (r: String)
    ensures
        r@ == sort_term(sort@, ascending),
{
    let lower = lower_vec(chars_of(sort.as_str()).as_slice());
    let mut t = string_of("sort:");
    push_str(&mut t, sort.as_str());
    if !(ends_with_lit(lower.as_slice(), "-asc") || ends_with_lit(lower.as_slice(), "-desc")) {
        if ascending {
            push_str(&mut t, "-asc");
        } else {
            push_str(&mut t, "-desc");
        }
    }
    t
}

fn join_exec(v: &Vec<String>) -> (r: String)
    ensures
        r@ == join_words(strings_view(v@)),
{
    let mut out = String::new();
    let mut i: usize = 0;
    while i < v.len()
        invariant
            i <= v@.len(),
            out@ == join_words(strings_view(v@.subrange(0, i as int))),
        decreases v.len() - i,
    {
        let ghost w = strings_view(v@.subrange(0, i + 1));
        assert(w.drop_last() =~= strings_view(v@.subrange(0, i as int)));
        if i > 0 {
            push_str(&mut out, " ");
        } else {
            assert(out@ =~= Seq::<char>::empty());
        }
        push_str(&mut out, v[i].as_str());
        assert(out@ =~= join_words(w));
        i += 1;
    }
    assert(v@.subrange(0, v@.len() as int) =~= v@);
    out
}

fn search_of(sw: Switches, vals: &Values, positional: &Vec<String>) -> (r: String)
    ensures
        r@ == join_words(
            search_terms(ArgsState { sw, vals: vals@, terms: strings_view(positional@) }),
        ),
{
    let mut parts: Vec<String> = Vec::new();
    if sw.case {
        parts.push(string_of("case:"));
    }
    if sw.whole_word {
        parts.push(string_of("ww:"));
    }
    if sw.match_path {
        parts.push(string_of("path:"));
    }
    match &vals.sort {
        Some(s) => parts.push(sort_term_exec(s, sw.sort_ascending)),
        None => {},
    }
    let ghost head = strings_view(parts@);
    let mut k: usize = 0;
    while k < positional.len()
        invariant
            k <= positional@.len(),
            strings_view(parts@) == head + strings_view(positional@.subrange(0, k as int)),
        decreases positional.len() - k,
    {
        let ghost before = strings_view(parts@);
        parts.push(positional[k].clone());
        assert(strings_view(parts@) =~= before.push(positional@[k as int]@));
        assert(strings_view(positional@.subrange(0, k + 1)) =~= strings_view(
            positional@.subrange(0, k as int),
        ).push(positional@[k as int]@));
        k += 1;
    }
    assert(positional@.subrange(0, positional@.len() as int) =~= positional@);
    assert(strings_view(parts@) =~= search_terms(
        ArgsState { sw, vals: vals@, terms: strings_view(positional@) },
    ));
    join_exec(&parts)
}

fn assemble(sw: Switches, vals: Values, search: String) -> (r: NdlOptions)
    ensures
        r@ == options_of(sw, vals@, search@),
{
    NdlOptions {
        search,
        regex: vals.regex,
        case: sw.case,
        whole_word: sw.whole_word,
        match_path: sw.match_path,
        diacritics: sw.diacritics,
        offset: vals.offset,
        max_results: vals.max_results,
        path_filter: vals.path_filter,
        show_size: sw.show_size,
        show_modified: sw.show_modified,
        show_created: sw.show_created,
        show_extension: sw.show_extension,
        sort: vals.sort,
        sort_ascending: sw.sort_ascending,
        format: vals.format,
        export_file: vals.export_file,
        pause: sw.pause,
        no_header: sw.no_header,
        highlight: sw.highlight,
        highlight_color: vals.highlight_color,
        status: sw.status,
        save_db: sw.save_db,
        reindex: sw.reindex,
        get_result_count: sw.get_result_count,
        get_total_size: sw.get_total_size,
        no_result_error: sw.no_result_error,
        hide_empty: sw.hide_empty,
        help: sw.help,
        version: sw.version,
        config_path: vals.config_path,
    }
}

impl NdlOptions {
    /// The options that the arguments ask for; the first argument is the program's name.
    pub fn parse(args: Vec<String>) -> (r: Result<NdlOptions, String>)
        ensures
            match r {
                Ok(o) => parse_spec(strings_view(args@)) == Ok::<OptionsView, Seq<char>>(o@),
                Err(e) => parse_spec(strings_view(args@)) == Err::<OptionsView, Seq<char>>(e@),
            },
    {
        let ghost av = strings_view(args@);
        let mut sw = Switches {
            case: false,
            whole_word: false,
            match_path: false,
            diacritics: false,
            show_size: false,
            show_modified: false,
            show_created: false,
            show_extension: false,
            sort_ascending: false,
            pause: false,
            no_header: false,
            highlight: false,
            status: false,
            save_db: false,
            reindex: false,
            get_result_count: false,
            get_total_size: false,
            no_result_error: false,
            hide_empty: false,
            help: false,
            version: false,
        };
        let mut vals = Values {
            regex: None,
            path_filter: None,
            sort: None,
            export_file: None,
            config_path: None,
            offset: 0,
            max_results: usize::MAX,
            highlight_color: 2,
            format: OutputFormat::Default,
        };
        let mut positional: Vec<String> = Vec::new();
        let ghost init = ArgsState { sw: default_switches(), vals: default_values(), terms: Seq::empty() };
        assert(strings_view(positional@) =~= Seq::<Seq<char>>::empty());
        let mut i: usize = 1;
        while i < args.len()
            invariant
                1 <= i,
                av == strings_view(args@),
                init == (ArgsState { sw: default_switches(), vals: default_values(), terms: Seq::empty() }),
                args_spec(init, av, 1) == args_spec(
                    ArgsState { sw, vals: vals@, terms: strings_view(positional@) },
                    av,
                    i as int,
                ),
            decreases args.len() - i,
        {
            proof {
                lemma_arg_advances(
                    ArgsState { sw, vals: vals@, terms: strings_view(positional@) },
                    av,
                    i as int,
                );
            }
            let ghost st = ArgsState { sw, vals: vals@, terms: strings_view(positional@) };
            match apply_arg(sw, &mut vals, &mut positional, &args, i) {
                Ok((sw2, j)) => {
                    sw = sw2;
                    i = j;
                },
                Err(e) => {
                    assert(args_spec(st, av, i as int) == Err::<ArgsState, Seq<char>>(e@));
                    return Err(e);
                },
            }
        }
        let search = search_of(sw, &vals, &positional);
        Ok(assemble(sw, vals, search))
    }
}

} // verus!
